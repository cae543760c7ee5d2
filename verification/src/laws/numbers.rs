//! Numbers in text: what is written is what is read.

use crate::amount::{Amount, ONE, saturate};
use crate::decimal::{
    PLACES, Reading, float_end, lemma_pow10_positive, numeral, pow10, reading, shifted,
    signed_integer, split_sign,
};
use crate::event::big_endian;
use crate::log::{
    Entry, SkipReason, four_digits, four_places, kind_name, reason_name, rounded, row,
    signed_decimal,
};
use crate::text::{all_digits, decimal, digit, digit_of, digits_value, is_digit, lemma_until, until};
use vstd::arithmetic::power2::pow2;
use vstd::prelude::*;

verus! {

/// The powers of ten are those of arithmetic.
pub proof fn law_powers_of_ten(n: nat)
    ensures
        pow10(n) == vstd::arithmetic::power::pow(10, n),
    decreases n,
{
    reveal(vstd::arithmetic::power::pow);
    if n > 0 {
        law_powers_of_ten((n - 1) as nat);
    }
}

proof fn lemma_pow10_adds(a: nat, b: nat)
    ensures
        pow10(a + b) == pow10(a) * pow10(b),
    decreases a,
{
    if a > 0 {
        lemma_pow10_adds((a - 1) as nat, b);
        let x = pow10((a - 1) as nat);
        let y = pow10(b);
        assert(10 * (x * y) == (10 * x) * y) by (nonlinear_arith);
        assert(pow10(a + b) == 10 * pow10((a - 1) as nat + b));
    } else {
        assert(1 * pow10(b) == pow10(b));
    }
}

/// Digits count by their place: one behind a number multiplies it by ten and adds itself.
pub proof fn law_digits_count_by_place(s: Seq<char>, c: char)
    requires
        '0' <= c && c <= '9',
    ensures
        digits_value(s.push(c)) == 10 * digits_value(s) + (c as int - 48),
        digits_value(Seq::<char>::empty()) == 0,
{
    assert(s.push(c).drop_last() =~= s);
}

/// A number that is written in decimal is digits alone, starts with a zero only where it
/// is nothing, and counts what it was.
pub proof fn law_decimal_writes_its_number(n: nat)
    ensures
        decimal(n).len() > 0,
        all_digits(decimal(n)),
        digits_value(decimal(n)) == n,
        n > 0 ==> decimal(n)[0] != '0',
    decreases n,
{
    if n < 10 {
        let c = digit_of(n as int);
        assert(is_digit(c) && digit(c) == n);
        assert(seq![c].drop_last() =~= Seq::empty());
        assert(digits_value(Seq::<char>::empty()) == 0);
        assert(digits_value(seq![c]) == 10 * digits_value(seq![c].drop_last()) + digit(c));
    } else {
        law_decimal_writes_its_number(n / 10);
        let c = digit_of((n % 10) as int);
        assert(is_digit(c) && digit(c) == n % 10);
        assert(decimal(n / 10).push(c).drop_last() =~= decimal(n / 10));
        assert forall|i: int| 0 <= i < decimal(n).len() implies is_digit(#[trigger] decimal(n)[i]) by {
            if i < decimal(n / 10).len() {
                assert(is_digit(decimal(n / 10)[i]));
            }
        }
    }
}

/// A signed number is written with a minus sign exactly where it is negative, and with its
/// magnitude behind it.
pub proof fn law_signed_decimal_writes_its_number(n: int)
    ensures
        n >= 0 ==> all_digits(signed_decimal(n)) && digits_value(signed_decimal(n)) == n,
        n < 0 ==> {
            &&& signed_decimal(n)[0] == '-'
            &&& all_digits(signed_decimal(n).skip(1))
            &&& digits_value(signed_decimal(n).skip(1)) == -n
        },
{
    if n >= 0 {
        law_decimal_writes_its_number(n as nat);
    } else {
        law_decimal_writes_its_number((-n) as nat);
        assert(signed_decimal(n).skip(1) =~= decimal((-n) as nat));
    }
}

/// Bytes count by their place: one behind a number multiplies it by 256 and adds itself.
pub proof fn law_bytes_count_by_place(s: Seq<u8>, b: u8)
    ensures
        big_endian(s.push(b)) == 256 * big_endian(s) + b,
        big_endian(Seq::<u8>::empty()) == 0,
{
    assert(s.push(b).drop_last() =~= s);
}

/// The digits of a number with `k` of them behind the point, in billionths.
proof fn lemma_scaled(digits: Seq<char>, k: nat)
    requires
        all_digits(digits),
        digits_value(digits) >= 0,
    ensures
        shifted(digits, PLACES - k) == digits_value(digits) * ONE / pow10(k),
        shifted(digits, -(k as int)) == digits_value(digits) / pow10(k),
{
    let v = digits_value(digits);
    let nine = pow10(9);
    assert(nine == ONE) by {
        reveal_with_fuel(pow10, 10);
    }
    lemma_pow10_positive(k);
    assert(v / 1 == v && v * 1 == v);
    assert(pow10(0) == 1);
    if k <= 9 {
        let p = pow10(k);
        let q = pow10((9 - k) as nat);
        lemma_pow10_positive((9 - k) as nat);
        lemma_pow10_adds((9 - k) as nat, k);
        assert((9 - k) as nat + k == 9);
        assert(v * (q * p) == (v * q) * p) by (nonlinear_arith);
        vstd::arithmetic::div_mod::lemma_div_multiples_vanish(v * q, p);
        assert(p * (v * q) == (v * q) * p) by (nonlinear_arith);
    } else {
        let m = (k - 9) as nat;
        let p = pow10(m);
        lemma_pow10_positive(m);
        lemma_pow10_adds(9, m);
        assert(9 + m == k);
        vstd::arithmetic::div_mod::lemma_div_denominator(v * nine, nine, p);
        assert(nine * v == v * nine) by (nonlinear_arith);
        vstd::arithmetic::div_mod::lemma_div_multiples_vanish(v, nine);
    }
}

proof fn lemma_no_sign_no_word(s: Seq<char>)
    requires
        s.len() > 0,
        is_digit(s[0]) || s[0] == '.',
    ensures
        split_sign(s) == (false, s),
        !crate::decimal::is_infinity(s),
{
    let c = s[0];
    if crate::decimal::is_infinity(s) {
        assert(crate::decimal::lowered(s[0]) == 'i');
        assert(crate::decimal::lowered(c) == c);
    }
}

/// Digits around a point are read as the number that they write: all of them together,
/// divided by ten for each one behind the point, cut off below a billionth.
pub proof fn law_reads_decimals(w: Seq<char>, f: Seq<char>)
    requires
        all_digits(w),
        all_digits(f),
        w.len() + f.len() > 0,
    ensures
        ({
            let r = reading(w + seq!['.'] + f);
            &&& r is Some
            &&& !r->0.negative
            &&& r->0.amount == saturate(digits_value(w + f) * ONE / pow10(f.len()))
            &&& r->0.infinite <==> digits_value(w + f) / pow10(f.len()) >= float_end()
            &&& r->0.exact <==> f.len() <= 9 || digits_value(w + f) % pow10((f.len() - 9) as nat)
                == 0
        }),
{
    let s = w + seq!['.'] + f;
    assert(s[0] == if w.len() > 0 {
        w[0]
    } else {
        '.'
    });
    lemma_no_sign_no_word(s);
    assert forall|j: int| 0 <= j < s.len() implies s[j] != 'e' && s[j] != 'E' by {
        if j < w.len() {
            assert(is_digit(w[j]));
        } else if j > w.len() {
            assert(s[j] == f[j - w.len() - 1]);
            assert(is_digit(f[j - w.len() - 1]));
        }
    }
    lemma_until(s, 'e', 'E', s.len() as int);
    assert(s.take(s.len() as int) =~= s);
    assert forall|j: int| 0 <= j < w.len() implies s[j] != '.' by {
        assert(is_digit(w[j]));
    }
    assert(s[w.len() as int] == '.');
    lemma_until(s, '.', '.', w.len() as int);
    assert(s.take(w.len() as int) =~= w);
    assert(s.skip(w.len() as int + 1) =~= f);
    let digits = w + f;
    assert forall|j: int| 0 <= j < digits.len() implies is_digit(#[trigger] digits[j]) by {
        if j < w.len() {
            assert(is_digit(w[j]));
        } else {
            assert(is_digit(f[j - w.len()]));
        }
    }
    crate::decimal::lemma_digits_bound(digits);
    lemma_scaled(digits, f.len());
    crate::decimal::lemma_shifted_nonnegative(digits, PLACES - f.len());
}

/// Digits alone are read as the whole number that they write, with nothing cut off.
pub proof fn law_reads_whole_numbers(w: Seq<char>)
    requires
        all_digits(w),
        w.len() > 0,
    ensures
        reading(w) == Some(
            Reading {
                negative: false,
                amount: saturate(digits_value(w) * ONE),
                exact: true,
                infinite: digits_value(w) >= float_end(),
            },
        ),
{
    assert(is_digit(w[0]));
    lemma_no_sign_no_word(w);
    assert forall|j: int| 0 <= j < w.len() implies w[j] != 'e' && w[j] != 'E' && w[j] != '.' by {
        assert(is_digit(w[j]));
    }
    lemma_until(w, 'e', 'E', w.len() as int);
    assert(w.take(w.len() as int) =~= w);
    lemma_until(w, '.', '.', w.len() as int);
    assert(w + Seq::<char>::empty() =~= w);
    crate::decimal::lemma_digits_bound(w);
    lemma_scaled(w, 0);
    assert(pow10(0) == 1);
    assert(digits_value(w) * ONE / 1 == digits_value(w) * ONE);
    assert(digits_value(w) / 1 == digits_value(w));
    crate::decimal::lemma_shifted_nonnegative(w, PLACES as int);
}

/// A plus sign before a number changes nothing; a minus sign turns it round.
pub proof fn law_reads_signs(s: Seq<char>)
    requires
        s.len() == 0 || s[0] != '+' && s[0] != '-',
    ensures
        reading(seq!['+'] + s) == reading(s),
        reading(seq!['-'] + s) is Some <==> reading(s) is Some,
        reading(s) matches Some(r) ==> {
            let turned = reading(seq!['-'] + s)->0;
            &&& turned.negative && !r.negative
            &&& turned.exact == r.exact
            &&& turned.infinite == r.infinite
            &&& r.amount < i64::MAX ==> turned.amount == -r.amount
            &&& r.amount == i64::MAX ==> turned.amount <= -i64::MAX
        },
{
    let plus = seq!['+'] + s;
    let minus = seq!['-'] + s;
    assert(plus.skip(1) =~= s);
    assert(minus.skip(1) =~= s);
    assert(split_sign(s) == (false, s));
    if let Some(n) = numeral(s) {
        crate::decimal::lemma_shifted_nonnegative(n.digits, n.exponent + PLACES);
    }
}

/// The exponents that a number in decimal writes, with and without a sign.
proof fn lemma_exponent_texts(k: nat)
    ensures
        signed_integer(decimal(k)) == Some(k as int),
        signed_integer(seq!['+'] + decimal(k)) == Some(k as int),
        signed_integer(seq!['-'] + decimal(k)) == Some(-(k as int)),
{
    law_decimal_writes_its_number(k);
    let d = decimal(k);
    assert(is_digit(d[0]));
    assert((seq!['-'] + d).skip(1) =~= d);
    assert((seq!['+'] + d).skip(1) =~= d);
}

/// An exponent multiplies by so many tens.
pub proof fn law_exponents_multiply(w: Seq<char>, k: nat, mark: char)
    requires
        all_digits(w),
        w.len() > 0,
        mark == 'e' || mark == 'E',
    ensures
        reading(w + seq![mark] + decimal(k)) == Some(
            Reading {
                negative: false,
                amount: saturate(digits_value(w) * pow10(k) * ONE),
                exact: true,
                infinite: digits_value(w) * pow10(k) >= float_end(),
            },
        ),
        reading(w + seq![mark] + (seq!['+'] + decimal(k))) == reading(
            w + seq![mark] + decimal(k),
        ),
{
    lemma_exponent_texts(k);
    lemma_with_exponent(w, mark, decimal(k));
    lemma_with_exponent(w, mark, seq!['+'] + decimal(k));
    crate::decimal::lemma_shifted_nonnegative(w, PLACES + k);
    let v = digits_value(w);
    lemma_pow10_adds(k, 9);
    assert(pow10(9) == ONE) by {
        reveal_with_fuel(pow10, 10);
    }
    let p = pow10(k);
    assert(v * (p * ONE) == v * p * ONE) by (nonlinear_arith);
}

/// An exponent behind a minus sign divides by so many tens.
pub proof fn law_negative_exponents_divide(w: Seq<char>, k: nat, mark: char)
    requires
        all_digits(w),
        w.len() > 0,
        mark == 'e' || mark == 'E',
    ensures
        reading(w + seq![mark] + (seq!['-'] + decimal(k))) == Some(
            Reading {
                negative: false,
                amount: saturate(digits_value(w) * ONE / pow10(k)),
                exact: k <= 9 || digits_value(w) % pow10((k - 9) as nat) == 0,
                infinite: digits_value(w) / pow10(k) >= float_end(),
            },
        ),
{
    lemma_exponent_texts(k);
    lemma_with_exponent(w, mark, seq!['-'] + decimal(k));
    crate::decimal::lemma_digits_bound(w);
    lemma_scaled(w, k);
    crate::decimal::lemma_shifted_nonnegative(w, PLACES - k);
}

/// The number that digits with an exponent write.
proof fn lemma_with_exponent(w: Seq<char>, mark: char, tail: Seq<char>)
    requires
        all_digits(w),
        w.len() > 0,
        mark == 'e' || mark == 'E',
        signed_integer(tail) is Some,
    ensures
        ({
            let s = w + seq![mark] + tail;
            &&& split_sign(s) == (false, s)
            &&& !crate::decimal::is_infinity(s)
            &&& numeral(s) matches Some(n) && n.digits == w && n.exponent == signed_integer(tail)->0
        }),
{
    let s = w + seq![mark] + tail;
    assert(s[0] == w[0]);
    assert(is_digit(w[0]));
    lemma_no_sign_no_word(s);
    let m = w.len() as int;
    assert forall|j: int| 0 <= j < m implies s[j] != 'e' && s[j] != 'E' by {
        assert(is_digit(w[j]));
    }
    assert(s[m] == mark);
    lemma_until(s, 'e', 'E', m);
    assert(s.take(m) =~= w);
    assert forall|j: int| 0 <= j < m implies w[j] != '.' by {
        assert(is_digit(w[j]));
    }
    lemma_until(w, '.', '.', m);
    assert(w.take(m) =~= w);
    assert(w + Seq::<char>::empty() =~= w);
    assert(s.skip(m + 1) =~= tail);
}

/// Nothing is no number, and neither is text without a digit that is not infinite.
pub proof fn law_reads_no_number_without_digits(s: Seq<char>)
    requires
        forall|i: int| 0 <= i < s.len() ==> !is_digit(#[trigger] s[i]),
        reading(s) is Some,
    ensures
        reading(s)->0.infinite,
        reading(s)->0.amount == i64::MAX || reading(s)->0.amount == i64::MIN,
{
    let body = split_sign(s).1;
    if !crate::decimal::is_infinity(body) {
        let n = numeral(body)->0;
        let mark = until(body, 'e', 'E') as int;
        crate::decimal::lemma_until_bound(body, 'e', 'E');
        let mantissa = body.take(mark);
        crate::decimal::lemma_until_bound(mantissa, '.', '.');
        let point = until(mantissa, '.', '.') as int;
        let c = n.digits[0];
        assert(is_digit(c));
        let shift = s.len() - body.len();
        if point > 0 {
            assert(c == mantissa[0]);
            assert(c == s[shift]);
        } else {
            assert(c == mantissa[point + 1]);
            assert(c == s[shift + point + 1]);
        }
    }
}

/// Four places read back as the amount, up to half of the last of them, and there is
/// nothing finer in them.
pub proof fn law_four_places_read_back(x: Amount)
    requires
        -9_000_000_000_000_000_000 <= x <= 9_000_000_000_000_000_000,
    ensures
        ({
            let r = reading(four_places(x));
            &&& r is Some
            &&& r->0.negative <==> x < 0
            &&& -50_000 <= r->0.amount - x <= 50_000
            &&& r->0.amount as int % 100_000 == 0
        }),
{
    let magnitude = if x < 0 {
        -x
    } else {
        x as int
    };
    let n = rounded(magnitude, 100_000);
    let w = decimal((n / 10_000) as nat);
    let m = n % 10_000;
    let f = four_digits(m);
    law_decimal_writes_its_number((n / 10_000) as nat);
    lemma_four_digits(m);
    let plain = w + seq!['.'] + f;
    law_reads_decimals(w, f);
    lemma_join_four(w, f);
    assert(digits_value(w + f) == n);
    assert(pow10(4) == 10_000) by {
        reveal_with_fuel(pow10, 5);
    }
    assert(n * ONE / 10_000 == n * 100_000) by {
        assert(n * ONE == (n * 100_000) * 10_000);
    }
    if x < 0 {
        assert(four_places(x) =~= seq!['-'] + plain);
        assert(plain[0] == w[0]);
        assert(is_digit(w[0]));
        law_reads_signs(plain);
    } else {
        assert(four_places(x) =~= plain);
    }
}

proof fn lemma_four_parts(m: int)
    requires
        0 <= m < 10_000,
    ensures
        m == 1000 * (m / 1000 % 10) + 100 * (m / 100 % 10) + 10 * (m / 10 % 10) + m % 10,
{
    let a = m / 1000;
    let b = m / 100;
    let c = m / 10;
    assert(c == 10 * b + c % 10) by {
        assert(b == c / 10);
    }
    assert(b == 10 * a + b % 10) by {
        assert(a == b / 10);
    }
    assert(a % 10 == a);
}

proof fn lemma_digit_of(d: int)
    requires
        0 <= d <= 9,
    ensures
        is_digit(digit_of(d)),
        digit(digit_of(d)) == d,
{
}

/// Four digits one behind the other.
proof fn lemma_four_value(f: Seq<char>)
    requires
        f.len() == 4,
    ensures
        digits_value(f) == 1000 * digit(f[0]) + 100 * digit(f[1]) + 10 * digit(f[2]) + digit(f[3]),
{
    let f3 = f.drop_last();
    let f2 = f3.drop_last();
    let f1 = f2.drop_last();
    assert(f1.drop_last() =~= Seq::empty());
    assert(f3.last() == f[2] && f2.last() == f[1] && f1.last() == f[0]);
    assert(digits_value(f1) == digit(f[0])) by {
        assert(digits_value(f1.drop_last()) == 0);
    }
    assert(digits_value(f2) == 10 * digits_value(f1) + digit(f[1]));
    assert(digits_value(f3) == 10 * digits_value(f2) + digit(f[2]));
}

proof fn lemma_four_digits(m: int)
    requires
        0 <= m < 10_000,
    ensures
        four_digits(m).len() == 4,
        all_digits(four_digits(m)),
        digits_value(four_digits(m)) == m,
{
    let f = four_digits(m);
    lemma_four_parts(m);
    lemma_digit_of(m / 1000 % 10);
    lemma_digit_of(m / 100 % 10);
    lemma_digit_of(m / 10 % 10);
    lemma_digit_of(m % 10);
    lemma_four_value(f);
    assert forall|i: int| 0 <= i < f.len() implies is_digit(#[trigger] f[i]) by {
        assert(i == 0 || i == 1 || i == 2 || i == 3);
    }
}

proof fn lemma_join_four(w: Seq<char>, f: Seq<char>)
    requires
        f.len() == 4,
    ensures
        digits_value(w + f) == 10_000 * digits_value(w) + digits_value(f),
{
    reveal_with_fuel(digits_value, 5);
    let f3 = f.drop_last();
    let f2 = f3.drop_last();
    let f1 = f2.drop_last();
    assert(f1.drop_last() =~= Seq::empty());
    assert((w + f).drop_last() =~= w + f3);
    assert((w + f3).drop_last() =~= w + f2);
    assert((w + f2).drop_last() =~= w + f1);
    assert((w + f1).drop_last() =~= w);
}

/// A row has five columns between bars and ends its line: the second, the slug, the kind,
/// the detail and the bankroll.
pub proof fn law_row_has_its_columns(
    now_unix: i64,
    slug: Seq<char>,
    kind: Seq<char>,
    detail: Seq<char>,
    bankroll: Amount,
)
    ensures
        ({
            let s = row(now_unix, slug, kind, detail, bankroll);
            let a = signed_decimal(now_unix as int).len() as int;
            let b = a + 1 + slug.len();
            let c = b + 1 + kind.len();
            let d = c + 1 + detail.len();
            &&& s.take(a) == signed_decimal(now_unix as int)
            &&& s.subrange(a + 1, b) == slug
            &&& s.subrange(b + 1, c) == kind
            &&& s.subrange(c + 1, d) == detail
            &&& s.subrange(d + 1, s.len() - 1) == four_places(bankroll)
            &&& s[a] == '|' && s[b] == '|' && s[c] == '|' && s[d] == '|'
            &&& s.last() == '\n'
        }),
{
    let s = row(now_unix, slug, kind, detail, bankroll);
    let a = signed_decimal(now_unix as int).len() as int;
    let b = a + 1 + slug.len();
    let c = b + 1 + kind.len();
    let d = c + 1 + detail.len();
    assert(s.take(a) =~= signed_decimal(now_unix as int));
    assert(s.subrange(a + 1, b) =~= slug);
    assert(s.subrange(b + 1, c) =~= kind);
    assert(s.subrange(c + 1, d) =~= detail);
    assert(s.subrange(d + 1, s.len() - 1) =~= four_places(bankroll));
}

/// Each kind of row, and each reason, has its own name in the log.
pub proof fn law_rows_are_named(entry: Entry)
    ensures
        match entry {
            Entry::SkipBankroll { .. } => kind_name(entry) == "skip_bankroll"@,
            Entry::SkipConcurrentCap { .. } => kind_name(entry) == "skip_concurrent_cap"@,
            Entry::Mint { .. } => kind_name(entry) == "mint"@,
            Entry::DumpSkipped { .. } => kind_name(entry) == "dump_skipped"@,
            Entry::Dump { .. } => kind_name(entry) == "dump"@,
            Entry::CycleSummary { .. } => kind_name(entry) == "cycle_summary"@,
            Entry::ResolutionSettled { .. } => kind_name(entry) == "resolution_settled"@,
        },
        reason_name(SkipReason::EmptyBook) == "empty_book"@,
        reason_name(SkipReason::AllBidsBelowFloor) == "all_bids_below_floor"@,
{
}

/// The digits are those from 0 to 9, and each counts itself.
pub proof fn law_digits(c: char)
    ensures
        is_digit(c) <==> 48 <= c as int <= 57,
        is_digit(c) ==> digit(c) == c as int - 48,
        is_digit(c) ==> digit_of(digit(c)) == c,
{
}

/// A point and an exponent work together: each digit behind the point takes one of the
/// tens that the exponent gives.
pub proof fn law_points_and_exponents(w: Seq<char>, f: Seq<char>, k: nat, mark: char)
    requires
        all_digits(w),
        all_digits(f),
        w.len() + f.len() > 0,
        mark == 'e' || mark == 'E',
    ensures
        reading(w + seq!['.'] + f + seq![mark] + decimal(k)) matches Some(r) && !r.negative
            && r.amount == saturate(
            if k >= f.len() {
                digits_value(w + f) * pow10((k - f.len()) as nat) * ONE
            } else {
                digits_value(w + f) * ONE / pow10((f.len() - k) as nat)
            },
        ) && (r.exact <==> f.len() <= k + 9 || digits_value(w + f) % pow10(
            (f.len() - k - 9) as nat,
        ) == 0),
{
    let s = w + seq!['.'] + f + seq![mark] + decimal(k);
    let body = w + seq!['.'] + f;
    lemma_exponent_texts(k);
    assert(s[0] == if w.len() > 0 {
        w[0]
    } else {
        '.'
    });
    lemma_no_sign_no_word(s);
    let m = body.len() as int;
    assert forall|j: int| 0 <= j < m implies s[j] != 'e' && s[j] != 'E' by {
        if j < w.len() {
            assert(s[j] == w[j]);
            assert(is_digit(w[j]));
        } else if j > w.len() {
            assert(s[j] == f[j - w.len() - 1]);
            assert(is_digit(f[j - w.len() - 1]));
        }
    }
    assert(s[m] == mark);
    lemma_until(s, 'e', 'E', m);
    assert(s.take(m) =~= body);
    assert(s.skip(m + 1) =~= decimal(k));
    assert forall|j: int| 0 <= j < w.len() implies body[j] != '.' by {
        assert(is_digit(w[j]));
    }
    assert(body[w.len() as int] == '.');
    lemma_until(body, '.', '.', w.len() as int);
    assert(body.take(w.len() as int) =~= w);
    assert(body.skip(w.len() as int + 1) =~= f);
    let digits = w + f;
    assert forall|j: int| 0 <= j < digits.len() implies is_digit(#[trigger] digits[j]) by {
        if j < w.len() {
            assert(is_digit(w[j]));
        } else {
            assert(is_digit(f[j - w.len()]));
        }
    }
    crate::decimal::lemma_digits_bound(digits);
    let e = k - f.len();
    crate::decimal::lemma_shifted_nonnegative(digits, e + PLACES);
    if e >= 0 {
        let v = digits_value(digits);
        let p = pow10(e as nat);
        lemma_pow10_adds(e as nat, 9);
        assert(pow10(9) == ONE) by {
            reveal_with_fuel(pow10, 10);
        }
        assert(v * (p * ONE) == v * p * ONE) by (nonlinear_arith);
    } else {
        lemma_scaled(digits, (-e) as nat);
    }
}

/// Rounding goes to the nearest, and from halfway to the even one.
pub proof fn law_rounds_to_the_nearest(n: int, d: int)
    requires
        n >= 0,
        d > 0,
    ensures
        ({
            let q = rounded(n, d);
            let left = n - q * d;
            &&& -d <= 2 * left <= d
            &&& 2 * left == d || 2 * left == -d ==> q % 2 == 0
        }),
{
    vstd::arithmetic::div_mod::lemma_fundamental_div_mod(n, d);
    vstd::arithmetic::div_mod::lemma_mod_bound(n, d);
    let q = n / d;
    assert(d * q == q * d && (q + 1) * d == q * d + d) by (nonlinear_arith);
}

/// Whether a letter is the given one, in either case.
pub open spec fn is_letter(c: char, small: char, large: char) -> bool {
    c == small || c == large
}

/// The words for infinity are read in any case.
pub proof fn law_reads_infinity(s: Seq<char>)
    requires
        s.len() == 3 || s.len() == 8,
        is_letter(s[0], 'i', 'I') && is_letter(s[1], 'n', 'N') && is_letter(s[2], 'f', 'F'),
        s.len() == 8 ==> is_letter(s[3], 'i', 'I') && is_letter(s[4], 'n', 'N') && is_letter(
            s[5],
            'i',
            'I',
        ) && is_letter(s[6], 't', 'T') && is_letter(s[7], 'y', 'Y'),
    ensures
        reading(s) == Some(
            Reading { negative: false, amount: i64::MAX, exact: false, infinite: true },
        ),
{
    assert(split_sign(s) == (false, s));
    let short = seq!['i', 'n', 'f'];
    let long = seq!['i', 'n', 'f', 'i', 'n', 'i', 't', 'y'];
    if s.len() == 3 {
        assert forall|i: int| 0 <= i < 3 implies crate::decimal::lowered(#[trigger] s[i])
            == short[i] by {
            assert(i == 0 || i == 1 || i == 2);
        }
        assert(crate::decimal::is_word(s, short));
    } else {
        assert forall|i: int| 0 <= i < 8 implies crate::decimal::lowered(#[trigger] s[i])
            == long[i] by {
            assert(i == 0 || i == 1 || i == 2 || i == 3 || i == 4 || i == 5 || i == 6 || i == 7);
        }
        assert(crate::decimal::is_word(s, long));
    }
}

/// Whether a text is digits with at most one point among them, and at least one digit.
pub open spec fn is_plain(s: Seq<char>, w: Seq<char>, f: Seq<char>) -> bool {
    &&& all_digits(w)
    &&& all_digits(f)
    &&& w.len() + f.len() > 0
    &&& s == w + seq!['.'] + f || s == w && f.len() == 0
}

/// Whether a text is digits, with or without a sign before them.
pub open spec fn is_signed(s: Seq<char>) -> bool {
    ||| s.len() > 0 && all_digits(s)
    ||| s.len() > 1 && (s[0] == '+' || s[0] == '-') && all_digits(s.skip(1))
}

/// Whether a text is a number with an exponent.
pub open spec fn has_exponent(s: Seq<char>, m: Seq<char>, c: char, x: Seq<char>) -> bool {
    s == m + seq![c] + x && (c == 'e' || c == 'E') && is_signed(x)
}

/// Whether a text without a sign is a number: digits with at most one point, and behind an
/// `e` in either case a whole number with or without a sign.
pub open spec fn is_number(s: Seq<char>) -> bool {
    ||| exists|w: Seq<char>, f: Seq<char>| #[trigger] is_plain(s, w, f)
    ||| exists|m: Seq<char>, c: char, x: Seq<char>, w: Seq<char>, f: Seq<char>|
        #[trigger] has_exponent(s, m, c, x) && #[trigger] is_plain(m, w, f)
}

proof fn lemma_until_at(s: Seq<char>, a: char, b: char)
    ensures
        until(s, a, b) <= s.len(),
        until(s, a, b) < s.len() ==> s[until(s, a, b) as int] == a || s[until(s, a, b) as int] == b,
    decreases s.len(),
{
    if s.len() > 0 {
        lemma_until_at(s.drop_first(), a, b);
    }
}

/// What is read of a mantissa.
proof fn lemma_plain(m: Seq<char>)
    ensures
        ({
            let point = until(m, '.', '.') as int;
            let whole = m.take(point);
            let fraction = if point < m.len() {
                m.skip(point + 1)
            } else {
                Seq::empty()
            };
            let digits = whole + fraction;
            digits.len() > 0 && all_digits(digits) ==> is_plain(m, whole, fraction)
        }),
{
    lemma_until_at(m, '.', '.');
    let point = until(m, '.', '.') as int;
    let whole = m.take(point);
    let fraction = if point < m.len() {
        m.skip(point + 1)
    } else {
        Seq::empty()
    };
    let digits = whole + fraction;
    if digits.len() > 0 && all_digits(digits) {
        assert forall|i: int| 0 <= i < whole.len() implies is_digit(#[trigger] whole[i]) by {
            assert(is_digit(digits[i]));
        }
        assert forall|i: int| 0 <= i < fraction.len() implies is_digit(#[trigger] fraction[i]) by {
            assert(is_digit(digits[whole.len() + i]));
        }
        if point < m.len() {
            assert(m =~= whole + seq!['.'] + fraction);
        } else {
            assert(m =~= whole);
        }
    }
}

/// Digits with at most one point have a mantissa that is read.
proof fn lemma_plain_reads(m: Seq<char>, w: Seq<char>, f: Seq<char>)
    requires
        is_plain(m, w, f),
    ensures
        ({
            let point = until(m, '.', '.') as int;
            let fraction = if point < m.len() {
                m.skip(point + 1)
            } else {
                Seq::empty()
            };
            let digits = m.take(point) + fraction;
            digits.len() > 0 && all_digits(digits)
        }),
        forall|i: int| 0 <= i < m.len() ==> (#[trigger] m[i]) != 'e' && m[i] != 'E',
        m.len() > 0 && (is_digit(m[0]) || m[0] == '.'),
{
    assert forall|i: int| 0 <= i < w.len() implies m[i] != '.' by {
        assert(is_digit(w[i]));
        assert(m[i] == w[i]);
    }
    assert forall|i: int| 0 <= i < m.len() implies (#[trigger] m[i]) != 'e' && m[i] != 'E' by {
        if i < w.len() {
            assert(is_digit(w[i]));
            assert(m[i] == w[i]);
        } else if i > w.len() {
            assert(m[i] == f[i - w.len() - 1]);
            assert(is_digit(f[i - w.len() - 1]));
        }
    }
    if m == w + seq!['.'] + f {
        assert(m[w.len() as int] == '.');
        lemma_until(m, '.', '.', w.len() as int);
        assert(m.take(w.len() as int) =~= w);
        assert(m.skip(w.len() as int + 1) =~= f);
        let digits = w + f;
        assert forall|i: int| 0 <= i < digits.len() implies is_digit(#[trigger] digits[i]) by {
            if i < w.len() {
                assert(is_digit(w[i]));
            } else {
                assert(is_digit(f[i - w.len()]));
            }
        }
    } else {
        lemma_until(m, '.', '.', w.len() as int);
        assert(m.take(w.len() as int) =~= w);
        assert(w + Seq::<char>::empty() =~= w);
    }
    if w.len() > 0 {
        assert(is_digit(w[0]));
        assert(m[0] == w[0]);
    }
}

proof fn lemma_signed(x: Seq<char>)
    ensures
        signed_integer(x) is Some <==> is_signed(x),
{
    if x.len() > 0 && (x[0] == '-' || x[0] == '+') {
        if all_digits(x) {
            assert(is_digit(x[0]));
        }
    }
}

/// What is a number and what is not: a text without a sign is read exactly where it is a
/// word for infinity, or digits with at most one point, and behind an `e` a whole number.
pub proof fn law_what_is_a_number(s: Seq<char>)
    requires
        s.len() == 0 || s[0] != '+' && s[0] != '-',
    ensures
        reading(s) is Some <==> crate::decimal::is_infinity(s) || is_number(s),
{
    assert(split_sign(s) == (false, s));
    let mark = until(s, 'e', 'E') as int;
    let m = s.take(mark);
    lemma_until_at(s, 'e', 'E');
    if numeral(s) is Some {
        lemma_plain(m);
        let point = until(m, '.', '.') as int;
        let fraction = if point < m.len() {
            m.skip(point + 1)
        } else {
            Seq::empty()
        };
        if mark < s.len() {
            let x = s.skip(mark + 1);
            lemma_signed(x);
            assert(s =~= m + seq![s[mark]] + x);
            assert(has_exponent(s, m, s[mark], x) && is_plain(m, m.take(point), fraction));
        } else {
            assert(m =~= s);
            assert(is_plain(s, m.take(point), fraction));
        }
    }
    if is_number(s) {
        if exists|w: Seq<char>, f: Seq<char>| #[trigger] is_plain(s, w, f) {
            let (w, f) = choose|w: Seq<char>, f: Seq<char>| #[trigger] is_plain(s, w, f);
            lemma_plain_reads(s, w, f);
            lemma_until(s, 'e', 'E', s.len() as int);
            assert(m =~= s);
        } else {
            let (p, c, x, w, f) = choose|
                p: Seq<char>,
                c: char,
                x: Seq<char>,
                w: Seq<char>,
                f: Seq<char>,
            |
                #[trigger] has_exponent(s, p, c, x) && #[trigger] is_plain(p, w, f);
            lemma_plain_reads(p, w, f);
            assert forall|j: int| 0 <= j < p.len() implies s[j] != 'e' && s[j] != 'E' by {
                assert(s[j] == p[j]);
            }
            assert(s[p.len() as int] == c);
            lemma_until(s, 'e', 'E', p.len() as int);
            assert(m =~= p);
            assert(s.skip(mark + 1) =~= x);
            lemma_signed(x);
        }
    }
}

/// A number is infinite from halfway between the largest finite one in double precision,
/// 2^1024 - 2^971, and 2^1024.
pub proof fn law_where_infinity_starts()
    ensures
        float_end() == pow2(1024) - pow2(970),
        2 * float_end() == (pow2(1024) - pow2(971)) + pow2(1024),
{
    vstd::arithmetic::power2::lemma_pow2_adds(970, 54);
    vstd::arithmetic::power2::lemma_pow2_adds(970, 1);
    vstd::arithmetic::power2::lemma2_to64();
    vstd::arithmetic::power2::lemma2_to64_rest();
    let p = pow2(970) as int;
    assert(pow2(54) == 0x40_0000_0000_0000);
    assert(p * 0x40_0000_0000_0000 == 0x3f_ffff_ffff_ffff * p + p) by (nonlinear_arith);
}

} // verus!
