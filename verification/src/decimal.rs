//! Reading amounts from decimal notation.
//!
//! The notation is an optional sign, digits with an optional point, and an
//! optional exponent after `e` or `E`; `inf` and `infinity` are read too, in any
//! case. Everything else, `nan` too, is no amount. A number is infinite from where
//! rounding to double precision makes it so.

use crate::amount::{Amount, narrow, saturate};
use crate::text::{
    all_digits, chars_of, digit, digit_char, digit_for, digit_of, digits_value, find_either,
    is_digit, lemma_until, until,
};
use vstd::arithmetic::power2::pow2;
use vstd::prelude::*;

verus! {

/// How many decimal places an amount has.
pub const PLACES: i128 = 9;

/// Past this magnitude every amount saturates.
const CEILING: u128 = 0x1_0000_0000_0000_0000;

/// Past this magnitude an exponent no longer changes what is read.
const EXPONENT_LIMIT: i128 = 1_000_000_000_000_000_000_000_000_000_000;

/// A decimal number: the digits, times ten to the exponent.
pub ghost struct Numeral {
    pub digits: Seq<char>,
    pub exponent: int,
}

/// What a text says, as an amount.
#[derive(Debug, Clone, Copy, PartialEq, Eq, Structural)]
pub struct Reading {
    /// Whether the text starts with a minus sign.
    pub negative: bool,
    /// The number, cut off below the last place of an amount, and saturated.
    pub amount: Amount,
    /// Whether nothing was cut off below the last place.
    pub exact: bool,
    /// Whether the text writes an infinite number, or one so large that a
    /// double-precision number for it is infinite.
    pub infinite: bool,
}

/// Ten to the power `n`.
pub open spec fn pow10(n: nat) -> int
    decreases n,
{
    if n == 0 {
        1
    } else {
        10 * pow10((n - 1) as nat)
    }
}

/// Splits off a leading sign: whether it is a minus, and what follows it.
pub open spec fn split_sign(s: Seq<char>) -> (bool, Seq<char>) {
    if s.len() > 0 && (s[0] == '-' || s[0] == '+') {
        (s[0] == '-', s.skip(1))
    } else {
        (false, s)
    }
}

/// The integer that an optional sign and at least one digit write.
pub open spec fn signed_integer(s: Seq<char>) -> Option<int> {
    let (negative, digits) = split_sign(s);
    if digits.len() > 0 && all_digits(digits) {
        Some(
            if negative {
                -digits_value(digits)
            } else {
                digits_value(digits)
            },
        )
    } else {
        None
    }
}

/// The decimal number that a text without a sign writes, if it writes one.
pub open spec fn numeral(body: Seq<char>) -> Option<Numeral> {
    let mark = until(body, 'e', 'E') as int;
    let mantissa = body.take(mark);
    let point = until(mantissa, '.', '.') as int;
    let whole = mantissa.take(point);
    let fraction = if point < mantissa.len() {
        mantissa.skip(point + 1)
    } else {
        Seq::empty()
    };
    let digits = whole + fraction;
    let exponent = if mark < body.len() {
        signed_integer(body.skip(mark + 1))
    } else {
        Some(0)
    };
    if digits.len() > 0 && all_digits(digits) && exponent is Some {
        Some(Numeral { digits, exponent: exponent->0 - fraction.len() })
    } else {
        None
    }
}

/// The lower-case form of an ASCII letter; other characters stay as they are.
pub open spec fn lowered(c: char) -> char {
    if 'A' <= c && c <= 'Z' {
        (c as u32 + 32) as char
    } else {
        c
    }
}

/// Whether the text is `word` in any case.
pub open spec fn is_word(s: Seq<char>, word: Seq<char>) -> bool {
    s.len() == word.len() && forall|i: int| 0 <= i < s.len() ==> lowered(#[trigger] s[i]) == word[i]
}

/// Whether the text writes an infinite number, without its sign.
pub open spec fn is_infinity(s: Seq<char>) -> bool {
    is_word(s, seq!['i', 'n', 'f']) || is_word(s, seq!['i', 'n', 'f', 'i', 'n', 'i', 't', 'y'])
}

/// The digits times ten to the power `shift`, cut off to an integer.
pub open spec fn shifted(digits: Seq<char>, shift: int) -> int {
    if shift >= 0 {
        digits_value(digits) * pow10(shift as nat)
    } else {
        digits_value(digits) / pow10((-shift) as nat)
    }
}

/// Whether the digits times ten to the power `shift` are an integer.
pub open spec fn shifts_exactly(digits: Seq<char>, shift: int) -> bool {
    shift >= 0 || digits_value(digits) % pow10((-shift) as nat) == 0
}

/// The least number that rounds to infinity in double precision: halfway between
/// the largest finite one, 2^1024 - 2^971, and 2^1024.
pub open spec fn float_end() -> int {
    0x3f_ffff_ffff_ffff * (pow2(970) as int)
}

/// What [`read_decimal`] returns.
pub open spec fn reading(s: Seq<char>) -> Option<Reading> {
    let (negative, body) = split_sign(s);
    if is_infinity(body) {
        Some(
            Reading {
                negative,
                amount: if negative {
                    i64::MIN
                } else {
                    i64::MAX
                },
                exact: false,
                infinite: true,
            },
        )
    } else {
        match numeral(body) {
            Some(n) => {
                let magnitude = shifted(n.digits, n.exponent + PLACES);
                Some(
                    Reading {
                        negative,
                        amount: saturate(
                            if negative {
                                -magnitude
                            } else {
                                magnitude
                            },
                        ),
                        exact: shifts_exactly(n.digits, n.exponent + PLACES),
                        infinite: shifted(n.digits, n.exponent) >= float_end(),
                    },
                )
            },
            None => None,
        }
    }
}

/// What [`read_amount`] returns.
pub open spec fn amount_of(s: Seq<char>) -> Option<Amount> {
    match reading(s) {
        Some(r) => Some(r.amount),
        None => None,
    }
}

/// `x`, but no more than [`CEILING`].
spec fn capped(x: int) -> int {
    if x < CEILING {
        x
    } else {
        CEILING as int
    }
}

pub proof fn lemma_pow10_positive(n: nat)
    ensures
        pow10(n) >= 1,
    decreases n,
{
    if n > 0 {
        lemma_pow10_positive((n - 1) as nat);
    }
}

/// A number written with `n` digits is below ten to the power `n`.
pub proof fn lemma_digits_bound(s: Seq<char>)
    requires
        all_digits(s),
    ensures
        0 <= digits_value(s) < pow10(s.len()),
    decreases s.len(),
{
    if s.len() > 0 {
        assert(is_digit(s.last()));
        assert(all_digits(s.drop_last())) by {
            assert forall|i: int| 0 <= i < s.drop_last().len() implies is_digit(
                #[trigger] s.drop_last()[i],
            ) by {
                assert(is_digit(s[i]));
            }
        }
        lemma_digits_bound(s.drop_last());
    }
}

/// Dividing by ten to the power `j` drops the last `j` digits.
proof fn lemma_drop_digits(s: Seq<char>, j: int)
    requires
        all_digits(s),
        0 <= j <= s.len(),
    ensures
        digits_value(s) / pow10(j as nat) == digits_value(s.take(s.len() - j)),
        digits_value(s) % pow10(j as nat) == 0 <==> (forall|i: int|
            s.len() - j <= i < s.len() ==> #[trigger] s[i] == '0'),
    decreases j,
{
    lemma_digits_bound(s);
    if j == 0 {
        assert(s.take(s.len() as int) =~= s);
        assert(digits_value(s) / 1 == digits_value(s));
    } else {
        let head = s.drop_last();
        let p = pow10((j - 1) as nat);
        let d = digit(s.last());
        let h = digits_value(head);
        assert(is_digit(s.last()));
        assert(all_digits(head)) by {
            assert forall|i: int| 0 <= i < head.len() implies is_digit(#[trigger] head[i]) by {
                assert(is_digit(s[i]));
            }
        }
        lemma_pow10_positive((j - 1) as nat);
        lemma_drop_digits(head, j - 1);
        assert(head.take(head.len() - (j - 1)) =~= s.take(s.len() - j));
        assert((10 * h + d) / (10 * p) == h / p && ((10 * h + d) % (10 * p) == 0 <==> (h % p == 0
            && d == 0))) by {
            lemma_shift_division(h, d, p);
        }
        assert((forall|i: int| s.len() - j <= i < s.len() ==> #[trigger] s[i] == '0') <==> ((
        forall|i: int| head.len() - (j - 1) <= i < head.len() ==> #[trigger] head[i] == '0')
            && s.last() == '0')) by {
            if forall|i: int| s.len() - j <= i < s.len() ==> #[trigger] s[i] == '0' {
                assert forall|i: int| head.len() - (j - 1) <= i < head.len() implies #[trigger] head[i]
                    == '0' by {
                    assert(s[i] == '0');
                }
            }
            if (forall|i: int| head.len() - (j - 1) <= i < head.len() ==> #[trigger] head[i] == '0')
                && s.last() == '0' {
                assert forall|i: int| s.len() - j <= i < s.len() implies #[trigger] s[i] == '0' by {
                    if i < head.len() {
                        assert(head[i] == '0');
                    }
                }
            }
        }
    }
}

proof fn lemma_shift_division(h: int, d: int, p: int)
    requires
        h >= 0,
        0 <= d <= 9,
        p >= 1,
    ensures
        (10 * h + d) / (10 * p) == h / p,
        (10 * h + d) % (10 * p) == 0 <==> (h % p == 0 && d == 0),
{
    let q = h / p;
    let r = h % p;
    assert(h == p * q + r && 0 <= r < p) by (nonlinear_arith)
        requires
            q == h / p,
            r == h % p,
            p >= 1,
    ;
    assert(10 * h + d == (10 * p) * q + (10 * r + d)) by (nonlinear_arith)
        requires
            h == p * q + r,
    ;
    vstd::arithmetic::div_mod::lemma_fundamental_div_mod_converse(
        10 * h + d,
        10 * p,
        q,
        10 * r + d,
    );
}

/// Ten to a large power times a positive number is past the ceiling.
proof fn lemma_large_shift(x: int, n: nat)
    requires
        x >= 1,
        n >= 20,
    ensures
        x * pow10(n) >= CEILING,
    decreases n,
{
    reveal_with_fuel(pow10, 21);
    if n == 20 {
        assert(x * 100_000_000_000_000_000_000 >= 0x1_0000_0000_0000_0000);
    } else {
        lemma_large_shift(x, (n - 1) as nat);
        let p = pow10((n - 1) as nat);
        assert(x * (10 * p) == 10 * (x * p)) by (nonlinear_arith);
    }
}

/// Whether the character is the given lower-case letter, in any case.
fn same_letter(c: char, letter: char) -> (r: bool)
    requires
        'a' <= letter && letter <= 'z',
    ensures
        r == (lowered(c) == letter),
{
    let code: u32 = c as u32;
    let goal: u32 = letter as u32;
    proof {
        if 'A' <= c && c <= 'Z' {
            assert(lowered(c) as u32 == code + 32);
        }
    }
    code == goal || code + 32 == goal && code >= 65 && code <= 90
}

/// Whether what stands from `from` on is `word` in any case.
fn word_at(v: &Vec<char>, from: usize, word: &[char]) -> (r: bool)
    requires
        from <= v@.len(),
        forall|i: int| 0 <= i < word@.len() ==> 'a' <= #[trigger] word@[i] && word@[i] <= 'z',
    ensures
        r == is_word(v@.skip(from as int), word@),
{
    if v.len() - from != word.len() {
        return false;
    }
    let ghost s = v@.skip(from as int);
    let total: usize = v.len();
    let mut i: usize = 0;
    while i < word.len()
        invariant
            i <= word@.len(),
            total == v@.len(),
            s == v@.skip(from as int),
            s.len() == word@.len(),
            from + word@.len() == v@.len(),
            forall|j: int| 0 <= j < word@.len() ==> 'a' <= #[trigger] word@[j] && word@[j] <= 'z',
            forall|j: int| 0 <= j < i ==> lowered(#[trigger] s[j]) == word@[j],
        decreases word@.len() - i,
    {
        assert(s[i as int] == v@[from + i]);
        if !same_letter(v[from + i], word[i]) {
            return false;
        }
        i = i + 1;
    }
    true
}

/// Whether every character of `v[from..to]` is a digit.
fn digits_between(v: &Vec<char>, from: usize, to: usize) -> (r: bool)
    requires
        from <= to <= v@.len(),
    ensures
        r == all_digits(v@.subrange(from as int, to as int)),
{
    let ghost s = v@.subrange(from as int, to as int);
    let mut i: usize = from;
    while i < to
        invariant
            from <= i <= to <= v@.len(),
            s == v@.subrange(from as int, to as int),
            forall|j: int| 0 <= j < i - from ==> is_digit(#[trigger] s[j]),
        decreases to - i,
    {
        assert(s[i - from] == v@[i as int]);
        if !digit_char(v[i]) {
            return false;
        }
        i = i + 1;
    }
    true
}

/// Past the ceiling it makes no difference where a number was capped before.
proof fn lemma_cap_step(x: int, d: int)
    requires
        x >= 0,
        d >= 0,
    ensures
        capped(10 * capped(x) + d) == capped(10 * x + d),
{
}

/// The value of the first `n` digits, capped.
fn leading_value(digits: &Vec<char>, n: usize) -> (r: u128)
    requires
        n <= digits@.len(),
        all_digits(digits@),
    ensures
        r == capped(digits_value(digits@.take(n as int))),
{
    let mut acc: u128 = 0;
    let mut i: usize = 0;
    while i < n
        invariant
            i <= n <= digits@.len(),
            all_digits(digits@),
            acc == capped(digits_value(digits@.take(i as int))),
        decreases n - i,
    {
        let c: char = digits[i];
        assert(is_digit(digits@[i as int]));
        let d: u128 = (c as u32 - '0' as u32) as u128;
        proof {
            let head = digits@.take(i as int);
            assert(digits@.take(i + 1).drop_last() =~= head);
            assert(all_digits(head)) by {
                assert forall|k: int| 0 <= k < head.len() implies is_digit(#[trigger] head[k]) by {
                    assert(is_digit(digits@[k]));
                }
            }
            lemma_digits_bound(head);
            lemma_cap_step(digits_value(head), d as int);
        }
        acc = 10 * acc + d;
        if acc > CEILING {
            acc = CEILING;
        }
        i = i + 1;
    }
    acc
}

/// Whether the digits from `from` on are all zero.
fn only_zeros(digits: &Vec<char>, from: usize) -> (r: bool)
    requires
        from <= digits@.len(),
    ensures
        r == (forall|i: int| from <= i < digits@.len() ==> #[trigger] digits@[i] == '0'),
{
    let mut i: usize = from;
    while i < digits.len()
        invariant
            from <= i <= digits@.len(),
            forall|j: int| from <= j < i ==> #[trigger] digits@[j] == '0',
        decreases digits@.len() - i,
    {
        if digits[i] != '0' {
            return false;
        }
        i = i + 1;
    }
    true
}

/// A number of which every digit is zero is zero, and no other is.
proof fn lemma_zero_digits(s: Seq<char>)
    requires
        all_digits(s),
    ensures
        digits_value(s) == 0 <==> (forall|i: int| 0 <= i < s.len() ==> #[trigger] s[i] == '0'),
    decreases s.len(),
{
    lemma_digits_bound(s);
    lemma_drop_digits(s, s.len() as int);
    assert(digits_value(s) % pow10(s.len()) == digits_value(s)) by {
        vstd::arithmetic::div_mod::lemma_small_mod(digits_value(s) as nat, pow10(s.len()) as nat);
    }
}

/// A shift that drops all digits leaves nothing.
proof fn lemma_small_shift(s: Seq<char>, j: nat)
    requires
        all_digits(s),
        j >= s.len(),
    ensures
        digits_value(s) / pow10(j) == 0,
        digits_value(s) % pow10(j) == digits_value(s),
{
    lemma_digits_bound(s);
    lemma_pow10_positive(j);
    lemma_pow10_grows(s.len(), j);
    vstd::arithmetic::div_mod::lemma_small_mod(digits_value(s) as nat, pow10(j) as nat);
    vstd::arithmetic::div_mod::lemma_basic_div(digits_value(s), pow10(j));
}

proof fn lemma_pow10_grows(m: nat, n: nat)
    requires
        m <= n,
    ensures
        pow10(m) <= pow10(n),
    decreases n,
{
    if m < n {
        lemma_pow10_positive((n - 1) as nat);
        lemma_pow10_grows(m, (n - 1) as nat);
    }
}

/// The digits times ten to the power `shift`, capped, and whether nothing was
/// cut off.
fn shift_digits(digits: &Vec<char>, shift: i128) -> (r: (u128, bool))
    requires
        all_digits(digits@),
        -0x4000_0000_0000_0000_0000_0000_0000_0000 < shift,
        shift < 0x4000_0000_0000_0000_0000_0000_0000_0000,
    ensures
        r.0 == capped(shifted(digits@, shift as int)),
        r.1 == shifts_exactly(digits@, shift as int),
{
    let n: usize = digits.len();
    proof {
        lemma_digits_bound(digits@);
        assert(digits@.take(n as int) =~= digits@);
    }
    if shift < 0 {
        let dropped: i128 = -shift;
        if dropped >= n as i128 {
            let zero: bool = only_zeros(digits, 0);
            proof {
                lemma_small_shift(digits@, dropped as nat);
                lemma_zero_digits(digits@);
            }
            return (0, zero);
        }
        let kept: usize = n - dropped as usize;
        proof {
            lemma_drop_digits(digits@, dropped as int);
        }
        return (leading_value(digits, kept), only_zeros(digits, kept));
    }
    let mut acc: u128 = leading_value(digits, n);
    let ghost value = digits_value(digits@);
    let mut k: i128 = 0;
    while k < shift && acc != 0 && acc != CEILING
        invariant
            0 <= k <= shift,
            value >= 0,
            acc == capped(value * pow10(k as nat)),
            acc == 0 ==> value == 0,
        decreases shift - k,
    {
        proof {
            lemma_pow10_positive(k as nat);
            let p = pow10(k as nat);
            assert(value * (10 * p) == 10 * (value * p)) by (nonlinear_arith);
            assert(value * p >= 0) by (nonlinear_arith)
                requires
                    value >= 0,
                    p >= 1,
            ;
            lemma_cap_step(value * p, 0);
        }
        acc = 10 * acc;
        if acc > CEILING {
            acc = CEILING;
        }
        k = k + 1;
    }
    proof {
        if k < shift {
            lemma_pow10_grows(k as nat, shift as nat);
            let p = pow10(k as nat);
            let q = pow10(shift as nat);
            if acc == 0 {
                assert(0 * q == 0);
            } else {
                assert(value * p <= value * q) by (nonlinear_arith)
                    requires
                        value >= 0,
                        p <= q,
                ;
            }
        }
    }
    (acc, true)
}

/// The integer that `v[from..]` writes, brought to at most [`EXPONENT_LIMIT`]
/// in magnitude.
fn read_exponent(v: &Vec<char>, from: usize) -> (r: Option<i128>)
    requires
        from <= v@.len(),
    ensures
        r is Some <==> signed_integer(v@.skip(from as int)) is Some,
        r matches Some(e) ==> {
            let x = signed_integer(v@.skip(from as int))->0;
            &&& -EXPONENT_LIMIT <= e <= EXPONENT_LIMIT
            &&& -EXPONENT_LIMIT < x < EXPONENT_LIMIT ==> e == x
            &&& x >= EXPONENT_LIMIT ==> e == EXPONENT_LIMIT
            &&& x <= -EXPONENT_LIMIT ==> e == -EXPONENT_LIMIT
        },
{
    let ghost s = v@.skip(from as int);
    let mut start: usize = from;
    let mut negative: bool = false;
    if from < v.len() {
        assert(s[0] == v@[from as int]);
        if v[from] == '-' || v[from] == '+' {
            negative = v[from] == '-';
            start = from + 1;
        }
    }
    let n: usize = v.len();
    let ghost digits = split_sign(s).1;
    assert(digits =~= v@.subrange(start as int, n as int));
    if start == n || !digits_between(v, start, n) {
        return None;
    }
    let mut acc: i128 = 0;
    let mut i: usize = start;
    while i < n
        invariant
            start <= i <= n,
            n == v@.len(),
            digits == v@.subrange(start as int, n as int),
            all_digits(digits),
            0 <= acc <= EXPONENT_LIMIT,
            ({
                let x = digits_value(digits.take(i - start));
                x < EXPONENT_LIMIT && acc == x || x >= EXPONENT_LIMIT && acc == EXPONENT_LIMIT
            }),
        decreases n - i,
    {
        let c: char = v[i];
        assert(digits[i - start] == c);
        assert(is_digit(c));
        proof {
            assert(digits.take(i + 1 - start).drop_last() =~= digits.take(i - start));
        }
        acc = 10 * acc + (c as u32 - '0' as u32) as i128;
        if acc > EXPONENT_LIMIT {
            acc = EXPONENT_LIMIT;
        }
        i = i + 1;
    }
    assert(digits.take(n - start) =~= digits);
    if negative {
        Some(-acc)
    } else {
        Some(acc)
    }
}

/// Reading past the limits of an exponent changes nothing.
proof fn lemma_exponent_limit(digits: Seq<char>, x: int, e: int, places: int)
    requires
        all_digits(digits),
        digits.len() <= u64::MAX,
        0 <= places <= u64::MAX,
        -EXPONENT_LIMIT <= e <= EXPONENT_LIMIT,
        -EXPONENT_LIMIT < x < EXPONENT_LIMIT ==> e == x,
        x >= EXPONENT_LIMIT ==> e == EXPONENT_LIMIT,
        x <= -EXPONENT_LIMIT ==> e == -EXPONENT_LIMIT,
    ensures
        capped(shifted(digits, e - places + PLACES)) == capped(shifted(digits, x - places + PLACES)),
        shifts_exactly(digits, e - places + PLACES) == shifts_exactly(
            digits,
            x - places + PLACES,
        ),
        shifted(digits, e - places) >= float_end() <==> shifted(digits, x - places)
            >= float_end(),
{
    lemma_digits_bound(digits);
    lemma_float_end();
    let a = e - places + PLACES;
    let b = x - places + PLACES;
    if x >= EXPONENT_LIMIT {
        if digits_value(digits) == 0 {
            assert(0 * pow10(a as nat) == 0 * pow10(b as nat));
            assert(0 * pow10((e - places) as nat) == 0 * pow10((x - places) as nat));
        } else {
            lemma_overflow(digits_value(digits), (e - places) as nat);
            lemma_overflow(digits_value(digits), (x - places) as nat);
            lemma_large_shift(digits_value(digits), a as nat);
            lemma_large_shift(digits_value(digits), b as nat);
        }
    } else if x <= -EXPONENT_LIMIT {
        lemma_small_shift(digits, (-a) as nat);
        lemma_small_shift(digits, (-b) as nat);
        lemma_small_shift(digits, (places - e) as nat);
        lemma_small_shift(digits, (places - x) as nat);
    }
}

/// Where double precision ends lies past the ceiling, and not past 2^1024.
proof fn lemma_float_end()
    ensures
        CEILING < float_end() <= pow2(1024),
{
    vstd::arithmetic::power2::lemma2_to64();
    vstd::arithmetic::power2::lemma2_to64_rest();
    vstd::arithmetic::power2::lemma_pow2_adds(54, 970);
    vstd::arithmetic::power2::lemma_pow2_adds(64, 906);
    vstd::arithmetic::power2::lemma_pow2_pos(906);
    let p = pow2(970) as int;
    let q = pow2(906) as int;
    assert(p >= 0x1_0000_0000_0000_0000) by (nonlinear_arith)
        requires
            p == 0x1_0000_0000_0000_0000 * q,
            q >= 1,
    ;
}

/// Ten to the power `n` is at least eight to it.
proof fn lemma_pow10_pow2(n: nat)
    ensures
        pow10(n) >= pow2(3 * n),
    decreases n,
{
    vstd::arithmetic::power2::lemma2_to64();
    if n > 0 {
        lemma_pow10_pow2((n - 1) as nat);
        vstd::arithmetic::power2::lemma_pow2_adds(3, (3 * (n - 1)) as nat);
    }
}

/// Ten to a large power times a positive number is infinite.
proof fn lemma_overflow(x: int, n: nat)
    requires
        x >= 1,
        n >= 342,
    ensures
        x * pow10(n) >= float_end(),
{
    lemma_float_end();
    lemma_pow10_pow2(342);
    lemma_pow10_grows(342, n);
    vstd::arithmetic::power2::lemma_pow2_strictly_increases(1024, 1026);
    let p = pow10(n);
    assert(x * p >= p) by (nonlinear_arith)
        requires
            x >= 1,
            p >= 0,
    ;
}

/// A larger exponent never makes a number smaller.
proof fn lemma_shift_grows(digits: Seq<char>, e: int)
    requires
        all_digits(digits),
    ensures
        shifted(digits, e) <= shifted(digits, e + PLACES),
{
    lemma_digits_bound(digits);
    let v = digits_value(digits);
    if e >= 0 {
        let p = pow10(e as nat);
        let q = pow10((e + PLACES) as nat);
        lemma_pow10_grows(e as nat, (e + PLACES) as nat);
        assert(v * p <= v * q) by (nonlinear_arith)
            requires
                v >= 0,
                p <= q,
        ;
    } else {
        let p = pow10((-e) as nat);
        lemma_pow10_positive((-e) as nat);
        if e + PLACES < 0 {
            let q = pow10((-e - PLACES) as nat);
            lemma_pow10_positive((-e - PLACES) as nat);
            lemma_pow10_grows((-e - PLACES) as nat, (-e) as nat);
            vstd::arithmetic::div_mod::lemma_div_is_ordered_by_denominator(v, q, p);
        } else {
            let q = pow10((e + PLACES) as nat);
            lemma_pow10_positive((e + PLACES) as nat);
            assert(v / p <= v && v <= v * q) by (nonlinear_arith)
                requires
                    v >= 0,
                    p >= 1,
                    q >= 1,
            ;
        }
    }
}

/// Halves a number that is written in digits, and cuts off.
fn halve(digits: &mut Vec<char>)
    requires
        all_digits(old(digits)@),
    ensures
        all_digits(final(digits)@),
        final(digits)@.len() == old(digits)@.len(),
        digits_value(final(digits)@) == digits_value(old(digits)@) / 2,
{
    let ghost before = digits@;
    let n: usize = digits.len();
    let mut carry: u8 = 0;
    let mut i: usize = 0;
    while i < n
        invariant
            i <= n == digits@.len() == before.len(),
            carry <= 1,
            all_digits(before),
            all_digits(digits@),
            forall|j: int| i <= j < n ==> digits@[j] == before[j],
            2 * digits_value(digits@.take(i as int)) + carry == digits_value(
                before.take(i as int),
            ),
        decreases n - i,
    {
        let c: char = digits[i];
        assert(is_digit(before[i as int]));
        let d: u8 = 10 * carry + (c as u32 - '0' as u32) as u8;
        let ghost shorter = digits@.take(i as int);
        digits.set(i, digit_for(d / 2));
        carry = d % 2;
        proof {
            assert(before.take(i + 1).drop_last() =~= before.take(i as int));
            assert(digits@.take(i + 1).drop_last() =~= shorter);
            assert(is_digit(digit_of(d as int / 2)));
            assert(digit(digit_of(d as int / 2)) == d as int / 2);
        }
        i = i + 1;
    }
    assert(digits@.take(n as int) =~= digits@);
    assert(before.take(n as int) =~= before);
}

/// The integer part of the digits times ten to the power `exponent`, in digits.
fn whole_digits(digits: &Vec<char>, exponent: i128) -> (r: Vec<char>)
    requires
        all_digits(digits@),
        exponent < 342,
        -0x4000_0000_0000_0000_0000_0000_0000_0000 < exponent,
    ensures
        all_digits(r@),
        digits_value(r@) == shifted(digits@, exponent as int),
{
    let n: usize = digits.len();
    let mut r: Vec<char> = Vec::new();
    let kept: usize = if exponent >= 0 {
        n
    } else if -exponent < n as i128 {
        n - (-exponent) as usize
    } else {
        0
    };
    let mut i: usize = 0;
    while i < kept
        invariant
            i <= kept <= digits@.len(),
            all_digits(digits@),
            r@ == digits@.take(i as int),
        decreases kept - i,
    {
        r.push(digits[i]);
        i = i + 1;
        assert(digits@.take(i as int) =~= digits@.take(i - 1).push(digits@[i - 1]));
    }
    proof {
        assert forall|j: int| 0 <= j < r@.len() implies is_digit(#[trigger] r@[j]) by {
            assert(is_digit(digits@[j]));
        }
        if exponent < 0 {
            if -exponent < n {
                lemma_drop_digits(digits@, -exponent as int);
            } else {
                lemma_small_shift(digits@, (-exponent) as nat);
                assert(r@ =~= Seq::empty());
            }
        } else {
            assert(r@ =~= digits@);
        }
    }
    let ghost value = digits_value(digits@);
    let mut k: i128 = 0;
    while k < exponent
        invariant
            0 <= k,
            exponent >= 0 ==> k <= exponent,
            all_digits(r@),
            exponent >= 0 ==> digits_value(r@) == value * pow10(k as nat),
            exponent < 0 ==> k == 0 && digits_value(r@) == shifted(digits@, exponent as int),
        decreases exponent - k,
    {
        let ghost shorter = r@;
        r.push('0');
        k = k + 1;
        proof {
            assert(r@.drop_last() =~= shorter);
            let p = pow10((k - 1) as nat);
            assert(value * (10 * p) == 10 * (value * p)) by (nonlinear_arith);
        }
    }
    r
}

/// Halving `k` times and once more.
proof fn lemma_halved(x: int, k: nat)
    requires
        x >= 0,
    ensures
        x / (pow2(k) as int) / 2 == x / (pow2(k + 1) as int),
{
    vstd::arithmetic::power2::lemma_pow2_pos(k);
    vstd::arithmetic::power2::lemma_pow2_unfold(k + 1);
    vstd::arithmetic::div_mod::lemma_div_denominator(x, pow2(k) as int, 2);
    assert(pow2(k) * 2 == 2 * pow2(k));
}

/// Whether the digits times ten to the power `exponent` round to infinity in double
/// precision.
fn rounds_to_infinity(digits: &Vec<char>, exponent: i128) -> (r: bool)
    requires
        all_digits(digits@),
        -0x4000_0000_0000_0000_0000_0000_0000_0000 < exponent,
    ensures
        r == (shifted(digits@, exponent as int) >= float_end()),
{
    let ghost value = shifted(digits@, exponent as int);
    proof {
        lemma_float_end();
        lemma_shifted_nonnegative(digits@, exponent as int);
        lemma_digits_bound(digits@);
    }
    if exponent >= 342 {
        let zero: bool = only_zeros(digits, 0);
        proof {
            lemma_zero_digits(digits@);
            if zero {
                assert(0 * pow10(exponent as nat) == 0);
            } else {
                lemma_overflow(digits_value(digits@), exponent as nat);
            }
        }
        return !zero;
    }
    let mut whole: Vec<char> = whole_digits(digits, exponent);
    let mut k: u64 = 0;
    proof {
        vstd::arithmetic::power2::lemma2_to64();
        assert(value / 1 == value);
    }
    while k < 970
        invariant
            k <= 970,
            value >= 0,
            all_digits(whole@),
            digits_value(whole@) == value / (pow2(k as nat) as int),
        decreases 970 - k,
    {
        proof {
            lemma_halved(value, k as nat);
        }
        halve(&mut whole);
        k = k + 1;
    }
    proof {
        let p = pow2(970) as int;
        vstd::arithmetic::power2::lemma_pow2_pos(970);
        assert(whole@.take(whole@.len() as int) =~= whole@);
        assert(value / p >= 0x3f_ffff_ffff_ffff <==> value >= 0x3f_ffff_ffff_ffff * p) by (
        nonlinear_arith)
            requires
                p >= 1,
                value >= 0,
        ;
    }
    let n: usize = whole.len();
    leading_value(&whole, n) >= 0x3f_ffff_ffff_ffff
}

/// The characters of `v[from..point]` and of `v[point + 1..to]`, in order.
fn joined_digits(v: &Vec<char>, from: usize, point: usize, to: usize) -> (r: Vec<char>)
    requires
        from <= point <= to <= v@.len(),
    ensures
        r@ == v@.subrange(from as int, point as int) + (if point < to {
            v@.subrange(point + 1, to as int)
        } else {
            Seq::empty()
        }),
{
    let mut r: Vec<char> = Vec::new();
    let mut i: usize = from;
    while i < point
        invariant
            from <= i <= point <= to <= v@.len(),
            r@ == v@.subrange(from as int, i as int),
        decreases point - i,
    {
        r.push(v[i]);
        i = i + 1;
        assert(v@.subrange(from as int, i as int) =~= v@.subrange(from as int, i - 1).push(
            v@[i - 1],
        ));
    }
    if point < to {
        i = point + 1;
        let ghost whole = r@;
        while i < to
            invariant
                point < i <= to <= v@.len(),
                r@ == whole + v@.subrange(point + 1, i as int),
            decreases to - i,
        {
            r.push(v[i]);
            i = i + 1;
            assert(v@.subrange(point + 1, i as int) =~= v@.subrange(point + 1, i - 1).push(
                v@[i - 1],
            ));
        }
    }
    r
}

/// The digits of the number that `v[start..]` writes, and by how many places
/// they are to be shifted to count the last places of an amount.
fn read_numeral(v: &Vec<char>, start: usize) -> (r: Option<(Vec<char>, i128)>)
    requires
        start <= v@.len(),
    ensures
        r is Some <==> numeral(v@.skip(start as int)) is Some,
        r matches Some((digits, shift)) ==> {
            let n = numeral(v@.skip(start as int))->0;
            &&& digits@ == n.digits
            &&& all_digits(n.digits)
            &&& -2 * EXPONENT_LIMIT < shift < 2 * EXPONENT_LIMIT
            &&& capped(shifted(n.digits, shift as int)) == capped(
                shifted(n.digits, n.exponent + PLACES),
            )
            &&& shifts_exactly(n.digits, shift as int) == shifts_exactly(
                n.digits,
                n.exponent + PLACES,
            )
            &&& shifted(n.digits, shift - PLACES) >= float_end() <==> shifted(
                n.digits,
                n.exponent,
            ) >= float_end()
        },
{
    let ghost body = v@.skip(start as int);
    let mark: usize = find_either(v, start, 'e', 'E');
    let mut point: usize = find_either(v, start, '.', '.');
    if point > mark {
        point = mark;
    }
    let ghost mantissa = body.take(mark - start);
    proof {
        assert forall|j: int| 0 <= j < point - start implies mantissa[j] != '.' by {
            assert(mantissa[j] == v@[start + j]);
        }
        lemma_until(mantissa, '.', '.', point - start);
        assert(mantissa.take(point - start) =~= v@.subrange(start as int, point as int));
        if point < mark {
            assert(mantissa.skip(point - start + 1) =~= v@.subrange(point + 1, mark as int));
        }
    }
    let digits: Vec<char> = joined_digits(v, start, point, mark);
    let count: usize = digits.len();
    assert(digits@.subrange(0, count as int) =~= digits@);
    if count == 0 || !digits_between(&digits, 0, count) {
        return None;
    }
    let places: usize = if point < mark {
        mark - point - 1
    } else {
        0
    };
    let mut exponent: i128 = 0;
    if mark < v.len() {
        assert(body.skip(mark - start + 1) =~= v@.skip(mark + 1));
        match read_exponent(v, mark + 1) {
            Some(e) => {
                exponent = e;
            },
            None => {
                return None;
            },
        }
    }
    proof {
        let x = if mark < v@.len() {
            signed_integer(body.skip(mark - start + 1))->0
        } else {
            0
        };
        lemma_exponent_limit(digits@, x, exponent as int, places as int);
    }
    Some((digits, exponent - places as i128 + PLACES))
}

/// Reads a number in decimal notation.
pub fn read_decimal(text: &str) -> (r: Option<Reading>)
    ensures
        r == reading(text@),
{
    let v: Vec<char> = chars_of(text);
    let mut start: usize = 0;
    let mut negative: bool = false;
    if v.len() > 0 && (v[0] == '-' || v[0] == '+') {
        negative = v[0] == '-';
        start = 1;
    }
    let ghost body = split_sign(text@).1;
    assert(body =~= v@.skip(start as int));
    let short: [char; 3] = ['i', 'n', 'f'];
    let long: [char; 8] = ['i', 'n', 'f', 'i', 'n', 'i', 't', 'y'];
    assert(short@ =~= seq!['i', 'n', 'f']);
    assert(long@ =~= seq!['i', 'n', 'f', 'i', 'n', 'i', 't', 'y']);
    if word_at(&v, start, short.as_slice()) || word_at(&v, start, long.as_slice()) {
        let amount: Amount = if negative {
            i64::MIN
        } else {
            i64::MAX
        };
        return Some(Reading { negative, amount, exact: false, infinite: true });
    }
    match read_numeral(&v, start) {
        Some((digits, shift)) => {
            let (magnitude, exact) = shift_digits(&digits, shift);
            proof {
                lemma_shifted_nonnegative(digits@, shift as int);
                lemma_shifted_nonnegative(digits@, numeral(body)->0.exponent + PLACES);
            }
            let signed: i128 = if negative {
                -(magnitude as i128)
            } else {
                magnitude as i128
            };
            let infinite: bool = magnitude == CEILING && rounds_to_infinity(
                &digits,
                shift - PLACES,
            );
            proof {
                lemma_float_end();
                lemma_shift_grows(digits@, shift - PLACES);
            }
            Some(Reading { negative, amount: narrow(signed), exact, infinite })
        },
        None => None,
    }
}

pub proof fn lemma_shifted_nonnegative(digits: Seq<char>, shift: int)
    requires
        all_digits(digits),
    ensures
        shifted(digits, shift) >= 0,
{
    lemma_digits_bound(digits);
    let value = digits_value(digits);
    if shift >= 0 {
        let p = pow10(shift as nat);
        lemma_pow10_positive(shift as nat);
        assert(value * p >= 0) by (nonlinear_arith)
            requires
                value >= 0,
                p >= 1,
        ;
    } else {
        let p = pow10((-shift) as nat);
        lemma_pow10_positive((-shift) as nat);
        assert(value / p >= 0) by (nonlinear_arith)
            requires
                value >= 0,
                p >= 1,
        ;
    }
}

/// A first match lies within the text.
pub proof fn lemma_until_bound(s: Seq<char>, a: char, b: char)
    ensures
        until(s, a, b) <= s.len(),
    decreases s.len(),
{
    if s.len() > 0 {
        lemma_until_bound(s.drop_first(), a, b);
    }
}

/// What is read behind a minus sign is not positive, and what is read without one is
/// not negative.
pub proof fn lemma_reading_sign(s: Seq<char>)
    ensures
        reading(s) matches Some(r) ==> {
            &&& r.negative ==> r.amount <= 0
            &&& !r.negative ==> r.amount >= 0
        },
{
    let body = split_sign(s).1;
    if let Some(n) = numeral(body) {
        lemma_shifted_nonnegative(n.digits, n.exponent + PLACES);
    }
}

/// Reads an amount in decimal notation.
pub fn read_amount(text: &str) -> (r: Option<Amount>)
    ensures
        r == amount_of(text@),
{
    match read_decimal(text) {
        Some(r) => Some(r.amount),
        None => None,
    }
}

} // verus!
