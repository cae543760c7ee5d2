//! When events resolve.

use crate::dates::{
    after_dash, count_of, date_parts, day_number, day_of, days_before_month, days_before_year,
    days_in_month, has_dash, is_date, is_day_text, is_leap, lemma_day_text,
    lemma_days_before_month, noon, resolution_second, second_or,
};
use crate::text::{all_digits, digits_value, is_digit, lemma_until, until};
use vstd::prelude::*;

verus! {

/// An event with a date of the calendar resolves at noon UTC of that day, whatever
/// the time is now.
pub proof fn law_events_resolve_at_noon(date: Seq<char>, now_unix: i64, later: i64)
    requires
        date_parts(date) is Some,
        ({
            let (y, m, d) = date_parts(date)->0;
            is_date(y, m, d)
        }),
        vstd::utf8::encode_utf8(date).len() == 10,
    ensures
        resolution_second(date, now_unix) % 86_400 == 43_200,
        ({
            let (y, m, d) = date_parts(date)->0;
            resolution_second(date, now_unix) == noon(y, m, d)
        }),
        resolution_second(date, now_unix) == resolution_second(date, later),
{
}

/// The day after a day.
pub open spec fn next_day(day: (int, int, int)) -> (int, int, int) {
    let (y, m, d) = day;
    if d < days_in_month(y, m) {
        (y, m, d + 1)
    } else if m < 12 {
        (y, m + 1, 1)
    } else {
        (y + 1, 1, 1)
    }
}

/// The day `k` days after a day.
pub open spec fn days_after(day: (int, int, int), k: nat) -> (int, int, int)
    decreases k,
{
    if k == 0 {
        day
    } else {
        next_day(days_after(day, (k - 1) as nat))
    }
}

/// A quotient grows by one exactly at the multiples of the divisor.
proof fn lemma_multiples(y: int, k: int)
    requires
        k > 1,
    ensures
        y / k - (y - 1) / k == (if y % k == 0 {
            1int
        } else {
            0
        }),
{
    let q = (y - 1) / k;
    let r = (y - 1) % k;
    vstd::arithmetic::div_mod::lemma_fundamental_div_mod(y - 1, k);
    vstd::arithmetic::div_mod::lemma_mod_bound(y - 1, k);
    assert(k * q == q * k) by (nonlinear_arith);
    if r + 1 < k {
        vstd::arithmetic::div_mod::lemma_fundamental_div_mod_converse(y, k, q, r + 1);
    } else {
        assert((q + 1) * k == q * k + k) by (nonlinear_arith);
        vstd::arithmetic::div_mod::lemma_fundamental_div_mod_converse(y, k, q + 1, 0);
    }
}

/// A year has 365 days, or 366 where it has a February 29.
proof fn lemma_year(y: int)
    ensures
        days_before_year(y + 1) == days_before_year(y) + (if is_leap(y) {
            366int
        } else {
            365
        }),
{
    lemma_multiples(y, 4);
    lemma_multiples(y, 100);
    lemma_multiples(y, 400);
}

/// The calendar goes on: days that follow each other have numbers that follow each
/// other.
pub proof fn law_days_are_counted(day: (int, int, int), k: nat)
    requires
        1 <= day.1 <= 12,
        1 <= day.2 <= days_in_month(day.0, day.1),
    ensures
        ({
            let (y, m, d) = days_after(day, k);
            &&& 1 <= m <= 12
            &&& 1 <= d <= days_in_month(y, m)
            &&& day_number(y, m, d) == day_number(day.0, day.1, day.2) + k
        }),
    decreases k,
{
    if k > 0 {
        law_days_are_counted(day, (k - 1) as nat);
        let (y, m, d) = days_after(day, (k - 1) as nat);
        lemma_year(y);
        lemma_days_before_month(y, m);
        assert(days_before_month(y, m + 1) == days_before_month(y, m) + days_in_month(y, m));
        assert(days_before_month(y + 1, 1) == 0);
    }
}

/// Events of days that are `k` days apart resolve `k` days apart, whatever the time
/// is now.
pub proof fn law_resolutions_are_days_apart(
    first: Seq<char>,
    second: Seq<char>,
    k: nat,
    now_unix: i64,
    later: i64,
)
    requires
        is_day_text(first),
        is_day_text(second),
        ({
            let (y, m, d) = day_of(first);
            is_date(y, m, d)
        }),
        day_of(second) == days_after(day_of(first), k),
    ensures
        resolution_second(second, later) == resolution_second(first, now_unix) + 86_400 * k,
        resolution_second(first, now_unix) % 86_400 == 43_200,
{
    lemma_day_text(first);
    lemma_day_text(second);
    law_days_are_counted(day_of(first), k);
}

/// How many dashes a text has.
pub open spec fn dashes(s: Seq<char>) -> nat
    decreases s.len(),
{
    if s.len() == 0 {
        0
    } else {
        dashes(s.drop_first()) + (if s[0] == '-' {
            1nat
        } else {
            0
        })
    }
}

proof fn lemma_dashes(s: Seq<char>)
    ensures
        has_dash(s) <==> dashes(s) > 0,
        has_dash(s) ==> dashes(s) == 1 + dashes(after_dash(s)),
    decreases s.len(),
{
    if s.len() > 0 {
        let rest = s.drop_first();
        lemma_dashes(rest);
        if s[0] == '-' {
            assert(after_dash(s) =~= rest);
        } else if has_dash(rest) {
            assert(after_dash(s) =~= after_dash(rest));
        }
    } else {
        assert(until(s, '-', '-') == 0);
    }
}

/// A text that has not ten bytes, that has not three parts, or that names a day that the
/// calendar has not, lets an event resolve a day from now.
pub proof fn law_other_texts_resolve_in_a_day(date: Seq<char>, now_unix: i64)
    ensures
        vstd::utf8::encode_utf8(date).len() != 10 ==> resolution_second(date, now_unix) == now_unix
            + 86_400,
        dashes(date) != 2 ==> resolution_second(date, now_unix) == now_unix + 86_400,
        is_day_text(date) && ({
            let (y, m, d) = day_of(date);
            !is_date(y, m, d)
        }) ==> resolution_second(date, now_unix) == now_unix + 86_400,
{
    lemma_dashes(date);
    if has_dash(date) {
        lemma_dashes(after_dash(date));
        if has_dash(after_dash(date)) {
            lemma_dashes(after_dash(after_dash(date)));
        }
    }
    if is_day_text(date) {
        lemma_day_text(date);
    }
}

/// The parts of a date are read each for itself; one that is no number counts as the year
/// 2026, as January or as the first.
pub proof fn law_date_parts_are_read(a: Seq<char>, b: Seq<char>, c: Seq<char>)
    requires
        dashes(a) == 0,
        dashes(b) == 0,
        dashes(c) == 0,
    ensures
        date_parts(a + seq!['-'] + b + seq!['-'] + c) == Some(
            (
                match count_of(a, 0x7fff_ffff) {
                    Some(y) => y,
                    None => 2026,
                },
                match count_of(b, 0xffff_ffff) {
                    Some(m) => m,
                    None => 1,
                },
                match count_of(c, 0xffff_ffff) {
                    Some(d) => d,
                    None => 1,
                },
            ),
        ),
{
    let s = a + seq!['-'] + b + seq!['-'] + c;
    let rest = b + seq!['-'] + c;
    lemma_no_dash(a);
    lemma_no_dash(b);
    lemma_no_dash(c);
    assert(s[a.len() as int] == '-');
    assert(rest[b.len() as int] == '-');
    lemma_until(s, '-', '-', a.len() as int);
    assert(after_dash(s) =~= rest);
    lemma_until(rest, '-', '-', b.len() as int);
    assert(after_dash(rest) =~= c);
    lemma_until(c, '-', '-', c.len() as int);
    assert(s.take(a.len() as int) =~= a);
    assert(rest.take(b.len() as int) =~= b);
}

proof fn lemma_no_dash(s: Seq<char>)
    requires
        dashes(s) == 0,
    ensures
        forall|i: int| 0 <= i < s.len() ==> #[trigger] s[i] != '-',
    decreases s.len(),
{
    if s.len() > 0 {
        let rest = s.drop_first();
        lemma_no_dash(rest);
        assert forall|i: int| 0 <= i < s.len() implies #[trigger] s[i] != '-' by {
            if i > 0 {
                assert(rest[i - 1] == s[i]);
            }
        }
    }
}

/// A part is read as the number that its digits write, with or without a plus sign, as far
/// as it is not too large; with any other character in it, it is no number.
pub proof fn law_counts_are_read(s: Seq<char>, most: int)
    ensures
        s.len() > 0 && all_digits(s) && digits_value(s) <= most ==> count_of(s, most) == Some(
            digits_value(s),
        ),
        s.len() > 0 && all_digits(s) ==> count_of(seq!['+'] + s, most) == count_of(s, most),
        all_digits(s) && digits_value(s) > most ==> count_of(s, most) is None,
        s.len() == 0 ==> count_of(s, most) is None,
        s.len() > 0 && s[0] != '+' && !all_digits(s) ==> count_of(s, most) is None,
{
    assert((seq!['+'] + s).skip(1) =~= s);
    if s.len() > 0 && all_digits(s) {
        assert(is_digit(s[0]));
    }
}

/// The calendar: which years are leap years, how long the months are, and that days are
/// counted from the first of January 1970.
pub proof fn law_calendar(y: int)
    ensures
        y % 4 != 0 ==> !is_leap(y),
        y % 4 == 0 && y % 100 != 0 ==> is_leap(y),
        y % 100 == 0 && y % 400 != 0 ==> !is_leap(y),
        y % 400 == 0 ==> is_leap(y),
        days_in_month(y, 1) == 31 && days_in_month(y, 3) == 31 && days_in_month(y, 4) == 30,
        days_in_month(y, 5) == 31 && days_in_month(y, 6) == 30 && days_in_month(y, 7) == 31,
        days_in_month(y, 8) == 31 && days_in_month(y, 9) == 30 && days_in_month(y, 10) == 31,
        days_in_month(y, 11) == 30 && days_in_month(y, 12) == 31,
        is_leap(y) ==> days_in_month(y, 2) == 29,
        !is_leap(y) ==> days_in_month(y, 2) == 28,
        day_number(1970, 1, 1) == 0,
        noon(1970, 1, 1) == 12 * 3_600,
{
}

/// A second that is known is taken as it is, and another in its place only where none is.
pub proof fn law_known_seconds(second: Option<i64>, otherwise: i64)
    ensures
        second is None ==> second_or(second, otherwise) == otherwise,
        second matches Some(t) ==> second_or(second, otherwise) == t,
{
}

} // verus!
