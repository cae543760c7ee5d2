//! Dates and times.

use crate::text::{
    all_digits, chars_of, digit, digit_char, digits_value, find_either, is_digit, lemma_until,
    until,
};
use vstd::prelude::*;

verus! {

/// Seconds of a day.
pub const DAY_SECONDS: i64 = 86_400;

/// The hour, in UTC, at which events resolve.
pub const NOON: u32 = 12;

/// Whether a year of the Gregorian calendar has a February 29.
pub open spec fn is_leap(y: int) -> bool {
    y % 4 == 0 && (y % 100 != 0 || y % 400 == 0)
}

/// How many days a month has.
pub open spec fn days_in_month(y: int, m: int) -> int {
    if m == 2 {
        if is_leap(y) {
            29
        } else {
            28
        }
    } else if m == 4 || m == 6 || m == 9 || m == 11 {
        30
    } else {
        31
    }
}

/// How many days of the year are over when month `m` starts.
pub open spec fn days_before_month(y: int, m: int) -> int
    decreases m,
{
    if m <= 1 {
        0
    } else {
        days_before_month(y, m - 1) + days_in_month(y, m - 1)
    }
}

/// How many days lie between January 1 of year 1 and January 1 of year `y`.
pub open spec fn days_before_year(y: int) -> int {
    365 * (y - 1) + (y - 1) / 4 - (y - 1) / 100 + (y - 1) / 400
}

/// The number of a day, counted from January 1, 1970.
pub open spec fn day_number(y: int, m: int, d: int) -> int {
    days_before_year(y) + days_before_month(y, m) + d - 1 - days_before_year(1970)
}

/// Whether the calendar has the day, within the years that are supported.
pub open spec fn is_date(y: int, m: int, d: int) -> bool {
    -262143 <= y <= 262142 && 1 <= m <= 12 && 1 <= d <= days_in_month(y, m)
}

/// The second at which it is noon UTC on the day, counted from the Unix epoch.
pub open spec fn noon(y: int, m: int, d: int) -> int {
    day_number(y, m, d) * 86_400 + 43_200
}

/// `chrono::NaiveDate::from_ymd_opt`, then `and_hms_opt` at the full hour,
/// `and_utc` and `timestamp`: the Unix second of that hour of the day in UTC, and
/// nothing where the calendar has no such day or the year is out of range.
#[verifier::external_body]
fn chrono_second(y: i32, m: u32, d: u32, hour: u32) -> (r: Option<i64>)
    requires
        hour < 24,
    ensures
        r is Some <==> is_date(y as int, m as int, d as int),
        r matches Some(t) ==> t == day_number(y as int, m as int, d as int) * 86_400 + hour * 3_600,
{
    let date = chrono::NaiveDate::from_ymd_opt(y, m, d)?;
    let time = date.and_hms_opt(hour, 0, 0)?;
    Some(time.and_utc().timestamp())
}

/// What `chrono::DateTime::parse_from_rfc3339` makes of a text: the Unix second
/// of the time that it writes, or nothing where it writes none.
pub uninterp spec fn rfc3339_second(s: Seq<char>) -> Option<i64>;

/// Whether a text is four digits, two and two, between dashes.
pub open spec fn is_day_text(s: Seq<char>) -> bool {
    &&& s.len() == 10
    &&& s[4] == '-' && s[7] == '-'
    &&& forall|i: int| 0 <= i < 10 && i != 4 && i != 7 ==> is_digit(#[trigger] s[i])
}

/// Year, month and day that such a text writes.
pub open spec fn day_of(s: Seq<char>) -> (int, int, int) {
    (
        digits_value(s.take(4)),
        digits_value(s.subrange(5, 7)),
        digits_value(s.subrange(8, 10)),
    )
}

/// Whether a text writes noon UTC of a day: `YYYY-MM-DDT12:00:00Z`.
pub open spec fn is_noon_text(s: Seq<char>) -> bool {
    s.len() == 20 && is_day_text(s.take(10)) && s.skip(10) == "T12:00:00Z"@
}

/// The second that such a text writes; nothing where the calendar has no such day.
pub open spec fn noon_second(s: Seq<char>) -> Option<i64> {
    let (y, m, d) = day_of(s.take(10));
    if is_date(y, m, d) {
        Some(noon(y, m, d) as i64)
    } else {
        None
    }
}

/// `chrono::DateTime::parse_from_rfc3339` and, of what it returns, `timestamp`: a
/// function of the text, which reads noon UTC of a day as that second and refuses
/// it where the calendar has no such day.
#[verifier::external_body]
fn chrono_rfc3339(s: &str) -> (r: Option<i64>)
    ensures
        r == rfc3339_second(s@),
        is_noon_text(s@) ==> r == noon_second(s@),
{
    match chrono::DateTime::parse_from_rfc3339(s) {
        Ok(time) => Some(time.timestamp()),
        Err(_) => None,
    }
}

/// The Unix second that a text in RFC 3339 notation writes, or `otherwise`.
pub fn rfc3339_or(s: &str, otherwise: i64) -> (r: i64)
    ensures
        r == second_or(rfc3339_second(s@), otherwise),
        is_noon_text(s@) ==> r == second_or(noon_second(s@), otherwise),
{
    known_second(chrono_rfc3339(s), otherwise)
}

/// A second where there is one, else `otherwise`.
pub fn known_second(second: Option<i64>, otherwise: i64) -> (r: i64)
    ensures
        r == second_or(second, otherwise),
{
    match second {
        Some(t) => t,
        None => otherwise,
    }
}

/// A second where there is one, else `otherwise`.
pub open spec fn second_or(second: Option<i64>, otherwise: i64) -> i64 {
    match second {
        Some(t) => t,
        None => otherwise,
    }
}

/// The Unix second at which an event ends; 0, which is long past, where the
/// text writes no time. At noon UTC of a day it is the second at which an event of
/// that day resolves.
pub fn parse_end_date(s: &str) -> (r: i64)
    ensures
        r == second_or(rfc3339_second(s@), 0),
        is_noon_text(s@) ==> r == second_or(noon_second(s@), 0),
        is_noon_text(s@) && noon_second(s@) is Some ==> forall|now_unix: i64|
            #[trigger] resolution_second(s@.take(10), now_unix) == r,
{
    proof {
        if is_noon_text(s@) {
            lemma_day_text(s@.take(10));
            let (y, m, d) = day_of(s@.take(10));
            if is_date(y, m, d) {
                lemma_noon_fits(y, m, d);
            }
        }
    }
    rfc3339_or(s, 0)
}

/// The text behind a plus sign, where it starts with one.
pub open spec fn without_plus(s: Seq<char>) -> Seq<char> {
    if s.len() > 0 && s[0] == '+' {
        s.skip(1)
    } else {
        s
    }
}

/// The number that an optional plus sign and digits write, up to `most`.
pub open spec fn count_of(s: Seq<char>, most: int) -> Option<int> {
    let digits = without_plus(s);
    if digits.len() > 0 && all_digits(digits) && digits_value(digits) <= most {
        Some(digits_value(digits))
    } else {
        None
    }
}

/// The first of the parts of a text between dashes.
pub open spec fn first_part(s: Seq<char>) -> Seq<char> {
    s.take(until(s, '-', '-') as int)
}

/// What follows the first dash.
pub open spec fn after_dash(s: Seq<char>) -> Seq<char> {
    s.skip(until(s, '-', '-') as int + 1)
}

/// Whether the text has a dash.
pub open spec fn has_dash(s: Seq<char>) -> bool {
    until(s, '-', '-') < s.len()
}

/// A count where there is one, else `otherwise`.
pub open spec fn count_or(count: Option<int>, otherwise: int) -> int {
    match count {
        Some(n) => n,
        None => otherwise,
    }
}

/// Year, month and day of a text of three parts between dashes. A part that
/// writes no number counts as the year 2026, as January or as the first.
pub open spec fn date_parts(s: Seq<char>) -> Option<(int, int, int)> {
    let rest = after_dash(s);
    if has_dash(s) && has_dash(rest) && !has_dash(after_dash(rest)) {
        Some(
            (
                count_or(count_of(first_part(s), i32::MAX as int), 2026),
                count_or(count_of(first_part(rest), u32::MAX as int), 1),
                count_or(count_of(after_dash(rest), u32::MAX as int), 1),
            ),
        )
    } else {
        None
    }
}

/// What [`parse_resolution_date`] returns.
pub open spec fn resolution_second(date: Seq<char>, now_unix: i64) -> int {
    match date_parts(date) {
        Some((y, m, d)) => if vstd::utf8::encode_utf8(date).len() == 10 && is_date(y, m, d) {
            noon(y, m, d)
        } else {
            now_unix + 86_400
        },
        None => now_unix + 86_400,
    }
}

/// A run of digits writes a number below ten to the power of its length.
proof fn lemma_short_digits(s: Seq<char>)
    requires
        all_digits(s),
        s.len() <= 4,
    ensures
        0 <= digits_value(s) < 10_000,
        s.len() == 2 ==> digits_value(s) < 100,
{
    reveal_with_fuel(digits_value, 5);
    assert forall|i: int| 0 <= i < s.len() implies 0 <= digit(#[trigger] s[i]) <= 9 by {
        assert(is_digit(s[i]));
    }
    if s.len() > 0 {
        assert(0 <= digit(s[s.len() - 1]) <= 9);
    }
    if s.len() > 1 {
        assert(s.drop_last().last() == s[s.len() - 2]);
    }
    if s.len() > 2 {
        assert(s.drop_last().drop_last().last() == s[s.len() - 3]);
    }
    if s.len() > 3 {
        assert(s.drop_last().drop_last().drop_last().last() == s[s.len() - 4]);
    }
}

/// A text of four digits, two and two between dashes has the parts that it writes.
pub proof fn lemma_day_text(s: Seq<char>)
    requires
        is_day_text(s),
    ensures
        date_parts(s) == Some(day_of(s)),
        0 <= day_of(s).0 < 10_000,
        vstd::utf8::encode_utf8(s).len() == 10,
{
    assert(vstd::utf8::is_ascii_chars(s)) by {
        assert forall|i: int| 0 <= i < s.len() implies '\0' <= #[trigger] s[i] <= '\u{7f}' by {
            if i != 4 && i != 7 {
                assert(is_digit(s[i]));
            }
        }
    }
    vstd::utf8::is_ascii_chars_encode_utf8(s);
    assert forall|i: int| 0 <= i < 10 && i != 4 && i != 7 implies #[trigger] s[i] != '-' && s[i]
        != '+' by {
        assert(is_digit(s[i]));
    }
    lemma_until(s, '-', '-', 4);
    let rest = after_dash(s);
    assert(rest =~= s.skip(5));
    assert(rest[2] == s[7]);
    lemma_until(rest, '-', '-', 2);
    let last = after_dash(rest);
    assert(last =~= s.skip(8));
    lemma_until(last, '-', '-', 2);
    let year = first_part(s);
    let month = first_part(rest);
    assert(year =~= s.take(4));
    assert(month =~= s.subrange(5, 7));
    assert(last =~= s.subrange(8, 10));
    assert(all_digits(year));
    assert(all_digits(month));
    assert(all_digits(last));
    lemma_short_digits(year);
    lemma_short_digits(month);
    lemma_short_digits(last);
    assert(year[0] == s[0] && month[0] == s[5] && last[0] == s[8]);
}

/// How many days of a year are over when a month starts.
pub proof fn lemma_days_before_month(y: int, m: int)
    requires
        1 <= m <= 13,
    ensures
        0 <= days_before_month(y, m) <= 366,
        days_before_month(y, 13) == (if is_leap(y) {
            366int
        } else {
            365
        }),
{
    reveal_with_fuel(days_before_month, 14);
}

/// Noon of a day is a second that 64 bits hold.
pub proof fn lemma_noon_fits(y: int, m: int, d: int)
    requires
        is_date(y, m, d),
    ensures
        i64::MIN <= noon(y, m, d) <= i64::MAX,
{
    lemma_days_before_month(y, m);
}

/// The number that `v[from..to]` writes, up to `most`.
fn read_count(v: &Vec<char>, from: usize, to: usize, most: u64) -> (r: Option<u64>)
    requires
        from <= to <= v@.len(),
        most <= 0xffff_ffff,
    ensures
        r is Some <==> count_of(v@.subrange(from as int, to as int), most as int) is Some,
        r matches Some(n) ==> n == count_of(v@.subrange(from as int, to as int), most as int)->0
            && n <= most,
{
    let ghost s = v@.subrange(from as int, to as int);
    let mut i: usize = from;
    if from < to && v[from] == '+' {
        i = from + 1;
    }
    let start: usize = i;
    let ghost digits = v@.subrange(start as int, to as int);
    proof {
        if from < to {
            assert(s[0] == v@[from as int]);
        }
        assert(digits =~= without_plus(s));
    }
    if start == to {
        return None;
    }
    let mut n: u64 = 0;
    let mut over: bool = false;
    while i < to
        invariant
            start <= i <= to <= v@.len(),
            most <= 0xffff_ffff,
            digits == v@.subrange(start as int, to as int),
            digits == without_plus(v@.subrange(from as int, to as int)),
            forall|j: int| 0 <= j < i - start ==> is_digit(#[trigger] digits[j]),
            n <= most,
            over ==> digits_value(digits.take(i - start)) > most,
            !over ==> digits_value(digits.take(i - start)) == n,
        decreases to - i,
    {
        let c: char = v[i];
        assert(digits[i - start] == c);
        if !digit_char(c) {
            return None;
        }
        assert(digits.take(i + 1 - start).drop_last() =~= digits.take(i - start));
        let next: u64 = 10 * n + (c as u32 - '0' as u32) as u64;
        if next > most {
            over = true;
        } else if !over {
            n = next;
        }
        i = i + 1;
    }
    assert(digits.take(to - start) =~= digits);
    if over {
        None
    } else {
        Some(n)
    }
}

/// Year, month and day that a text writes.
fn read_date(v: &Vec<char>) -> (r: Option<(i32, u32, u32)>)
    ensures
        r is Some <==> date_parts(v@) is Some,
        r matches Some((y, m, d)) ==> date_parts(v@)->0 == (y as int, m as int, d as int),
{
    let n: usize = v.len();
    let a: usize = find_either(v, 0, '-', '-');
    assert(v@.skip(0) =~= v@);
    if a == n {
        return None;
    }
    let ghost rest = after_dash(v@);
    assert(rest =~= v@.skip(a + 1));
    let b: usize = find_either(v, a + 1, '-', '-');
    if b == n {
        return None;
    }
    assert(after_dash(rest) =~= v@.skip(b + 1));
    if find_either(v, b + 1, '-', '-') != n {
        return None;
    }
    assert(v@.subrange(0, a as int) =~= first_part(v@));
    assert(v@.subrange(a + 1, b as int) =~= first_part(rest));
    assert(v@.subrange(b + 1, n as int) =~= after_dash(rest));
    let y: i32 = match read_count(v, 0, a, i32::MAX as u64) {
        Some(y) => y as i32,
        None => 2026,
    };
    let m: u32 = match read_count(v, a + 1, b, u32::MAX as u64) {
        Some(m) => m as u32,
        None => 1,
    };
    let d: u32 = match read_count(v, b + 1, n, u32::MAX as u64) {
        Some(d) => d as u32,
        None => 1,
    };
    Some((y, m, d))
}

/// The Unix second at which an event resolves: noon UTC of a date written
/// `YYYY-MM-DD`, a day from now where the text is no such date.
pub fn parse_resolution_date(date: &str, now_unix: i64) -> (r: i64)
    requires
        resolution_second(date@, now_unix) <= i64::MAX,
    ensures
        r == resolution_second(date@, now_unix),
{
    if date.as_bytes().len() != 10 {
        return now_unix + DAY_SECONDS;
    }
    match read_date(&chars_of(date)) {
        Some((y, m, d)) => match chrono_second(y, m, d, NOON) {
            Some(t) => t,
            None => now_unix + DAY_SECONDS,
        },
        None => now_unix + DAY_SECONDS,
    }
}

} // verus!
