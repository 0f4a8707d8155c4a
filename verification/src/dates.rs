//! Calendar dates: what the user types and what the result list shows.

use crate::numbers::{
    all_digits, decimal, digit_char, digit_of, digits_value, parse_whole, push_decimal,
    whole_number,
};
use crate::paths::{free_of, lemma_split_join};
use crate::text::{is_digit, join, split, split_on, to_chars};
use chrono::{Datelike, TimeZone, Timelike};
use vstd::prelude::*;

verus! {

/// Years that a date can have.
pub const MIN_YEAR: i32 = -262_143;

pub const MAX_YEAR: i32 = 262_142;

pub const DAY: i64 = 86_400;

pub open spec fn is_leap(y: int) -> bool {
    y % 4 == 0 && (y % 100 != 0 || y % 400 == 0)
}

/// Length of a month in the Gregorian calendar.
pub open spec fn month_len(y: int, m: int) -> int {
    if m == 2 {
        if is_leap(y) {
            29
        } else {
            28
        }
    } else if m == 4 || m == 6 || m == 9 || m == 11 {
        30
    } else {
        31
    }
}

/// Whether a day exists in the proleptic Gregorian calendar, within the years
/// that dates cover.
pub open spec fn is_date(y: int, m: int, d: int) -> bool {
    MIN_YEAR <= y <= MAX_YEAR && 1 <= m <= 12 && 1 <= d <= month_len(y, m)
}

/// Days of the year before the first of a month.
pub open spec fn days_before_month(y: int, m: int) -> int
    decreases m,
{
    if m <= 1 {
        0
    } else {
        days_before_month(y, m - 1) + month_len(y, m - 1)
    }
}

/// Days from the first of January of the year 0 to that of year `y`.
pub open spec fn days_before_year(y: int) -> int {
    365 * y + (y + 3) / 4 - (y + 99) / 100 + (y + 399) / 400
}

/// Days from the first of January 1970 to a date.
pub open spec fn day_number(y: int, m: int, d: int) -> int {
    days_before_year(y) - days_before_year(1970) + days_before_month(y, m) + d - 1
}

/// Asks `chrono` for the instant of a local midnight: `Local` maps the start of
/// the day to the earliest instant that has this local time, if any has. The
/// offset of a local time from UTC is less than a day. Which offset applies is
/// the machine's matter, and so is whether the day has a midnight at all.
#[verifier::external_body]
fn local_midnight(y: i32, m: u32, d: u32) -> (r: Option<i64>)
    requires
        is_date(y as int, m as int, d as int),
    ensures
        r matches Some(t) ==> -DAY < t - DAY * day_number(y as int, m as int, d as int) < DAY,
{
    let midnight = chrono::NaiveDate::from_ymd_opt(y, m, d)?.and_hms_opt(0, 0, 0)?;
    chrono::Local.from_local_datetime(&midnight).earliest().map(|t| t.timestamp())
}

/// The year, month and day of a local instant, and its hour and minute.
pub struct LocalTime {
    pub year: i32,
    pub month: u32,
    pub day: u32,
    pub hour: u32,
    pub minute: u32,
}

impl LocalTime {
    /// Minutes from the start of 1970, in local time.
    pub open spec fn minutes(self) -> int {
        day_number(self.year as int, self.month as int, self.day as int) * 1440 + self.hour * 60
            + self.minute
    }
}

/// Whether the parts of a time are in range.
pub open spec fn is_time(t: LocalTime) -> bool {
    &&& 1 <= t.month <= 12
    &&& 1 <= t.day <= month_len(t.year as int, t.month as int)
    &&& t.hour < 24
    &&& t.minute < 60
}

/// Seconds from the start of 1970 to the start of the first year that a date
/// can have, and to the end of the last.
pub open spec fn is_instant(secs: int) -> bool {
    DAY * day_number(MIN_YEAR as int, 1, 1) <= secs < DAY * (day_number(MAX_YEAR as int, 12, 31) + 1)
}

/// Asks `chrono` for the local time of an instant: `Local` knows one for every
/// instant in its range, and it differs from UTC by less than a day.
#[verifier::external_body]
fn local_time(secs: i64) -> (r: Option<LocalTime>)
    ensures
        r is Some <==> is_instant(secs as int),
        r matches Some(t) ==> {
            &&& MIN_YEAR - 1 <= t.year <= MAX_YEAR + 1
            &&& is_time(t)
            &&& exists|offset: int|
                -DAY < offset < DAY && t.minutes() == (#[trigger] (secs + offset)) / 60
        },
{
    let t = chrono::Local.timestamp_opt(secs, 0).single()?;
    Some(
        LocalTime {
            year: t.year(),
            month: t.month(),
            day: t.day(),
            hour: t.hour(),
            minute: t.minute(),
        },
    )
}

/// Two digits.
pub open spec fn two_digits(n: nat) -> Seq<char> {
    seq![digit_char(n / 10 % 10), digit_char(n % 10)]
}

/// At least four digits.
pub open spec fn four_digits(n: nat) -> Seq<char> {
    if n < 10_000 {
        seq![digit_char(n / 1000), digit_char(n / 100 % 10)] + two_digits(n % 100)
    } else {
        decimal(n)
    }
}

/// A year: four digits, and a sign where there are more or where it is
/// negative.
pub open spec fn year_text(y: int) -> Seq<char> {
    if y < 0 {
        seq!['-'] + four_digits((-y) as nat)
    } else if y > 9999 {
        seq!['+'] + four_digits(y as nat)
    } else {
        four_digits(y as nat)
    }
}

/// A local time as it is shown, such as `2024-01-31 09:05`.
pub open spec fn time_text(t: LocalTime) -> Seq<char> {
    year_text(t.year as int) + seq!['-'] + two_digits(t.month as nat) + seq!['-'] + two_digits(
        t.day as nat,
    ) + seq![' '] + two_digits(t.hour as nat) + seq![':'] + two_digits(t.minute as nat)
}

fn push_two(out: &mut String, n: u32)
    ensures
        final(out)@ == old(out)@ + two_digits(n as nat),
{
    out.push(digit_of((n / 10 % 10) as u8));
    out.push(digit_of((n % 10) as u8));
    assert(out@ =~= old(out)@ + two_digits(n as nat));
}

fn push_four(out: &mut String, n: u32)
    ensures
        final(out)@ == old(out)@ + four_digits(n as nat),
{
    if n < 10_000 {
        out.push(digit_of((n / 1000) as u8));
        out.push(digit_of((n / 100 % 10) as u8));
        push_two(out, n % 100);
    } else {
        push_decimal(out, n as u128);
    }
    assert(out@ =~= old(out)@ + four_digits(n as nat));
}

/// Shows a local time.
pub fn show_time(t: &LocalTime) -> (r: String)
    requires
        t.year > i32::MIN,
    ensures
        r@ == time_text(*t),
{
    let mut r = String::new();
    if t.year < 0 {
        r.push('-');
        push_four(&mut r, (-t.year) as u32);
    } else {
        if t.year > 9999 {
            r.push('+');
        }
        push_four(&mut r, t.year as u32);
    }
    assert(r@ =~= year_text(t.year as int));
    r.push('-');
    push_two(&mut r, t.month);
    r.push('-');
    push_two(&mut r, t.day);
    r.push(' ');
    push_two(&mut r, t.hour);
    r.push(':');
    push_two(&mut r, t.minute);
    assert(r@ =~= time_text(*t));
    r
}

/// Whether a text shows the local date and time of a Unix timestamp: that of an
/// instant less than a day from it in UTC, or nothing where there is none.
pub open spec fn shows_date(secs: i64, s: Seq<char>) -> bool {
    if is_instant(secs as int) {
        exists|t: LocalTime, offset: int|
            s == time_text(t) && is_time(t) && -DAY < offset < DAY && #[trigger] t.minutes() == (
            #[trigger] (secs + offset)) / 60
    } else {
        s.len() == 0
    }
}

/// The local date and time of a Unix timestamp; empty where there is none.
pub fn human_date(unix_secs: i64) -> (r: String)
    ensures
        shows_date(unix_secs, r@),
        r@.len() == 0 <==> !is_instant(unix_secs as int),
{
    match local_time(unix_secs) {
        Some(t) => {
            let r = show_time(&t);
            assert(r@ == time_text(t));
            assert(r@.len() > 0);
            r
        },
        None => String::new(),
    }
}

/// The numbers of a date as typed: a year, a year and a month, or a year, a
/// month and a day, with dashes between. What is left out is the first.
pub open spec fn date_fields(s: Seq<char>) -> Option<(nat, nat, nat)> {
    let parts = split_on(s, '-');
    let y = whole_number(parts[0], i32::MAX as nat);
    let m = if parts.len() > 1 {
        whole_number(parts[1], u32::MAX as nat)
    } else {
        Some(1nat)
    };
    let d = if parts.len() > 2 {
        whole_number(parts[2], u32::MAX as nat)
    } else {
        Some(1nat)
    };
    if parts.len() <= 3 && y is Some && m is Some && d is Some {
        Some((y->0, m->0, d->0))
    } else {
        None
    }
}

/// The calendar day that a text names, if it names one.
pub open spec fn date_named(s: Seq<char>) -> Option<(nat, nat, nat)> {
    match date_fields(s) {
        Some((y, m, d)) if is_date(y as int, m as int, d as int) => Some((y, m, d)),
        _ => None,
    }
}

/// Whether `r` is a possible instant for the start of the day that a text
/// names. Where no day is named there is none; otherwise the instant lies less
/// than a day from the start of that day in UTC.
pub open spec fn is_start_of_day(s: Seq<char>, r: Option<i64>) -> bool {
    match date_named(s) {
        None => r is None,
        Some((y, m, d)) => r matches Some(t) ==> -DAY < t - DAY * day_number(
            y as int,
            m as int,
            d as int,
        ) < DAY,
    }
}

#[verifier::spinoff_prover]
#[verifier::rlimit(30)]
fn month_length(y: i32, m: u32) -> (r: u32)
    ensures
        r == month_len(y as int, m as int),
{
    if m == 2 {
        if y % 4 == 0 && (y % 100 != 0 || y % 400 == 0) {
            29
        } else {
            28
        }
    } else if m == 4 || m == 6 || m == 9 || m == 11 {
        30
    } else {
        31
    }
}

/// Reads a calendar day.
pub fn parse_day(s: &str) -> (r: Option<(i32, u32, u32)>)
    ensures
        r is Some <==> date_named(s@) is Some,
        r matches Some((y, m, d)) ==> y >= 0 && date_named(s@) == Some(
            (y as nat, m as nat, d as nat),
        ),
{
    let chars = to_chars(s);
    let parts = split(chars.as_slice(), '-');
    proof {
        crate::text::lemma_split_nonempty(s@, '-');
        assert forall|i: int| 0 <= i < parts@.len() implies split_on(s@, '-')[i]
            == (#[trigger] parts@[i])@ by {}
    }
    if parts.len() == 0 || parts.len() > 3 {
        return None;
    }
    assert(split_on(s@, '-')[0] == parts@[0]@);
    let y = match parse_whole(parts[0].as_slice(), i32::MAX as u32) {
        Some(y) => y as i32,
        None => return None,
    };
    let m = if parts.len() > 1 {
        assert(split_on(s@, '-')[1] == parts@[1]@);
        match parse_whole(parts[1].as_slice(), u32::MAX) {
            Some(m) => m,
            None => return None,
        }
    } else {
        1
    };
    let d = if parts.len() > 2 {
        assert(split_on(s@, '-')[2] == parts@[2]@);
        match parse_whole(parts[2].as_slice(), u32::MAX) {
            Some(d) => d,
            None => return None,
        }
    } else {
        1
    };
    assert(date_fields(s@) == Some((y as nat, m as nat, d as nat)));
    if y <= MAX_YEAR && 1 <= m && m <= 12 && 1 <= d && d <= month_length(y, m) {
        Some((y, m, d))
    } else {
        None
    }
}

/// Reads a date such as `2024-01-31`, `2024-01` or `2024`: the instant of local
/// midnight at its start.
pub fn parse_date(s: &str) -> (r: Option<i64>)
    ensures
        is_start_of_day(s@, r),
{
    match parse_day(s) {
        Some((y, m, d)) => local_midnight(y, m, d),
        None => None,
    }
}

/// The start of a named day is far from the ends of the range of timestamps.
pub proof fn lemma_start_of_day_bound(s: Seq<char>, r: Option<i64>)
    requires
        is_start_of_day(s, r),
    ensures
        r matches Some(t) ==> -0x1_0000_0000_0000 < t < 0x1_0000_0000_0000,
{
    if let Some(t) = r {
        let (y, m, d) = date_named(s)->0;
        lemma_days_before_month(y as int, m as int);
    }
}

proof fn lemma_days_before_month(y: int, m: int)
    requires
        m <= 12,
    ensures
        0 <= days_before_month(y, m),
        m >= 1 ==> days_before_month(y, m) <= 31 * (m - 1),
    decreases m,
{
    if m > 1 {
        lemma_days_before_month(y, m - 1);
    }
}

// ---------------------------------------------------------------------------
// Laws
// ---------------------------------------------------------------------------

/// Days are numbered one after the other, within a month, from month to month and
/// from year to year, beginning with the first of January 1970.
pub proof fn law_days_are_numbered_in_turn(y: int, m: int, d: int)
    requires
        1 <= m < 12,
    ensures
        day_number(1970, 1, 1) == 0,
        day_number(y, m, d + 1) == day_number(y, m, d) + 1,
        day_number(y, m + 1, 1) == day_number(y, m, month_len(y, m)) + 1,
        day_number(y + 1, 1, 1) == day_number(y, 12, 31) + 1,
        day_number(y + 1, 1, 1) == day_number(y, 1, 1) + (if (y % 4 == 0 && y % 100 != 0) || y % 400
            == 0 {
            366int
        } else {
            365
        }),
{
    reveal_with_fuel(days_before_month, 13);
    assert(days_before_month(y, m + 1) == days_before_month(y, m) + month_len(y, m));
    assert(days_before_month(y, 12) == 306 + month_len(y, 2));
    lemma_year_step(y);
}

proof fn lemma_year_step(y: int)
    ensures
        days_before_year(y + 1) == days_before_year(y) + 337 + month_len(y, 2),
{
    assert((y + 4) / 4 == (y + 3) / 4 + (if y % 4 == 0 {
        1int
    } else {
        0
    }));
    assert((y + 100) / 100 == (y + 99) / 100 + (if y % 100 == 0 {
        1int
    } else {
        0
    }));
    assert((y + 400) / 400 == (y + 399) / 400 + (if y % 400 == 0 {
        1int
    } else {
        0
    }));
    assert(y % 400 == 0 ==> y % 100 == 0);
    assert(y % 100 == 0 ==> y % 4 == 0);
}

/// Months have 31 days, but for April, June, September and November, which have
/// 30, and February, which has 28, or 29 in years that can be divided by 4, unless
/// they can be divided by 100 and not by 400.
pub proof fn law_days_that_exist(y: int, m: int, d: int)
    requires
        -262_143 <= y <= 262_142,
    ensures
        m == 1 || m == 3 || m == 5 || m == 7 || m == 8 || m == 10 || m == 12 ==> (is_date(y, m, d)
            <==> 1 <= d <= 31),
        m == 4 || m == 6 || m == 9 || m == 11 ==> (is_date(y, m, d) <==> 1 <= d <= 30),
        is_date(y, 2, d) <==> 1 <= d <= 28 || (d == 29 && y % 4 == 0 && (y % 100 != 0 || y % 400
            == 0)),
        m < 1 || m > 12 ==> !is_date(y, m, d),
{
}

/// A date is typed as a year, as a year and a month, or as a year, a month and a
/// day, with dashes between. It names a day where that day exists; what is left out
/// is the first.
pub proof fn law_typed_dates_are_read(y: Seq<char>, m: Seq<char>, d: Seq<char>)
    requires
        y.len() > 0 && all_digits(y) && digits_value(y) <= 0x7fff_ffff,
        m.len() > 0 && all_digits(m) && digits_value(m) <= 0xffff_ffff,
        d.len() > 0 && all_digits(d) && digits_value(d) <= 0xffff_ffff,
    ensures
        ({
            let (a, b, c) = (digits_value(y), digits_value(m), digits_value(d));
            &&& date_named(y + seq!['-'] + m + seq!['-'] + d) == (if is_date(
                a as int,
                b as int,
                c as int,
            ) {
                Some((a, b, c))
            } else {
                None
            })
            &&& date_named(y + seq!['-'] + m) == (if is_date(a as int, b as int, 1) {
                Some((a, b, 1nat))
            } else {
                None
            })
            &&& date_named(y) == (if is_date(a as int, 1, 1) {
                Some((a, 1nat, 1nat))
            } else {
                None
            })
        }),
{
    let three = seq![y, m, d];
    let two = seq![y, m];
    let one = seq![y];
    assert forall|s: Seq<char>| #[trigger] all_digits(s) implies !s.contains('-') by {
        if s.contains('-') {
            let k = choose|k: int| 0 <= k < s.len() && s[k] == '-';
            assert(is_digit(s[k]));
        }
    }
    assert(all_digits(y) && all_digits(m) && all_digits(d));
    assert(free_of(three, '-'));
    assert(free_of(two, '-'));
    assert(free_of(one, '-'));
    lemma_split_join(three, '-');
    lemma_split_join(two, '-');
    lemma_split_join(one, '-');
    reveal_with_fuel(join, 4);
    assert(three.drop_last() =~= two);
    assert(two.drop_last() =~= one);
    assert(join(three, seq!['-']) == y + seq!['-'] + m + seq!['-'] + d);
    assert(join(two, seq!['-']) == y + seq!['-'] + m);
    assert(join(one, seq!['-']) == y);
    assert(is_digit(y[0]) && is_digit(m[0]) && is_digit(d[0]));
}

/// A time is shown so that it reads back: the first ten characters are the date as
/// it is typed, and behind a space come the hour and the minute in two digits.
pub proof fn law_shown_times_read_back(t: LocalTime)
    requires
        is_time(t),
        0 <= t.year <= 9999,
    ensures
        ({
            let s = time_text(t);
            &&& s.len() == 16
            &&& date_named(s.take(10)) == Some((t.year as nat, t.month as nat, t.day as nat))
            &&& s[10] == ' '
            &&& s[13] == ':'
            &&& all_digits(s.subrange(11, 13)) && digits_value(s.subrange(11, 13)) == t.hour
            &&& all_digits(s.subrange(14, 16)) && digits_value(s.subrange(14, 16)) == t.minute
        }),
{
    let s = time_text(t);
    let y = four_digits(t.year as nat);
    let m = two_digits(t.month as nat);
    let d = two_digits(t.day as nat);
    lemma_two_digits(t.month as nat);
    lemma_two_digits(t.day as nat);
    lemma_two_digits(t.hour as nat);
    lemma_two_digits(t.minute as nat);
    lemma_four_digits(t.year as nat);
    assert(s.take(10) =~= y + seq!['-'] + m + seq!['-'] + d);
    assert(s.subrange(11, 13) =~= two_digits(t.hour as nat));
    assert(s.subrange(14, 16) =~= two_digits(t.minute as nat));
    law_typed_dates_are_read(y, m, d);
}

proof fn lemma_two_digits(n: nat)
    requires
        n < 100,
    ensures
        two_digits(n).len() == 2,
        all_digits(two_digits(n)),
        digits_value(two_digits(n)) == n,
{
    let s = two_digits(n);
    reveal_with_fuel(digits_value, 3);
    assert(s.drop_last() =~= seq![s[0]]);
    assert(seq![s[0]].drop_last() =~= Seq::<char>::empty());
}

proof fn lemma_four_digits(n: nat)
    requires
        n < 10_000,
    ensures
        four_digits(n).len() == 4,
        all_digits(four_digits(n)),
        digits_value(four_digits(n)) == n,
{
    let s = four_digits(n);
    let low = two_digits(n % 100);
    lemma_two_digits(n % 100);
    assert(s[0] == digit_char(n / 1000) && s[1] == digit_char(n / 100 % 10));
    assert(s[2] == low[0] && s[3] == low[1]);
    let a = s.drop_last();
    let b = a.drop_last();
    let c = b.drop_last();
    assert(c.drop_last() =~= Seq::<char>::empty());
    reveal_with_fuel(digits_value, 5);
    assert(c.last() == s[0] && b.last() == s[1] && a.last() == s[2]);
    assert(digits_value(c) == n / 1000);
    assert(digits_value(b) == n / 100);
    assert(digits_value(a) == n / 10);
}

}
