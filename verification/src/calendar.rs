use vstd::prelude::*;

use crate::text::{
    chars_of, decimal, decimal_chars, push_signed_zero_padded, push_zero_padded, replace_all,
    replace_chars, signed_zero_padded, string_from_chars, zero_padded,
};

verus! {

/// Gregorian leap-year rule.
pub open spec fn is_leap_year(y: int) -> bool {
    y % 4 == 0 && (y % 100 != 0 || y % 400 == 0)
}

/// Number of days in month `m` (1 = January) of year `y`.
pub open spec fn days_in_month(y: int, m: int) -> int {
    if m == 2 {
        if is_leap_year(y) { 29 } else { 28 }
    } else if m == 4 || m == 6 || m == 9 || m == 11 {
        30
    } else {
        31
    }
}

/// `(y, m, d)` names a day of the proleptic Gregorian calendar.
pub open spec fn is_valid_date(y: int, m: int, d: int) -> bool {
    1 <= m <= 12 && 1 <= d <= days_in_month(y, m)
}

/// Number of leap years among the years `1..=n` (extended to all integers
/// by floor division, so that it steps by one exactly at leap years).
pub open spec fn leap_years_through(n: int) -> int {
    n / 4 - n / 100 + n / 400
}

/// Days from 1970-01-01 to January 1st of year `y` (negative before 1970).
pub open spec fn days_before_year(y: int) -> int {
    365 * (y - 1970) + leap_years_through(y - 1) - leap_years_through(1969)
}

/// Days from January 1st of year `y` to the first day of month `m`.
pub open spec fn days_before_month(y: int, m: int) -> int {
    let base = if m == 1 {
        0int
    } else if m == 2 {
        31
    } else if m == 3 {
        59
    } else if m == 4 {
        90
    } else if m == 5 {
        120
    } else if m == 6 {
        151
    } else if m == 7 {
        181
    } else if m == 8 {
        212
    } else if m == 9 {
        243
    } else if m == 10 {
        273
    } else if m == 11 {
        304
    } else {
        334
    };
    base + if m > 2 && is_leap_year(y) { 1int } else { 0int }
}

/// Day number of the date `(y, m, d)`, counted from 1970-01-01 (day 0).
pub open spec fn days_from_civil(y: int, m: int, d: int) -> int {
    days_before_year(y) + days_before_month(y, m) + d - 1
}

/// The calendar date that falls `days` days after 1970-01-01.
pub open spec fn civil_from_days(days: int) -> (int, int, int) {
    choose|ymd: (int, int, int)|
        is_valid_date(ymd.0, ymd.1, ymd.2) && days_from_civil(ymd.0, ymd.1, ymd.2) == days
}

/// Days from 0000-03-01 to the March 1st that starts year `k` of a
/// 400-year era, for `0 <= k <= 400`.
spec fn era_year_start(k: int) -> int {
    365 * k + k / 4 - k / 100 + k / 400
}

#[verifier::spinoff_prover]
#[verifier::rlimit(40)]
proof fn lemma_year_of_era(doe: int)
    requires
        0 <= doe < 146097,
    ensures
        ({
            let yoe = (doe - doe / 1460 + doe / 36524 - doe / 146096) / 365;
            &&& 0 <= yoe < 400
            &&& era_year_start(yoe) <= doe < era_year_start(yoe + 1)
        }),
{
}

#[verifier::spinoff_prover]
proof fn lemma_leap_step(y: int)
    ensures
        leap_years_through(y) - leap_years_through(y - 1) == if is_leap_year(y) { 1int } else { 0int },
{
}

/// The day number of a date, written with years that start on March 1st.
proof fn lemma_march_form(y: int, m: int, d: int)
    requires
        1 <= m <= 12,
    ensures
        ({
            let yp = if m <= 2 { y - 1 } else { y };
            let mp = if m > 2 { m - 3 } else { m + 9 };
            days_from_civil(y, m, d) == 365 * yp + yp / 4 - yp / 100 + yp / 400 + (153 * mp + 2) / 5
                + d - 1 - 719468
        }),
{
    lemma_leap_step(y);
}


/// Day `doy` (0 = March 1st) of a March-based year: month offset `mp`
/// (0 = March) and day of month, for a year of `len` days.
proof fn lemma_day_of_year(doy: int, len: int)
    requires
        len == 365 || len == 366,
        0 <= doy < len,
    ensures
        ({
            let mp = (5 * doy + 2) / 153;
            let d = doy - (153 * mp + 2) / 5 + 1;
            let m = if mp < 10 { mp + 3 } else { mp - 9 };
            &&& 0 <= mp < 12
            &&& 1 <= d
            &&& m == 2 ==> d <= len - 337
            &&& (m == 4 || m == 6 || m == 9 || m == 11) ==> d <= 30
            &&& d <= 31
        }),
{
}

/// Every day number names a valid date (constructed as in Hinnant's
/// `civil_from_days`).
#[verifier::spinoff_prover]
#[verifier::rlimit(60)]
proof fn lemma_civil_witness(days: int)
    ensures
        ({
            let z = days + 719468;
            let era = z / 146097;
            let doe = z - era * 146097;
            let yoe = (doe - doe / 1460 + doe / 36524 - doe / 146096) / 365;
            let doy = doe - (365 * yoe + yoe / 4 - yoe / 100);
            let mp = (5 * doy + 2) / 153;
            let d = doy - (153 * mp + 2) / 5 + 1;
            let m = if mp < 10 { mp + 3 } else { mp - 9 };
            let y = yoe + era * 400 + if m <= 2 { 1int } else { 0int };
            &&& 0 <= doe < 146097
            &&& 0 <= yoe < 400
            &&& 0 <= doy < 366
            &&& is_valid_date(y, m, d)
            &&& days_from_civil(y, m, d) == days
        }),
{
    let z = days + 719468;
    let era = z / 146097;
    let doe = z - era * 146097;
    assert(0 <= doe < 146097);
    lemma_year_of_era(doe);
    let yoe = (doe - doe / 1460 + doe / 36524 - doe / 146096) / 365;
    let doy = doe - (365 * yoe + yoe / 4 - yoe / 100);
    let len = era_year_start(yoe + 1) - era_year_start(yoe);
    assert(len == 365 || len == 366);
    lemma_day_of_year(doy, len);
    let mp = (5 * doy + 2) / 153;
    let d = doy - (153 * mp + 2) / 5 + 1;
    let m = if mp < 10 { mp + 3 } else { mp - 9 };
    let y = yoe + era * 400 + if m <= 2 { 1int } else { 0int };
    let yp = yoe + era * 400;
    assert(yp / 4 == yoe / 4 + era * 100);
    assert(yp / 100 == yoe / 100 + era * 4);
    assert(yp / 400 == era);
    assert(len == 366 <==> is_leap_year(yp + 1));
    lemma_march_form(y, m, d);
}


proof fn lemma_days_before_year_step(y: int)
    ensures
        days_before_year(y + 1) == days_before_year(y) + 365 + if is_leap_year(y) { 1int } else { 0int },
{
    lemma_leap_step(y);
}

proof fn lemma_days_before_year_grows(y1: int, y2: int)
    requires
        y1 < y2,
    ensures
        days_before_year(y1 + 1) <= days_before_year(y2),
    decreases y2 - y1,
{
    if y1 + 1 < y2 {
        lemma_days_before_year_grows(y1, y2 - 1);
        lemma_days_before_year_step(y2 - 1);
    }
}

/// Within one year, the day offset of a valid date lies in the year and
/// grows with the date.
proof fn lemma_offset_in_year(y: int, m1: int, d1: int, m2: int, d2: int)
    requires
        is_valid_date(y, m1, d1),
        is_valid_date(y, m2, d2),
    ensures
        0 <= days_before_month(y, m1) + d1 - 1,
        days_before_month(y, m1) + d1 - 1 < 365 + if is_leap_year(y) { 1int } else { 0int },
        (m1 < m2 || (m1 == m2 && d1 < d2)) ==> days_before_month(y, m1) + d1 < days_before_month(y, m2) + d2,
{
}

/// Law: distinct calendar dates have distinct day numbers.
pub proof fn lemma_days_from_civil_injective(y1: int, m1: int, d1: int, y2: int, m2: int, d2: int)
    requires
        is_valid_date(y1, m1, d1),
        is_valid_date(y2, m2, d2),
        days_from_civil(y1, m1, d1) == days_from_civil(y2, m2, d2),
    ensures
        y1 == y2 && m1 == m2 && d1 == d2,
{
    lemma_offset_in_year(y1, m1, d1, m2, d2);
    lemma_offset_in_year(y2, m2, d2, m1, d1);
    lemma_days_before_year_step(y1);
    lemma_days_before_year_step(y2);
    if y1 < y2 {
        lemma_days_before_year_grows(y1, y2);
    } else if y2 < y1 {
        lemma_days_before_year_grows(y2, y1);
    }
}

/// Law: every day number names exactly one calendar date, and
/// `civil_from_days` is the inverse of `days_from_civil`.
pub proof fn lemma_civil_from_days(days: int)
    ensures
        ({
            let (y, m, d) = civil_from_days(days);
            is_valid_date(y, m, d) && days_from_civil(y, m, d) == days
        }),
{
    lemma_civil_witness(days);
    let z = days + 719468;
    let era = z / 146097;
    let doe = z - era * 146097;
    let yoe = (doe - doe / 1460 + doe / 36524 - doe / 146096) / 365;
    let doy = doe - (365 * yoe + yoe / 4 - yoe / 100);
    let mp = (5 * doy + 2) / 153;
    let d = doy - (153 * mp + 2) / 5 + 1;
    let m = if mp < 10 { mp + 3 } else { mp - 9 };
    let y = yoe + era * 400 + if m <= 2 { 1int } else { 0int };
    let w = (y, m, d);
    assert(is_valid_date(w.0, w.1, w.2) && days_from_civil(w.0, w.1, w.2) == days);
}

/// Law: `civil_from_days` undoes `days_from_civil` on valid dates.
pub proof fn lemma_civil_round_trip(y: int, m: int, d: int)
    requires
        is_valid_date(y, m, d),
    ensures
        civil_from_days(days_from_civil(y, m, d)) == (y, m, d),
{
    let days = days_from_civil(y, m, d);
    lemma_civil_from_days(days);
    let c = civil_from_days(days);
    lemma_days_from_civil_injective(c.0, c.1, c.2, y, m, d);
}

/// The date after the valid date `(y, m, d)`.
pub open spec fn next_date(y: int, m: int, d: int) -> (int, int, int) {
    if d < days_in_month(y, m) {
        (y, m, d + 1)
    } else if m < 12 {
        (y, m + 1, 1)
    } else {
        (y + 1, 1, 1)
    }
}

/// Law: every day number names a valid date (month 1 to 12, day within the
/// month's length), and the next day number names the next calendar date.
pub proof fn lemma_next_day(days: int)
    ensures
        ({
            let (y, m, d) = civil_from_days(days);
            &&& is_valid_date(y, m, d)
            &&& civil_from_days(days + 1) == next_date(y, m, d)
        }),
{
    lemma_civil_from_days(days);
    let (y, m, d) = civil_from_days(days);
    let n = next_date(y, m, d);
    if d < days_in_month(y, m) {
    } else if m < 12 {
        assert(days_before_month(y, m + 1) == days_before_month(y, m) + days_in_month(y, m));
    } else {
        lemma_days_before_year_step(y);
    }
    assert(is_valid_date(n.0, n.1, n.2));
    assert(days_from_civil(n.0, n.1, n.2) == days + 1);
    lemma_civil_round_trip(n.0, n.1, n.2);
}

/// Converts a day count since 1970-01-01 into `(year, month, day)`.
/// The year is truncated to 32 bits, as a plain cast would.
pub fn days_to_ymd(days: i64) -> (ymd: (i32, u32, u32))
    requires
        days <= i64::MAX - 719468,
    ensures
        ({
            let (y, m, d) = civil_from_days(days as int);
            ymd.0 == y as i32 && ymd.1 == m && ymd.2 == d
        }),
{
    let z = days + 719468;
    let era = if z >= 0 { z } else { z - 146096 } / 146097;
    proof {
        assert(era == z as int / 146097);
    }
    let doe = (z - era * 146097) as u32;
    let yoe = (doe - doe / 1460 + doe / 36524 - doe / 146096) / 365;
    let y = yoe as i64 + era * 400;
    let doy = doe - (365 * yoe + yoe / 4 - yoe / 100);
    let mp = (5 * doy + 2) / 153;
    let d = doy - (153 * mp + 2) / 5 + 1;
    let m = if mp < 10 { mp + 3 } else { mp - 9 };
    let y = if m <= 2 { y + 1 } else { y };
    proof {
        lemma_civil_witness(days as int);
        lemma_civil_from_days(days as int);
        let c = civil_from_days(days as int);
        lemma_days_from_civil_injective(c.0, c.1, c.2, y as int, m as int, d as int);
    }
    (y as i32, m, d)
}


/// Whole days since 1970-01-01 in a millisecond timestamp: the floor of
/// `ms / 86_400_000`, so that a time before 1970 falls on the day it lies in.
pub open spec fn days_of_millis(ms: int) -> int {
    ms / 86_400_000
}

/// Floor division by a day's milliseconds from the truncating quotient and
/// remainder.
proof fn lemma_floor_days(ms: int, q: int, r: int)
    requires
        ms == q * 86_400_000 + r,
        -86_400_000 < r < 86_400_000,
        ms >= 0 ==> r >= 0,
        ms < 0 ==> r <= 0,
    ensures
        days_of_millis(ms) == if r < 0 { q - 1 } else { q },
{
    if r < 0 {
        assert(ms == (q - 1) * 86_400_000 + (r + 86_400_000));
        vstd::arithmetic::div_mod::lemma_fundamental_div_mod_converse(ms, 86_400_000, q - 1, r + 86_400_000);
    } else {
        vstd::arithmetic::div_mod::lemma_fundamental_div_mod_converse(ms, 86_400_000, q, r);
    }
}

/// The date of a millisecond timestamp written into `format`: every "YYYY"
/// becomes the year (zero-padded to four places), then every "MM" the
/// month and every "DD" the day (two places each).
pub open spec fn formatted_date(ms: int, format: Seq<char>) -> Seq<char> {
    let (y, m, d) = civil_from_days(days_of_millis(ms));
    let with_year = replace_all(format, seq!['Y', 'Y', 'Y', 'Y'], signed_zero_padded((y as i32) as int, 4));
    let with_month = replace_all(with_year, seq!['M', 'M'], zero_padded(decimal((m as u32) as nat), 2));
    replace_all(with_month, seq!['D', 'D'], zero_padded(decimal((d as u32) as nat), 2))
}

/// Renders the calendar date of a millisecond timestamp through a format
/// with `YYYY`, `MM` and `DD` placeholders.
pub fn format_date(ms: i64, format: &str) -> (s: String)
    ensures
        s@ == formatted_date(ms as int, format@),
{
    let q = ms / 86_400_000;
    let r = ms % 86_400_000;
    let days_since_epoch = if r < 0 { q - 1 } else { q };
    proof {
        lemma_floor_days(ms as int, q as int, r as int);
    }
    let (year, month, day) = days_to_ymd(days_since_epoch);
    let fmt = chars_of(format);
    let mut year_text: Vec<char> = Vec::new();
    push_signed_zero_padded(&mut year_text, year as i64, 4);
    let mut month_text: Vec<char> = Vec::new();
    let month_digits = decimal_chars(month as u64);
    push_zero_padded(&mut month_text, &month_digits, 2);
    let mut day_text: Vec<char> = Vec::new();
    let day_digits = decimal_chars(day as u64);
    push_zero_padded(&mut day_text, &day_digits, 2);
    let with_year = replace_chars(&fmt, &vec!['Y', 'Y', 'Y', 'Y'], &year_text);
    let with_month = replace_chars(&with_year, &vec!['M', 'M'], &month_text);
    let with_day = replace_chars(&with_month, &vec!['D', 'D'], &day_text);
    string_from_chars(&with_day)
}

/// A time read from the system clock.
#[verifier::external_type_specification]
#[verifier::external_body]
pub struct ExSystemTime(std::time::SystemTime);

/// `SystemTime::now`: the time of the system clock at the call. Nothing is
/// stated of it.
#[verifier::external_body]
fn clock_now() -> std::time::SystemTime {
    std::time::SystemTime::now()
}

/// `SystemTime::duration_since(UNIX_EPOCH)`: the time elapsed since the
/// Unix epoch, `None` where `t` lies before it. Nothing is stated of the
/// duration.
#[verifier::external_body]
fn since_epoch(t: &std::time::SystemTime) -> Option<std::time::Duration> {
    t.duration_since(std::time::UNIX_EPOCH).ok()
}

/// `Duration::as_millis`: the whole milliseconds of `d`. Nothing is stated
/// of the value: a duration's contents are hidden here.
#[verifier::external_body]
fn whole_millis(d: &std::time::Duration) -> u128 {
    d.as_millis()
}

/// A millisecond count as an `i64`, keeping its low 64 bits as the `as`
/// conversion does.
pub fn millis_to_i64(ms: u128) -> (r: i64)
    ensures
        r == ms as i64,
{
    ms as i64
}

/// The current time in milliseconds since the Unix epoch; `None` where the
/// system clock reads a time before the epoch.
pub fn chrono_now_ms() -> Option<i64> {
    let now = clock_now();
    match since_epoch(&now) {
        Some(d) => Some(millis_to_i64(whole_millis(&d))),
        None => None,
    }
}

} // verus!
