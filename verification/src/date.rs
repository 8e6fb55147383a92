//! Proleptic Gregorian calendar: days since 1970-01-01 to civil dates.
use vstd::prelude::*;

use crate::text::{push_char, push_zero_padded, zero_padded};

verus! {

/// Leap years of the Gregorian calendar.
pub open spec fn is_leap_year(y: int) -> bool {
    y % 4 == 0 && (y % 100 != 0 || y % 400 == 0)
}

/// The days of year `y`.
pub open spec fn days_in_year(y: int) -> int {
    if is_leap_year(y) { 366 } else { 365 }
}

/// The days of month `m` of year `y`.
pub open spec fn days_in_month(y: int, m: int) -> int {
    if m == 2 {
        if is_leap_year(y) { 29 } else { 28 }
    } else if m == 4 || m == 6 || m == 9 || m == 11 {
        30
    } else {
        31
    }
}

/// A year, a month in 1..=12 and a day that the month has.
pub open spec fn is_valid_date(y: int, m: int, d: int) -> bool {
    1 <= m <= 12 && 1 <= d <= days_in_month(y, m)
}

/// How many of the years before `y` (counting from year 1) are leap years;
/// for earlier years the same expression counts backwards, so that the
/// difference between two years always counts the leap years between them.
pub open spec fn leap_years_before(y: int) -> int {
    (y - 1) / 4 - (y - 1) / 100 + (y - 1) / 400
}

/// Days from 1970-01-01 to January 1st of year `y` (negative before 1970).
pub open spec fn days_before_year(y: int) -> int {
    365 * (y - 1970) + leap_years_before(y) - leap_years_before(1970)
}

/// Days from January 1st to the first day of month `m` of year `y`.
pub open spec fn days_before_month(y: int, m: int) -> int {
    let leap: int = if is_leap_year(y) { 1 } else { 0 };
    if m <= 1 {
        0
    } else if m == 2 {
        31
    } else if m == 3 {
        59 + leap
    } else if m == 4 {
        90 + leap
    } else if m == 5 {
        120 + leap
    } else if m == 6 {
        151 + leap
    } else if m == 7 {
        181 + leap
    } else if m == 8 {
        212 + leap
    } else if m == 9 {
        243 + leap
    } else if m == 10 {
        273 + leap
    } else if m == 11 {
        304 + leap
    } else {
        334 + leap
    }
}

/// The number of the day `y-m-d` counted from 1970-01-01 (day 0).
pub open spec fn days_from_civil(y: int, m: int, d: int) -> int {
    days_before_year(y) + days_before_month(y, m) + d - 1
}

/// Day 0 is 1970-01-01.
pub proof fn lemma_epoch()
    ensures
        days_from_civil(1970, 1, 1) == 0,
{
}

/// Each year adds as many days as it has: the closed form of
/// `days_before_year` counts the days of the years in between.
pub proof fn lemma_days_before_next_year(y: int)
    ensures
        days_before_year(y + 1) == days_before_year(y) + days_in_year(y),
{
}

/// Each month adds as many days as it has.
pub proof fn lemma_days_before_next_month(y: int, m: int)
    requires
        1 <= m < 12,
    ensures
        days_before_month(y, m + 1) == days_before_month(y, m) + days_in_month(y, m),
{
}

/// The day after `y-m-d` in the calendar.
pub open spec fn next_day(y: int, m: int, d: int) -> (int, int, int) {
    if d < days_in_month(y, m) {
        (y, m, d + 1)
    } else if m < 12 {
        (y, m + 1, 1)
    } else {
        (y + 1, 1, 1)
    }
}

/// Consecutive dates have consecutive day numbers.
pub proof fn lemma_next_day(y: int, m: int, d: int)
    requires
        is_valid_date(y, m, d),
    ensures
        is_valid_date(next_day(y, m, d).0, next_day(y, m, d).1, next_day(y, m, d).2),
        days_from_civil(next_day(y, m, d).0, next_day(y, m, d).1, next_day(y, m, d).2)
            == days_from_civil(y, m, d) + 1,
{
    if d < days_in_month(y, m) {
    } else if m < 12 {
        lemma_days_before_next_month(y, m);
    } else {
        lemma_days_before_next_year(y);
    }
}

proof fn lemma_year_bounds(y: int, m: int, d: int)
    requires
        is_valid_date(y, m, d),
    ensures
        days_before_year(y) <= days_from_civil(y, m, d) < days_before_year(y + 1),
{
    lemma_days_before_next_year(y);
}

proof fn lemma_days_before_year_monotone(a: int, b: int)
    requires
        a < b,
    ensures
        days_before_year(a + 1) <= days_before_year(b),
    decreases b - a,
{
    if a + 1 < b {
        lemma_days_before_year_monotone(a, b - 1);
        lemma_days_before_next_year(b - 1);
    }
}

/// Two valid dates with the same day number are the same date, so the
/// day number of a date determines it.
pub proof fn lemma_days_from_civil_injective(y1: int, m1: int, d1: int, y2: int, m2: int, d2: int)
    requires
        is_valid_date(y1, m1, d1),
        is_valid_date(y2, m2, d2),
        days_from_civil(y1, m1, d1) == days_from_civil(y2, m2, d2),
    ensures
        y1 == y2 && m1 == m2 && d1 == d2,
{
    lemma_year_bounds(y1, m1, d1);
    lemma_year_bounds(y2, m2, d2);
    if y1 < y2 {
        lemma_days_before_year_monotone(y1, y2);
    } else if y2 < y1 {
        lemma_days_before_year_monotone(y2, y1);
    }
    assert(y1 == y2);
}

/// Days before March-based year `k` of a 400-year era (years start on March 1st).
spec fn march_days_before(k: int) -> int {
    365 * k + k / 4 - k / 100
}

/// Days before month `mp` of a March-based year (0 is March, 11 is February).
spec fn march_days_before_month(mp: int) -> int {
    (153 * mp + 2) / 5
}

proof fn lemma_year_of_era(doe: int, yoe: int)
    requires
        0 <= doe < 146097,
        yoe == (doe - doe / 1460 + doe / 36524 - doe / 146096) / 365,
    ensures
        0 <= yoe <= 399,
        march_days_before(yoe) <= doe,
        doe - march_days_before(yoe) < 365 + (if is_leap_year(yoe + 1) { 1int } else { 0int }),
{
}

proof fn lemma_month_of_year(doy: int, mp: int, leap: bool)
    requires
        0 <= doy < 365 + (if leap { 1int } else { 0int }),
        mp == (5 * doy + 2) / 153,
    ensures
        0 <= mp <= 11,
        march_days_before_month(mp) <= doy,
        doy - march_days_before_month(mp) < (if mp == 11 {
            if leap { 29int } else { 28int }
        } else if mp == 1 || mp == 3 || mp == 6 || mp == 8 {
            30int
        } else {
            31int
        }),
        mp == 0 ==> march_days_before_month(mp) == 0,
        mp == 1 ==> march_days_before_month(mp) == 31,
        mp == 2 ==> march_days_before_month(mp) == 61,
        mp == 3 ==> march_days_before_month(mp) == 92,
        mp == 4 ==> march_days_before_month(mp) == 122,
        mp == 5 ==> march_days_before_month(mp) == 153,
        mp == 6 ==> march_days_before_month(mp) == 184,
        mp == 7 ==> march_days_before_month(mp) == 214,
        mp == 8 ==> march_days_before_month(mp) == 245,
        mp == 9 ==> march_days_before_month(mp) == 275,
        mp == 10 ==> march_days_before_month(mp) == 306,
        mp == 11 ==> march_days_before_month(mp) == 337,
{
}

proof fn lemma_era_shift(era: int, yoe: int)
    requires
        0 <= yoe <= 399,
    ensures
        leap_years_before(400 * era + yoe + 1) == 97 * era + yoe / 4 - yoe / 100,
        is_leap_year(400 * era + yoe + 1) == is_leap_year(yoe + 1),
        is_leap_year(400 * era + yoe) == is_leap_year(yoe),
{
    assert((400 * era + yoe) / 4 == 100 * era + yoe / 4) by (nonlinear_arith)
        requires 0 <= yoe <= 399;
    assert((400 * era + yoe) / 100 == 4 * era + yoe / 100) by (nonlinear_arith)
        requires 0 <= yoe <= 399;
    assert((400 * era + yoe) / 400 == era) by (nonlinear_arith)
        requires 0 <= yoe <= 399;
    assert((400 * era + yoe + 1) % 4 == (yoe + 1) % 4) by (nonlinear_arith)
        requires 0 <= yoe <= 399;
    assert((400 * era + yoe + 1) % 100 == (yoe + 1) % 100) by (nonlinear_arith)
        requires 0 <= yoe <= 399;
    assert((400 * era + yoe + 1) % 400 == (yoe + 1) % 400) by (nonlinear_arith)
        requires 0 <= yoe <= 399;
    assert((400 * era + yoe) % 4 == yoe % 4) by (nonlinear_arith)
        requires 0 <= yoe <= 399;
    assert((400 * era + yoe) % 100 == yoe % 100) by (nonlinear_arith)
        requires 0 <= yoe <= 399;
    assert((400 * era + yoe) % 400 == yoe % 400) by (nonlinear_arith)
        requires 0 <= yoe <= 399;
}

proof fn lemma_civil_of_era(zs: int, era: int, doe: int, yoe: int, doy: int, mp: int)
    requires
        zs == 146_097 * era + doe,
        0 <= doe < 146_097,
        yoe == (doe - doe / 1460 + doe / 36524 - doe / 146096) / 365,
        doy == doe - march_days_before(yoe),
        mp == (5 * doy + 2) / 153,
    ensures
        ({
            let d = doy - march_days_before_month(mp) + 1;
            let m = if mp < 10 { mp + 3 } else { mp - 9 };
            let y = if m <= 2 { 400 * era + yoe + 1 } else { 400 * era + yoe };
            &&& 0 <= yoe <= 399
            &&& 0 <= doy <= 365
            &&& 0 <= mp <= 11
            &&& is_valid_date(y, m, d)
            &&& days_from_civil(y, m, d) == zs - 719_468
        }),
{
    lemma_year_of_era(doe, yoe);
    lemma_month_of_year(doy, mp, is_leap_year(yoe + 1));
    lemma_era_shift(era, yoe);
    lemma_days_before_next_year(400 * era + yoe);
    assert(365 * (400 * era + yoe) == 146_000 * era + 365 * yoe) by (nonlinear_arith);
}

/// The civil date of day `z` counted from 1970-01-01 (H. Hinnant's algorithm):
/// the one valid date whose day number is `z`.
pub fn civil_from_days(z: i64) -> (r: (i64, u32, u32))
    requires
        z <= i64::MAX - 719_468,
    ensures
        is_valid_date(r.0 as int, r.1 as int, r.2 as int),
        days_from_civil(r.0 as int, r.1 as int, r.2 as int) == z as int,
{
    let z = z + 719_468;
    let era = z.checked_div_euclid(146_097).unwrap();
    let doe_i = z.checked_rem_euclid(146_097).unwrap();
    assert(z as int == 146_097 * era + doe_i) by (nonlinear_arith)
        requires era == (z as int) / 146_097, doe_i == (z as int) % 146_097;
    let doe = doe_i as u64;
    let yoe = (doe - doe / 1460 + doe / 36_524 - doe / 146_096) / 365;
    proof {
        lemma_year_of_era(doe as int, yoe as int);
    }
    let y = yoe as i64 + era * 400;
    let doy = doe - (365 * yoe + yoe / 4 - yoe / 100);
    let mp = (5 * doy + 2) / 153;
    proof {
        lemma_civil_of_era(z as int, era as int, doe as int, yoe as int, doy as int, mp as int);
    }
    let d = (doy - (153 * mp + 2) / 5 + 1) as u32;
    let m = (if mp < 10 { mp + 3 } else { mp - 9 }) as u32;
    let y = if m <= 2 { y + 1 } else { y };
    (y, m, d)
}

/// The date whose day number is `z`.
pub open spec fn date_of_day(z: int) -> (int, int, int) {
    choose|t: (int, int, int)| is_valid_date(t.0, t.1, t.2) && days_from_civil(t.0, t.1, t.2) == z
}

/// Every day number names exactly one valid date.
pub proof fn lemma_date_of_day(z: int)
    ensures
        is_valid_date(date_of_day(z).0, date_of_day(z).1, date_of_day(z).2),
        days_from_civil(date_of_day(z).0, date_of_day(z).1, date_of_day(z).2) == z,
{
    let zs = z + 719_468;
    let era = zs / 146_097;
    let doe = zs % 146_097;
    let yoe = (doe - doe / 1460 + doe / 36524 - doe / 146096) / 365;
    let doy = doe - march_days_before(yoe);
    let mp = (5 * doy + 2) / 153;
    lemma_civil_of_era(zs, era, doe, yoe, doy, mp);
    let d = doy - march_days_before_month(mp) + 1;
    let m = if mp < 10 { mp + 3 } else { mp - 9 };
    let y = if m <= 2 { 400 * era + yoe + 1 } else { 400 * era + yoe };
    assert(is_valid_date((y, m, d).0, (y, m, d).1, (y, m, d).2));
}

/// The day after day `z` is the calendar's next day: day numbers count the
/// calendar's days one by one.
pub proof fn lemma_next_date(z: int)
    ensures
        date_of_day(z + 1) == next_day(date_of_day(z).0, date_of_day(z).1, date_of_day(z).2),
{
    let t = date_of_day(z);
    lemma_date_of_day(z);
    lemma_date_of_day(z + 1);
    lemma_next_day(t.0, t.1, t.2);
    let n = next_day(t.0, t.1, t.2);
    let u = date_of_day(z + 1);
    lemma_days_from_civil_injective(u.0, u.1, u.2, n.0, n.1, n.2);
}

/// A year as `{:04}` writes an integer: zero padding to four characters,
/// the sign counted among them.
pub open spec fn year_text(y: int) -> Seq<char> {
    if y < 0 {
        seq!['-'] + zero_padded((-y) as nat, 3)
    } else {
        zero_padded(y as nat, 4)
    }
}

/// `YYYY-MM-DD`.
pub open spec fn date_text(y: int, m: int, d: int) -> Seq<char> {
    year_text(y) + seq!['-'] + zero_padded(m as nat, 2) + seq!['-'] + zero_padded(d as nat, 2)
}

/// The UTC date, as text, of the instant `secs` seconds after the epoch.
pub open spec fn utc_date_text(secs: int) -> Seq<char> {
    let t = date_of_day(secs / 86400);
    date_text(t.0, t.1, t.2)
}

/// The UTC date of the instant `secs` seconds after 1970-01-01T00:00:00Z, as `YYYY-MM-DD`.
pub fn date_text_of_secs(secs: i64) -> (r: String)
    ensures
        r@ == utc_date_text(secs as int),
{
    let days = secs.checked_div_euclid(86_400).unwrap();
    assert(days <= i64::MAX - 719_468) by (nonlinear_arith)
        requires days == secs as int / 86_400, secs <= i64::MAX;
    let (y, m, d) = civil_from_days(days);
    proof {
        let t = date_of_day(days as int);
        assert(is_valid_date(y as int, m as int, d as int) && days_from_civil(
            y as int,
            m as int,
            d as int,
        ) == days as int);
        lemma_days_from_civil_injective(t.0, t.1, t.2, y as int, m as int, d as int);
    }
    let mut r = String::new();
    if y < 0 {
        let a: u64 = (-(y + 1)) as u64 + 1;
        push_char(&mut r, '-');
        push_zero_padded(&mut r, a, 3);
    } else {
        push_zero_padded(&mut r, y as u64, 4);
    }
    push_char(&mut r, '-');
    push_zero_padded(&mut r, m as u64, 2);
    push_char(&mut r, '-');
    push_zero_padded(&mut r, d as u64, 2);
    proof {
        assert(r@ =~= date_text(y as int, m as int, d as int));
    }
    r
}

/// `UNIX_EPOCH.elapsed()`: the time from the Unix epoch to the clock's present
/// reading, or `None` where the clock stands before the epoch. Nothing is stated
/// of the value: it is read from the clock.
#[verifier::external_body]
fn elapsed_since_epoch() -> Option<std::time::Duration> {
    std::time::UNIX_EPOCH.elapsed().ok()
}

/// `Duration::as_secs`: the whole seconds of a duration. Nothing is stated of
/// the value: a `Duration` is opaque here.
#[verifier::external_body]
fn whole_seconds(d: &std::time::Duration) -> u64 {
    d.as_secs()
}

/// The seconds that a clock reading stands for: the whole seconds since the
/// epoch, taken as an `i64` (as `as` takes them), or 0 for a reading before
/// the epoch.
pub open spec fn clock_seconds(reading: Option<u64>) -> i64 {
    match reading {
        Some(s) => s as i64,
        None => 0,
    }
}

/// The UTC date, as `YYYY-MM-DD`, of a clock reading given as the whole
/// seconds since the epoch (`None` for a reading before the epoch, which
/// counts as the epoch itself).
pub fn date_text_of_clock(reading: Option<u64>) -> (r: String)
    ensures
        r@ == utc_date_text(clock_seconds(reading) as int),
{
    let secs: i64 = match reading {
        Some(s) => s as i64,
        None => 0,
    };
    date_text_of_secs(secs)
}

/// Today's UTC date as `YYYY-MM-DD`: the date of the clock's reading, as
/// `date_text_of_clock` gives it.
pub fn today_utc() -> (r: String)
    ensures
        exists|reading: Option<u64>| r@ == utc_date_text(clock_seconds(reading) as int),
{
    let reading = match elapsed_since_epoch() {
        Some(d) => Some(whole_seconds(&d)),
        None => None,
    };
    date_text_of_clock(reading)
}

} // verus!
