//! The proleptic Gregorian calendar, as far as the scheduler needs it: which
//! dates exist, the number of each day, and its weekday. The arithmetic itself
//! is chrono's.
use vstd::prelude::*;
use chrono::Datelike;
use crate::contract::{Date, Time, Weekday};

verus! {

pub open spec fn is_leap_year(y: int) -> bool {
    y % 4 == 0 && (y % 100 != 0 || y % 400 == 0)
}

pub open spec fn days_in_month(y: int, m: int) -> int {
    if m == 2 {
        if is_leap_year(y) { 29 } else { 28 }
    } else if m == 4 || m == 6 || m == 9 || m == 11 {
        30
    } else {
        31
    }
}

/// The date names a real day of the calendar.
pub open spec fn is_valid_date(d: Date) -> bool {
    1 <= d.month <= 12 && 1 <= d.day <= days_in_month(d.year as int, d.month as int)
}

/// The last day that a `Date` can hold.
pub open spec fn is_last_date(d: Date) -> bool {
    d.year == 65535 && d.month == 12 && d.day == 31
}

/// Days of the year `y` before the first of month `m`.
pub open spec fn days_before_month(y: int, m: int) -> int {
    let common: int = if m <= 1 { 0 }
        else if m == 2 { 31 }
        else if m == 3 { 59 }
        else if m == 4 { 90 }
        else if m == 5 { 120 }
        else if m == 6 { 151 }
        else if m == 7 { 181 }
        else if m == 8 { 212 }
        else if m == 9 { 243 }
        else if m == 10 { 273 }
        else if m == 11 { 304 }
        else { 334 };
    if m > 2 && is_leap_year(y) { common + 1 } else { common }
}

/// The number of a day, counting January 1 of year 1 as day 1 (and earlier days
/// as 0, -1, ...).
pub open spec fn day_number(d: Date) -> int {
    let p = d.year - 1;
    365 * p + p / 4 - p / 100 + p / 400 + days_before_month(d.year as int, d.month as int)
        + d.day
}

/// Day 1 is a Monday; the weekdays repeat every seven days.
pub open spec fn weekday_of_number(n: int) -> Weekday {
    let r = n % 7;
    if r == 0 { Weekday::Sunday }
    else if r == 1 { Weekday::Monday }
    else if r == 2 { Weekday::Tuesday }
    else if r == 3 { Weekday::Wednesday }
    else if r == 4 { Weekday::Thursday }
    else if r == 5 { Weekday::Friday }
    else { Weekday::Saturday }
}

/// The number lies between the numbers of two real dates.
pub open spec fn between_dates(n: int) -> bool {
    exists|a: Date, b: Date|
        is_valid_date(a) && is_valid_date(b) && day_number(a) <= n <= day_number(b)
}

/// The real date whose number is `n`.
pub open spec fn date_of_number(n: int) -> Date {
    choose|d: Date| is_valid_date(d) && day_number(d) == n
}

pub open spec fn is_valid_time(t: Time) -> bool {
    t.hour < 24 && t.min < 60
}

/// Relies on chrono's `NaiveDate::from_ymd_opt`, which accepts exactly the real
/// dates (every `u16` year lies in its range), and on `Datelike::num_days_from_ce`,
/// which numbers the days as `day_number` does.
#[verifier::external_body]
pub(crate) fn calendar_day(d: Date) -> (r: Option<i32>)
    ensures
        r.is_some() == is_valid_date(d),
        r matches Some(n) ==> n as int == day_number(d),
{
    match chrono::NaiveDate::from_ymd_opt(d.year as i32, d.month as u32, d.day as u32) {
        Some(nd) => Some(nd.num_days_from_ce()),
        None => None,
    }
}

/// Relies on chrono's `NaiveDate::from_num_days_from_ce_opt` and the `Datelike`
/// getters: the date that has the number `n`. A number between those of two real
/// dates has one, and its year fits a `u16`.
#[verifier::external_body]
pub(crate) fn date_of_day(n: i32) -> (r: Date)
    requires
        between_dates(n as int),
    ensures
        r == date_of_number(n as int),
        is_valid_date(r),
        day_number(r) == n as int,
{
    let nd = chrono::NaiveDate::from_num_days_from_ce_opt(n).unwrap();
    Date { year: nd.year() as u16, month: nd.month() as u8, day: nd.day() as u8 }
}

/// Relies on chrono's `Datelike::weekday` of the date numbered `n`.
#[verifier::external_body]
pub(crate) fn weekday_of_day(n: i32) -> (r: Weekday)
    requires
        between_dates(n as int),
    ensures
        r == weekday_of_number(n as int),
{
    match chrono::NaiveDate::from_num_days_from_ce_opt(n).unwrap().weekday() {
        chrono::Weekday::Sun => Weekday::Sunday,
        chrono::Weekday::Mon => Weekday::Monday,
        chrono::Weekday::Tue => Weekday::Tuesday,
        chrono::Weekday::Wed => Weekday::Wednesday,
        chrono::Weekday::Thu => Weekday::Thursday,
        chrono::Weekday::Fri => Weekday::Friday,
        chrono::Weekday::Sat => Weekday::Saturday,
    }
}

/// Whether `d` is the last day that a `Date` can hold, so that the day after it
/// has no `Date`.
pub fn is_final_date(d: Date) -> (r: bool)
    ensures
        r == is_last_date(d),
{
    d.year == 65535 && d.month == 12 && d.day == 31
}

/// Relies on chrono's `NaiveTime::from_hms_opt`, which accepts an hour below 24
/// and a minute below 60 (second 0).
#[verifier::external_body]
pub(crate) fn is_time_of_day(t: Time) -> (r: bool)
    ensures
        r == is_valid_time(t),
{
    chrono::NaiveTime::from_hms_opt(t.hour as u32, t.min as u32, 0).is_some()
}

} // verus!
