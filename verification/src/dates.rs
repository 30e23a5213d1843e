//! Plain calendar dates: month names, month lengths, and validation of
//! year/month/day triples.

use vstd::prelude::*;

use crate::calendar::Month;
use crate::text::chars_eq_lit;

verus! {

/// A calendar date, already validated against month lengths and leap years.
#[derive(Clone, Copy, Debug, PartialEq, Eq, Structural)]
pub struct Date {
    pub year: i32,
    pub month: Month,
    pub day: u8,
}

/// Whether `y` is a leap year of the proleptic Gregorian calendar.
pub open spec fn spec_is_leap_year(y: int) -> bool {
    y % 4 == 0 && (y % 100 != 0 || y % 400 == 0)
}

/// Runtime test for [`spec_is_leap_year`].
pub fn is_leap_year(y: i32) -> (r: bool)
    ensures
        r == spec_is_leap_year(y as int),
{
    y % 4 == 0 && (y % 100 != 0 || y % 400 == 0)
}

/// How many days month `m` of year `y` has.
pub open spec fn spec_days_in_month(y: int, m: Month) -> int {
    match m {
        Month::January => 31,
        Month::February => if spec_is_leap_year(y) {
            29
        } else {
            28
        },
        Month::March => 31,
        Month::April => 30,
        Month::May => 31,
        Month::June => 30,
        Month::July => 31,
        Month::August => 31,
        Month::September => 30,
        Month::October => 31,
        Month::November => 30,
        Month::December => 31,
    }
}

/// Computes [`spec_days_in_month`].
pub fn days_in_month(y: i32, m: Month) -> (r: u8)
    ensures
        r == spec_days_in_month(y as int, m),
{
    match m {
        Month::January => 31,
        Month::February => if is_leap_year(y) {
            29
        } else {
            28
        },
        Month::March => 31,
        Month::April => 30,
        Month::May => 31,
        Month::June => 30,
        Month::July => 31,
        Month::August => 31,
        Month::September => 30,
        Month::October => 31,
        Month::November => 30,
        Month::December => 31,
    }
}

/// A valid calendar date: the year within four digits either way, the day
/// within the month's length.
pub open spec fn spec_valid_date(y: int, m: Month, d: int) -> bool {
    -9999 <= y <= 9999 && 1 <= d <= spec_days_in_month(y, m)
}

impl Date {
    /// The date for the given parts, or nothing when they do not name a
    /// valid calendar date.
    pub fn from_calendar_date(year: i32, month: Month, day: u8) -> (r: Option<Date>)
        ensures
            spec_valid_date(year as int, month, day as int) ==> r == Some(
                Date { year, month, day },
            ),
            !spec_valid_date(year as int, month, day as int) ==> r is None,
    {
        if year < -9999 || year > 9999 {
            return None;
        }
        if day < 1 || day > days_in_month(year, month) {
            return None;
        }
        Some(Date { year, month, day })
    }
}

/// The full English name of month `m`.
pub open spec fn spec_month_name(m: Month) -> Seq<char> {
    match m {
        Month::January => "January"@,
        Month::February => "February"@,
        Month::March => "March"@,
        Month::April => "April"@,
        Month::May => "May"@,
        Month::June => "June"@,
        Month::July => "July"@,
        Month::August => "August"@,
        Month::September => "September"@,
        Month::October => "October"@,
        Month::November => "November"@,
        Month::December => "December"@,
    }
}

/// The month whose full English name `s` is, if any: the reading that
/// `Month::from_str` of the `time` crate gives such a string.
pub open spec fn spec_month_of_name(s: Seq<char>) -> Option<Month> {
    if s == spec_month_name(Month::January) {
        Some(Month::January)
    } else if s == spec_month_name(Month::February) {
        Some(Month::February)
    } else if s == spec_month_name(Month::March) {
        Some(Month::March)
    } else if s == spec_month_name(Month::April) {
        Some(Month::April)
    } else if s == spec_month_name(Month::May) {
        Some(Month::May)
    } else if s == spec_month_name(Month::June) {
        Some(Month::June)
    } else if s == spec_month_name(Month::July) {
        Some(Month::July)
    } else if s == spec_month_name(Month::August) {
        Some(Month::August)
    } else if s == spec_month_name(Month::September) {
        Some(Month::September)
    } else if s == spec_month_name(Month::October) {
        Some(Month::October)
    } else if s == spec_month_name(Month::November) {
        Some(Month::November)
    } else if s == spec_month_name(Month::December) {
        Some(Month::December)
    } else {
        None
    }
}

/// Computes [`spec_month_of_name`] of the characters in `w`.
pub fn month_of_name(w: &Vec<char>) -> (r: Option<Month>)
    ensures
        r == spec_month_of_name(w@),
{
    if chars_eq_lit(w, "January") {
        Some(Month::January)
    } else if chars_eq_lit(w, "February") {
        Some(Month::February)
    } else if chars_eq_lit(w, "March") {
        Some(Month::March)
    } else if chars_eq_lit(w, "April") {
        Some(Month::April)
    } else if chars_eq_lit(w, "May") {
        Some(Month::May)
    } else if chars_eq_lit(w, "June") {
        Some(Month::June)
    } else if chars_eq_lit(w, "July") {
        Some(Month::July)
    } else if chars_eq_lit(w, "August") {
        Some(Month::August)
    } else if chars_eq_lit(w, "September") {
        Some(Month::September)
    } else if chars_eq_lit(w, "October") {
        Some(Month::October)
    } else if chars_eq_lit(w, "November") {
        Some(Month::November)
    } else if chars_eq_lit(w, "December") {
        Some(Month::December)
    } else {
        None
    }
}

} // verus!
