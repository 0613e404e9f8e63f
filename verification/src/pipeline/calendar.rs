//! From a calendar date and a time of day to an instant.

use vstd::prelude::*;
use chrono::offset::LocalResult;
use chrono::{TimeZone, Utc};

verus! {

/// The seconds from 1970-01-01T00:00:00Z to the start of the given minute of
/// the given day, in UTC and in the Gregorian calendar run backwards and
/// forwards without end, as the `chrono` crate counts them; `None` where it
/// knows no such minute.
pub uninterp spec fn civil_timestamp(
    year: i32,
    month: u32,
    day: u32,
    hour: u32,
    minute: u32,
) -> Option<i64>;

/// The year has a 29th of February.
pub open spec fn is_leap_year(year: int) -> bool {
    year % 4 == 0 && (year % 100 != 0 || year % 400 == 0)
}

/// The number of days of a month, and 0 of a month that is none.
pub open spec fn days_in_month(year: int, month: int) -> int {
    if month == 2 {
        if is_leap_year(year) {
            29
        } else {
            28
        }
    } else if month == 4 || month == 6 || month == 9 || month == 11 {
        30
    } else if 1 <= month <= 12 {
        31
    } else {
        0
    }
}

/// The day is one of the calendar and the minute one of that day.
pub open spec fn is_civil_minute(year: int, month: int, day: int, hour: int, minute: int) -> bool {
    &&& 1 <= day <= days_in_month(year, month)
    &&& 0 <= hour < 24
    &&& 0 <= minute < 60
}

/// Calls `chrono`'s `TimeZone::with_ymd_and_hms` on `Utc`, with 0 for the
/// seconds, and hands back the `DateTime::timestamp` of the instant it made.
///
/// Trusted, not proved: that the result depends on the five numbers alone,
/// and that, for a year of four digits, `chrono` makes an instant exactly
/// where the day exists and the hour and minute are ones of a day.
#[verifier::external_body]
pub(crate) fn utc_timestamp(
    year: i32,
    month: u32,
    day: u32,
    hour: u32,
    minute: u32,
) -> (seconds: Option<i64>)
    requires
        0 <= year <= 9999,
    ensures
        seconds == civil_timestamp(year, month, day, hour, minute),
        seconds is Some <==> is_civil_minute(
            year as int,
            month as int,
            day as int,
            hour as int,
            minute as int,
        ),
{
    match Utc.with_ymd_and_hms(year, month, day, hour, minute, 0) {
        LocalResult::Single(instant) => Some(instant.timestamp()),
        LocalResult::Ambiguous(_, _) => None,
        LocalResult::None => None,
    }
}

} // verus!
