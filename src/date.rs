//! Calendar dates as day numbers, and durations in whole seconds.

use chrono::Datelike;
use vstd::prelude::*;

verus! {

/// The number of seconds in one day.
pub const SECONDS_PER_DAY: i64 = 86400;

/// The day number (days since the start of the common era, with
/// 0001-01-01 as day 1) of a valid calendar date, as chrono counts them.
pub uninterp spec fn ce_day_of(year: i32, month: u32, day: u32) -> Option<i32>;

/// A calendar date, held as its day number: 0001-01-01 is day 1, and
/// consecutive dates have consecutive numbers.
#[derive(Debug, Clone, Copy, PartialEq, Eq, Hash, PartialOrd, Ord, Structural)]
pub struct Date {
    /// The day number.
    pub day: i32,
}

impl Date {
    /// The date of the given year, month (1 to 12) and day of the month, or
    /// `None` where no such date exists or it lies outside chrono's range.
    pub fn from_ymd(year: i32, month: u32, day: u32) -> (r: Option<Date>)
        ensures
            r == (match ce_day_of(year, month, day) {
                Some(d) => Some(Date { day: d }),
                None => None::<Date>,
            }),
    {
        match ce_day(year, month, day) {
            Some(d) => Some(Date { day: d }),
            None => None,
        }
    }
}

/// Relies on chrono's `NaiveDate::from_ymd_opt` and `Datelike::num_days_from_ce`:
/// the day number of a valid date; no date for a month outside 1 to 12 or a
/// day outside 1 to 31.
#[verifier::external_body]
fn ce_day(year: i32, month: u32, day: u32) -> (r: Option<i32>)
    ensures
        r == ce_day_of(year, month, day),
        month < 1 || month > 12 || day < 1 || day > 31 ==> r.is_none(),
{
    chrono::NaiveDate::from_ymd_opt(year, month, day).map(|d| d.num_days_from_ce())
}

} // verus!
