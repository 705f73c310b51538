//! Calendar dates as plain year / month / day values.
//!
//! A due date carries no time component.  Validity (month in range, day in
//! range for the month, leap years) follows the proleptic Gregorian calendar;
//! the check itself is delegated to chrono.

use vstd::prelude::*;

verus! {

/// Gregorian leap-year rule.
pub open spec fn is_leap_year(y: int) -> bool {
    y % 4 == 0 && (y % 100 != 0 || y % 400 == 0)
}

/// Number of days in month `m` of year `y` (for `1 <= m <= 12`).
pub open spec fn days_in_month(y: int, m: int) -> int {
    if m == 2 {
        if is_leap_year(y) {
            29
        } else {
            28
        }
    } else if m == 4 || m == 6 || m == 9 || m == 11 {
        30
    } else {
        31
    }
}

/// The triple names a real proleptic-Gregorian calendar date.
pub open spec fn valid_ymd(y: int, m: int, d: int) -> bool {
    1 <= m <= 12 && 1 <= d <= days_in_month(y, m)
}

/// Relies on `chrono::NaiveDate::from_ymd_opt`: it returns `Some` exactly when
/// year/month/day form a real proleptic-Gregorian calendar date and the year is
/// within chrono's supported range; every `u16` year lies in that range.
#[verifier::external_body]
fn ymd_exists(year: u16, month: u8, day: u8) -> (r: bool)
    ensures
        r == valid_ymd(year as int, month as int, day as int),
{
    chrono::NaiveDate::from_ymd_opt(year as i32, month as u32, day as u32).is_some()
}

/// A calendar date. Fields are plain integers; `wf` is the well-formedness
/// predicate that every date built by this crate satisfies.
#[derive(Clone, Copy, PartialEq, Eq, Structural, Debug)]
pub struct Date {
    pub year: u16,
    pub month: u8,
    pub day: u8,
}

impl Date {
    /// A well-formed date is a real calendar date whose year fits in four
    /// decimal digits, the width the textual form uses.
    pub open spec fn wf(self) -> bool {
        self.year <= 9999 && valid_ymd(self.year as int, self.month as int, self.day as int)
    }

    /// Builds a date after checking it exists in the calendar.
    pub fn new(year: u16, month: u8, day: u8) -> (r: Option<Date>)
        ensures
            r is Some <==> (year <= 9999 && valid_ymd(year as int, month as int, day as int)),
            r matches Some(d) ==> d == (Date { year, month, day }) && d.wf(),
    {
        if year <= 9999 && ymd_exists(year, month, day) {
            Some(Date { year, month, day })
        } else {
            None
        }
    }
}

} // verus!
