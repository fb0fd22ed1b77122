//! Calendar dates at day granularity, in the proleptic Gregorian calendar.
//!
//! `created_at` and `trashed_at` timestamps are dates; the warranty horizon of
//! a record is a date obtained by adding whole years to its creation date.

use vstd::prelude::*;
use vstd::arithmetic::div_mod::lemma_mod_multiples_vanish;

verus! {

/// Smallest year a parsed date can carry.
pub const YEAR_MIN: i64 = -262143;

/// Largest year a parsed date can carry.
pub const YEAR_MAX: i64 = 262142;

/// A calendar date. `year` may be negative (proleptic Gregorian); `month` is
/// 1-based; `day` is 1-based within the month.
#[derive(Clone, Copy, Debug, PartialEq, Eq, Structural)]
pub struct Date {
    pub year: i64,
    pub month: u8,
    pub day: u8,
}

/// A year has 366 days exactly when divisible by 4 but not by 100, or by 400.
pub open spec fn is_leap_year(y: int) -> bool {
    (y % 4 == 0 && y % 100 != 0) || y % 400 == 0
}

/// Number of days in month `m` of year `y` (months outside 1..=12 are mapped
/// to 31 so the function stays total).
pub open spec fn days_in_month(y: int, m: int) -> int {
    if m == 2 {
        if is_leap_year(y) {
            29
        } else {
            28
        }
    } else if m == 4 || m == 6 || m == 9 || m == 11 {
        30
    } else {
        31
    }
}

impl Date {
    /// The month and day form a real calendar date for this year.
    pub open spec fn valid_md(self) -> bool {
        &&& 1 <= self.month <= 12
        &&& 1 <= self.day <= days_in_month(self.year as int, self.month as int)
    }

    /// A real calendar date whose year lies in the supported range.
    pub open spec fn wf(self) -> bool {
        &&& YEAR_MIN <= self.year <= YEAR_MAX
        &&& self.valid_md()
    }

    /// Strict chronological order.
    pub open spec fn before(self, o: Date) -> bool {
        ||| self.year < o.year
        ||| (self.year == o.year && self.month < o.month)
        ||| (self.year == o.year && self.month == o.month && self.day < o.day)
    }

    /// The date `years` whole years later (or earlier, when negative), with
    /// the day clamped to the length of the target month, so that February 29
    /// falls back to February 28 in a common year.
    pub open spec fn plus_years(self, years: int) -> Date {
        let y = self.year + years;
        let ml = days_in_month(y, self.month as int);
        Date {
            year: (self.year + years) as i64,
            month: self.month,
            day: if self.day <= ml {
                self.day
            } else {
                ml as u8
            },
        }
    }

    /// Runtime check of `valid_md`.
    pub fn is_valid_md(&self) -> (b: bool)
        requires
            YEAR_MIN - i32::MAX <= self.year <= YEAR_MAX + i32::MAX,
        ensures
            b == self.valid_md(),
    {
        1 <= self.month && self.month <= 12 && 1 <= self.day && self.day <= month_days(
            self.year,
            self.month,
        )
    }

    /// Runtime check of `wf`.
    pub fn is_wf(&self) -> (b: bool)
        ensures
            b == self.wf(),
    {
        YEAR_MIN <= self.year && self.year <= YEAR_MAX && self.is_valid_md()
    }

    /// Runtime evaluation of `before`.
    pub fn is_before(&self, o: &Date) -> (b: bool)
        ensures
            b == self.before(*o),
    {
        self.year < o.year || (self.year == o.year && (self.month < o.month || (self.month
            == o.month && self.day < o.day)))
    }

    /// Runtime evaluation of `plus_years`.
    pub fn add_years(&self, years: i32) -> (r: Date)
        requires
            YEAR_MIN <= self.year <= YEAR_MAX,
        ensures
            r == self.plus_years(years as int),
    {
        let y: i64 = self.year + (years as i64);
        let ml = month_days(y, self.month);
        Date {
            year: y,
            month: self.month,
            day: if self.day <= ml {
                self.day
            } else {
                ml
            },
        }
    }
}

/// Runtime evaluation of `is_leap_year`, for years reachable from a supported
/// year by an `i32` offset.
fn leap_year(y: i64) -> (b: bool)
    requires
        -4_000_000_000 <= y <= 4_000_000_000,
    ensures
        b == is_leap_year(y as int),
{
    let z: i64 = y + 4_000_000_000;
    proof {
        lemma_mod_multiples_vanish(1_000_000_000, y as int, 4);
        lemma_mod_multiples_vanish(40_000_000, y as int, 100);
        lemma_mod_multiples_vanish(10_000_000, y as int, 400);
    }
    (z % 4 == 0 && z % 100 != 0) || z % 400 == 0
}

/// Runtime evaluation of `days_in_month`.
fn month_days(y: i64, m: u8) -> (d: u8)
    requires
        -4_000_000_000 <= y <= 4_000_000_000,
    ensures
        d as int == days_in_month(y as int, m as int),
{
    if m == 2 {
        if leap_year(y) {
            29
        } else {
            28
        }
    } else if m == 4 || m == 6 || m == 9 || m == 11 {
        30
    } else {
        31
    }
}

} // verus!
