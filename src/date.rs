//! Calendar dates as day numbers in the proleptic Gregorian calendar.
//!
//! A `Date` counts days with January 1 of year 1 as day 1, the numbering that
//! chrono uses. Conversions between year/month/day and day numbers are done
//! by chrono; day arithmetic and weekdays are plain integer arithmetic.

use vstd::prelude::*;
use chrono::Datelike;

verus! {

/// The first year that a `Date` can hold.
pub const MIN_YEAR: i32 = -262143;

/// The last year that a `Date` can hold.
pub const MAX_YEAR: i32 = 262142;

/// Day number of January 1 of `MIN_YEAR`.
pub const MIN_DAY: i32 = -95746129;

/// Day number of December 31 of `MAX_YEAR`.
pub const MAX_DAY: i32 = 95745399;

/// The Gregorian leap-year rule.
pub open spec fn is_leap(y: int) -> bool {
    y % 4 == 0 && (y % 100 != 0 || y % 400 == 0)
}

/// Number of days of month `m` (1 to 12) in year `y`.
pub open spec fn days_in_month(y: int, m: int) -> int {
    if m == 2 {
        if is_leap(y) { 29 } else { 28 }
    } else if m == 4 || m == 6 || m == 9 || m == 11 {
        30
    } else {
        31
    }
}

/// `(y, m, d)` names a day of the Gregorian calendar.
pub open spec fn valid_ymd(y: int, m: int, d: int) -> bool {
    1 <= m <= 12 && 1 <= d <= days_in_month(y, m)
}

pub open spec fn in_year_range(y: int) -> bool {
    MIN_YEAR <= y <= MAX_YEAR
}

pub open spec fn in_day_range(n: int) -> bool {
    MIN_DAY <= n <= MAX_DAY
}

/// The day number of the valid date `(y, m, d)`, as chrono counts it.
pub uninterp spec fn ce_day_of(y: int, m: int, d: int) -> int;

/// The year, month and day of day number `n`, as chrono computes them.
pub uninterp spec fn civil_of(n: int) -> (int, int, int);

/// Relies on chrono's `NaiveDate::from_ymd_opt` and `num_days_from_ce`: a date
/// exists exactly for a valid month and day in a year of chrono's range, and
/// its day number lies between those of chrono's first and last dates.
#[verifier::external_body]
fn chrono_day_number(year: i32, month: u32, day: u32) -> (r: Option<i32>)
    ensures
        r is Some <==> (in_year_range(year as int) && valid_ymd(year as int, month as int, day as int)),
        r is Some ==> r->0 == ce_day_of(year as int, month as int, day as int) && in_day_range(r->0 as int),
{
    match chrono::NaiveDate::from_ymd_opt(year, month, day) {
        Some(d) => Some(d.num_days_from_ce()),
        None => None,
    }
}

/// Relies on chrono's `NaiveDate::from_num_days_from_ce_opt` and its `year`,
/// `month` and `day`: every day number in chrono's range is one valid date,
/// whose day number is the one given.
#[verifier::external_body]
fn chrono_civil(n: i32) -> (r: (i32, u32, u32))
    requires
        in_day_range(n as int),
    ensures
        (r.0 as int, r.1 as int, r.2 as int) == civil_of(n as int),
        in_year_range(r.0 as int),
        valid_ymd(r.0 as int, r.1 as int, r.2 as int),
        ce_day_of(r.0 as int, r.1 as int, r.2 as int) == n,
{
    let d = chrono::NaiveDate::from_num_days_from_ce_opt(n).unwrap();
    (d.year(), d.month(), d.day())
}

/// A day of the week.
#[derive(Clone, Copy, PartialEq, Eq, Structural, Debug, Hash)]
pub enum Weekday {
    Mon,
    Tue,
    Wed,
    Thu,
    Fri,
    Sat,
    Sun,
}

impl Weekday {
    /// Days since Monday: 0 for Monday up to 6 for Sunday.
    pub open spec fn index(self) -> int {
        match self {
            Weekday::Mon => 0,
            Weekday::Tue => 1,
            Weekday::Wed => 2,
            Weekday::Thu => 3,
            Weekday::Fri => 4,
            Weekday::Sat => 5,
            Weekday::Sun => 6,
        }
    }

    /// Days since Monday, as a number.
    pub fn num_days_from_monday(&self) -> (r: u32)
        ensures
            r == self.index(),
    {
        match self {
            Weekday::Mon => 0,
            Weekday::Tue => 1,
            Weekday::Wed => 2,
            Weekday::Thu => 3,
            Weekday::Fri => 4,
            Weekday::Sat => 5,
            Weekday::Sun => 6,
        }
    }

    pub open spec fn from_index(i: int) -> Weekday {
        if i == 0 {
            Weekday::Mon
        } else if i == 1 {
            Weekday::Tue
        } else if i == 2 {
            Weekday::Wed
        } else if i == 3 {
            Weekday::Thu
        } else if i == 4 {
            Weekday::Fri
        } else if i == 5 {
            Weekday::Sat
        } else {
            Weekday::Sun
        }
    }
}

/// The weekday of day number `n`: day 1 (January 1 of year 1) is a Monday.
pub open spec fn weekday_of_day(n: int) -> Weekday {
    Weekday::from_index((n - 1) % 7)
}

/// A date between chrono's first and last dates, held as its day number.
#[derive(Clone, Copy, PartialEq, Eq, PartialOrd, Ord, Debug, Hash)]
pub struct Date {
    days: i32,
}

impl View for Date {
    type V = int;

    closed spec fn view(&self) -> int {
        self.days as int
    }
}

impl Date {
    #[verifier::type_invariant]
    spec fn inv(self) -> bool {
        in_day_range(self.days as int)
    }

    /// The date `year`-`month`-`day`, if it exists.
    pub fn from_ymd_opt(year: i32, month: u32, day: u32) -> (r: Option<Date>)
        ensures
            r is Some <==> (in_year_range(year as int) && valid_ymd(year as int, month as int, day as int)),
            r is Some ==> r->0@ == ce_day_of(year as int, month as int, day as int),
    {
        match chrono_day_number(year, month, day) {
            Some(n) => Some(Date { days: n }),
            None => None,
        }
    }

    /// The date with day number `n`, if it lies in range.
    pub fn from_day_number(n: i32) -> (r: Option<Date>)
        ensures
            r is Some <==> in_day_range(n as int),
            r is Some ==> r->0@ == n,
    {
        if MIN_DAY <= n && n <= MAX_DAY {
            Some(Date { days: n })
        } else {
            None
        }
    }

    /// Day number, with January 1 of year 1 as day 1.
    pub fn day_number(&self) -> (r: i32)
        ensures
            r == self@,
            in_day_range(r as int),
    {
        proof {
            use_type_invariant(self);
        }
        self.days
    }

    pub fn year(&self) -> (r: i32)
        ensures
            r == civil_of(self@).0,
    {
        chrono_civil(self.day_number()).0
    }

    pub fn month(&self) -> (r: u32)
        ensures
            r == civil_of(self@).1,
    {
        chrono_civil(self.day_number()).1
    }

    pub fn day(&self) -> (r: u32)
        ensures
            r == civil_of(self@).2,
    {
        chrono_civil(self.day_number()).2
    }

    pub fn weekday(&self) -> (r: Weekday)
        ensures
            r == weekday_of_day(self@),
    {
        let n = self.day_number();
        // shift by a multiple of 7 so that the remainder is taken of a non-negative number
        let k: u32 = (n + 97999999) as u32;
        let i: u32 = k % 7;
        assert((k as int) % 7 == (self@ - 1) % 7) by {
            vstd::arithmetic::div_mod::lemma_mod_add_multiples_vanish(self@ - 1, 7);
            vstd::arithmetic::div_mod::lemma_mod_multiples_vanish(14000000, self@ - 1, 7);
        }
        if i == 0 {
            Weekday::Mon
        } else if i == 1 {
            Weekday::Tue
        } else if i == 2 {
            Weekday::Wed
        } else if i == 3 {
            Weekday::Thu
        } else if i == 4 {
            Weekday::Fri
        } else if i == 5 {
            Weekday::Sat
        } else {
            Weekday::Sun
        }
    }

    /// The date `days` days later (earlier, if negative), if it lies in range.
    pub fn checked_add_days(&self, days: i32) -> (r: Option<Date>)
        ensures
            r is Some <==> in_day_range(self@ + days),
            r is Some ==> r->0@ == self@ + days,
    {
        let n = self.day_number() as i64 + days as i64;
        if MIN_DAY as i64 <= n && n <= MAX_DAY as i64 {
            Some(Date { days: n as i32 })
        } else {
            None
        }
    }

    /// The following day, unless this is the last date.
    pub fn succ_opt(&self) -> (r: Option<Date>)
        ensures
            r is Some <==> self@ < MAX_DAY,
            r is Some ==> r->0@ == self@ + 1,
    {
        proof {
            use_type_invariant(self);
        }
        self.checked_add_days(1)
    }

    /// The preceding day, unless this is the first date.
    pub fn pred_opt(&self) -> (r: Option<Date>)
        ensures
            r is Some <==> self@ > MIN_DAY,
            r is Some ==> r->0@ == self@ - 1,
    {
        proof {
            use_type_invariant(self);
        }
        self.checked_add_days(-1)
    }
}

/// Whether February 29 exists in `year` (within the years a `Date` can hold).
pub fn is_leap_year(year: i32) -> (r: bool)
    ensures
        r == (in_year_range(year as int) && is_leap(year as int)),
{
    chrono_day_number(year, 2, 29).is_some()
}

/// The last day of `month` in `year`: the greatest day for which the date exists.
pub fn last_day_of_month(year: i32, month: u32) -> (r: u32)
    requires
        in_year_range(year as int),
        1 <= month <= 12,
    ensures
        r == days_in_month(year as int, month as int),
{
    let mut day: u32 = 31;
    while chrono_day_number(year, month, day).is_none()
        invariant
            in_year_range(year as int),
            1 <= month <= 12,
            28 <= day <= 31,
            days_in_month(year as int, month as int) <= day,
        decreases day,
    {
        day = day - 1;
    }
    day
}

} // verus!
