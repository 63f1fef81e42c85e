//! Holiday rules, and calendars computed from them.
//!
//! A calendar is built by evaluating each rule, in the order given, over a
//! range of years. The result is a set of holidays (as day numbers) and a list
//! of weekdays that count as weekend days. Rule evaluation is described by the
//! spec functions below, which fold the rules (and, within a rule, the years)
//! from left to right.

use vstd::prelude::*;
use std::collections::BTreeSet;
use crate::date::{
    civil_of, days_in_month, in_day_range, in_year_range, last_day_of_month, valid_ymd,
    weekday_of_day, ce_day_of, Date, Weekday, MAX_DAY, MAX_YEAR, MIN_DAY, MIN_YEAR,
};

verus! {

broadcast use vstd::laws_cmp::group_laws_cmp, vstd::std_specs::btree::group_btree_axioms;

/// Which occurrence of a weekday in a month a rule names.
#[derive(Clone, Copy, PartialEq, Eq, Structural, Debug)]
pub enum NthWeekday {
    First,
    Second,
    Third,
    Fourth,
    Last,
}

/// A rule that makes days non-business days.
#[derive(Clone, Copy, PartialEq, Eq, Debug)]
pub enum Holiday {
    /// This weekday is a weekend day (a non-business day every week).
    WeekDay(Weekday),
    /// The same day every year, in the years from `first` to `last` (inclusive).
    YearlyDay { month: u32, day: u32, first: Option<i32>, last: Option<i32> },
    /// The same day every year, moved forward when it falls on a Saturday or
    /// Sunday, and further forward past days that are already holidays.
    MovableYearlyDay { month: u32, day: u32, first: Option<i32>, last: Option<i32> },
    /// One date.
    SingularDay(Date),
    /// A number of days after (or before, if negative) Easter Sunday.
    EasterOffset(i32),
    /// The nth (or last) given weekday of a month, every year from `first` to `last`.
    MonthWeekday {
        month: u32,
        weekday: Weekday,
        nth: NthWeekday,
        first: Option<i32>,
        last: Option<i32>,
    },
}

/// Why a calendar could not be built.
#[derive(Clone, Copy, PartialEq, Eq, Structural, Debug)]
pub enum BuildError {
    /// The first year of the range is after the last.
    InvalidRange,
    /// A rule names a date that does not exist (such as February 30).
    InvalidDate,
    /// Easter Sunday is not known for a year of the range.
    EasterUnavailable,
    /// A date would fall outside the dates that can be represented.
    OutOfRange,
}

/// Month and day of Easter Sunday in `year`, as computus computes them.
pub uninterp spec fn easter_of(year: int) -> (int, int);

pub open spec fn month_day(md: (u32, u32)) -> (int, int) {
    (md.0 as int, md.1 as int)
}

/// Relies on computus's `gregorian`: it answers exactly for the years 1583 to
/// 9999, with a date in the year asked for.
#[verifier::external_body]
fn easter_sunday(year: i32) -> (r: Option<(u32, u32)>)
    ensures
        r is Some <==> (1583 <= year <= 9999),
        r is Some ==> month_day(r->0) == easter_of(year as int),
{
    match computus::gregorian(year) {
        Ok(d) => Some((d.month, d.day)),
        Err(_) => None,
    }
}

/// Easter Sunday's month and day in year `y`, where computus knows it.
pub open spec fn easter_month_day(y: int) -> Option<(int, int)> {
    if 1583 <= y <= 9999 {
        Some(easter_of(y))
    } else {
        None
    }
}

/// The day number of `(y, m, d)`, if that date exists.
pub open spec fn day_of(y: int, m: int, d: int) -> Option<int> {
    if in_year_range(y) && valid_ymd(y, m, d) {
        Some(ce_day_of(y, m, d))
    } else {
        None
    }
}

/// First year of a rule's range, clamped to `start`.
pub open spec fn first_year(start: int, first: Option<i32>) -> int {
    match first {
        Some(y) => if y > start { y as int } else { start },
        None => start,
    }
}

/// Last year of a rule's range, clamped to `end`.
pub open spec fn last_year(end: int, last: Option<i32>) -> int {
    match last {
        Some(y) => if y < end { y as int } else { end },
        None => end,
    }
}

/// Day `n`, moved to the following Monday when it is a Saturday or Sunday.
pub open spec fn weekend_shift(n: int) -> int {
    if weekday_of_day(n) == Weekday::Sat {
        n + 2
    } else if weekday_of_day(n) == Weekday::Sun {
        n + 1
    } else {
        n
    }
}

/// `p` is the first day from `n` on that is not in `hs`, and is in range.
pub open spec fn is_first_free(hs: Set<i32>, n: int, p: int) -> bool {
    &&& n <= p <= MAX_DAY
    &&& !hs.contains(p as i32)
    &&& forall|k: int| n <= k < p ==> #[trigger] hs.contains(k as i32)
}

/// The first day from `n` on that is not in `hs`, if one is in range.
pub open spec fn first_free(hs: Set<i32>, n: int) -> Option<int> {
    if exists|p: int| is_first_free(hs, n, p) {
        Some(choose|p: int| is_first_free(hs, n, p))
    } else {
        None
    }
}

/// Days from weekday `a` forward to the next (or same) weekday `b`: 0 to 6.
pub open spec fn days_forward(a: Weekday, b: Weekday) -> int {
    (b.index() + 7 - a.index()) % 7
}

/// Day of the month from which the search for the nth weekday starts.
pub open spec fn anchor_day(y: int, m: int, nth: NthWeekday) -> int {
    match nth {
        NthWeekday::First => 1,
        NthWeekday::Second => 8,
        NthWeekday::Third => 15,
        NthWeekday::Fourth => 22,
        NthWeekday::Last => days_in_month(y, m),
    }
}

/// From anchor day `n`: the first day on or after it that is a `wd`, or for
/// `Last` the first day on or before it that is a `wd`.
pub open spec fn nth_weekday_from(n: int, wd: Weekday, nth: NthWeekday) -> int {
    if nth == NthWeekday::Last {
        n - days_forward(wd, weekday_of_day(n))
    } else {
        n + days_forward(weekday_of_day(n), wd)
    }
}

/// Inserts day `n` into `hs`, or fails when it is out of range.
pub open spec fn insert_day(hs: Set<i32>, n: int) -> Result<Set<i32>, BuildError> {
    if in_day_range(n) {
        Ok(hs.insert(n as i32))
    } else {
        Err(BuildError::OutOfRange)
    }
}

/// What a rule adds to the holidays `hs` for year `y`.
pub open spec fn year_step(hs: Set<i32>, rule: Holiday, y: int) -> Result<Set<i32>, BuildError> {
    match rule {
        Holiday::YearlyDay { month, day, .. } => match day_of(y, month as int, day as int) {
            Some(n) => Ok(hs.insert(n as i32)),
            None => Err(BuildError::InvalidDate),
        },
        Holiday::MovableYearlyDay { month, day, .. } => match day_of(y, month as int, day as int) {
            Some(n) => match first_free(hs, weekend_shift(n)) {
                Some(p) => Ok(hs.insert(p as i32)),
                None => Err(BuildError::OutOfRange),
            },
            None => Err(BuildError::InvalidDate),
        },
        Holiday::EasterOffset(offset) => match easter_month_day(y) {
            Some((m, d)) => match day_of(y, m, d) {
                Some(n) => insert_day(hs, n + offset),
                None => Err(BuildError::InvalidDate),
            },
            None => Err(BuildError::EasterUnavailable),
        },
        Holiday::MonthWeekday { month, weekday, nth, .. } => match day_of(
            y,
            month as int,
            anchor_day(y, month as int, nth),
        ) {
            Some(n) => insert_day(hs, nth_weekday_from(n, weekday, nth)),
            None => Err(BuildError::InvalidDate),
        },
        _ => Ok(hs),
    }
}

/// The holidays after evaluating `rule` for the years `from` up to `to - 1`, in order.
pub open spec fn years_fold(hs: Set<i32>, rule: Holiday, from: int, to: int) -> Result<
    Set<i32>,
    BuildError,
>
    decreases to - from,
{
    if from >= to {
        Ok(hs)
    } else {
        match year_step(hs, rule, from) {
            Ok(h) => years_fold(h, rule, from + 1, to),
            Err(e) => Err(e),
        }
    }
}

/// The holidays and weekend days after evaluating `rule` over `start` to `end`.
pub open spec fn rule_step(
    hs: Set<i32>,
    ws: Seq<Weekday>,
    rule: Holiday,
    start: int,
    end: int,
) -> Result<(Set<i32>, Seq<Weekday>), BuildError> {
    let years = match rule {
        Holiday::YearlyDay { first, last, .. } => years_fold(
            hs,
            rule,
            first_year(start, first),
            last_year(end, last) + 1,
        ),
        Holiday::MovableYearlyDay { first, last, .. } => years_fold(
            hs,
            rule,
            first_year(start, first),
            last_year(end, last) + 1,
        ),
        Holiday::MonthWeekday { first, last, .. } => years_fold(
            hs,
            rule,
            first_year(start, first),
            last_year(end, last) + 1,
        ),
        _ => years_fold(hs, rule, start, end + 1),
    };
    match rule {
        Holiday::WeekDay(w) => Ok((hs, ws.push(w))),
        Holiday::SingularDay(d) => if start <= civil_of(d@).0 <= end {
            Ok((hs.insert(d@ as i32), ws))
        } else {
            Ok((hs, ws))
        },
        _ => match years {
            Ok(h) => Ok((h, ws)),
            Err(e) => Err(e),
        },
    }
}

/// The holidays and weekend days after evaluating `rules` in order, from `hs` and `ws`.
pub open spec fn rules_fold(
    hs: Set<i32>,
    ws: Seq<Weekday>,
    rules: Seq<Holiday>,
    start: int,
    end: int,
) -> Result<(Set<i32>, Seq<Weekday>), BuildError>
    decreases rules.len(),
{
    if rules.len() == 0 {
        Ok((hs, ws))
    } else {
        match rule_step(hs, ws, rules[0], start, end) {
            Ok((h, w)) => rules_fold(h, w, rules.subrange(1, rules.len() as int), start, end),
            Err(e) => Err(e),
        }
    }
}

/// The holidays and weekend days of the calendar of `rules` over the years `start` to `end`.
pub open spec fn calendar_of(rules: Seq<Holiday>, start: int, end: int) -> Result<
    (Set<i32>, Seq<Weekday>),
    BuildError,
> {
    if start > end {
        Err(BuildError::InvalidRange)
    } else {
        rules_fold(Set::empty(), Seq::empty(), rules, start, end)
    }
}

/// The first day from `n` on that is not in `holidays`.
fn free_slot(holidays: &BTreeSet<i32>, n: i32) -> (r: Option<i32>)
    requires
        in_day_range(n as int),
    ensures
        match first_free(holidays@, n as int) {
            Some(p) => r == Some(p as i32),
            None => r is None,
        },
{
    let mut cur: i32 = n;
    while holidays.contains(&cur)
        invariant
            n <= cur <= MAX_DAY,
            forall|k: int| n <= k < cur ==> #[trigger] holidays@.contains(k as i32),
        decreases MAX_DAY - cur,
    {
        if cur == MAX_DAY {
            proof {
                assert forall|p: int| !is_first_free(holidays@, n as int, p) by {
                    if n <= p <= MAX_DAY && p < cur {
                        assert(holidays@.contains(p as i32));
                    }
                }
            }
            return None;
        }
        cur = cur + 1;
    }
    proof {
        assert(is_first_free(holidays@, n as int, cur as int));
        let q = choose|p: int| is_first_free(holidays@, n as int, p);
        if q < cur {
            assert(holidays@.contains(q as i32));
        }
        if q > cur {
            assert(holidays@.contains(cur as i32));
        }
    }
    Some(cur)
}

/// Evaluates `rule` for year `y`, adding its holiday to `holidays`.
fn apply_year(holidays: &mut BTreeSet<i32>, rule: &Holiday, y: i32) -> (r: Result<(), BuildError>)
    ensures
        match year_step(old(holidays)@, *rule, y as int) {
            Ok(h) => r is Ok && final(holidays)@ == h,
            Err(e) => r == Err::<(), BuildError>(e),
        },
{
    match rule {
        Holiday::YearlyDay { month, day, .. } => match Date::from_ymd_opt(y, *month, *day) {
            Some(d) => {
                holidays.insert(d.day_number());
                Ok(())
            },
            None => Err(BuildError::InvalidDate),
        },
        Holiday::MovableYearlyDay { month, day, .. } => match Date::from_ymd_opt(y, *month, *day) {
            Some(d) => {
                let n = d.day_number() as i64;
                let shifted: i64 = match d.weekday() {
                    Weekday::Sat => n + 2,
                    Weekday::Sun => n + 1,
                    _ => n,
                };
                if shifted > MAX_DAY as i64 {
                    return Err(BuildError::OutOfRange);
                }
                match free_slot(holidays, shifted as i32) {
                    Some(p) => {
                        holidays.insert(p);
                        Ok(())
                    },
                    None => Err(BuildError::OutOfRange),
                }
            },
            None => Err(BuildError::InvalidDate),
        },
        Holiday::EasterOffset(offset) => match easter_sunday(y) {
            Some((m, dd)) => match Date::from_ymd_opt(y, m, dd) {
                Some(e) => match e.checked_add_days(*offset) {
                    Some(d) => {
                        holidays.insert(d.day_number());
                        Ok(())
                    },
                    None => Err(BuildError::OutOfRange),
                },
                None => Err(BuildError::InvalidDate),
            },
            None => Err(BuildError::EasterUnavailable),
        },
        Holiday::MonthWeekday { month, weekday, nth, .. } => {
            let anchor: u32 = match nth {
                NthWeekday::First => 1,
                NthWeekday::Second => 8,
                NthWeekday::Third => 15,
                NthWeekday::Fourth => 22,
                NthWeekday::Last => {
                    if y < MIN_YEAR || y > MAX_YEAR || *month < 1 || *month > 12 {
                        return Err(BuildError::InvalidDate);
                    }
                    last_day_of_month(y, *month)
                },
            };
            match Date::from_ymd_opt(y, *month, anchor) {
                Some(a) => {
                    let w = a.weekday().num_days_from_monday();
                    let t = weekday.num_days_from_monday();
                    let found = match nth {
                        NthWeekday::Last => a.checked_add_days(-(((w + 7 - t) % 7) as i32)),
                        _ => a.checked_add_days(((t + 7 - w) % 7) as i32),
                    };
                    match found {
                        Some(d) => {
                            holidays.insert(d.day_number());
                            Ok(())
                        },
                        None => Err(BuildError::OutOfRange),
                    }
                },
                None => Err(BuildError::InvalidDate),
            }
        },
        _ => Ok(()),
    }
}

/// Evaluates `rule` for the years `from` to `to` (inclusive), in order.
fn apply_years(holidays: &mut BTreeSet<i32>, rule: &Holiday, from: i32, to: i32) -> (r: Result<
    (),
    BuildError,
>)
    ensures
        match years_fold(old(holidays)@, *rule, from as int, to as int + 1) {
            Ok(h) => r is Ok && final(holidays)@ == h,
            Err(e) => r == Err::<(), BuildError>(e),
        },
{
    let mut y: i64 = from as i64;
    while y <= to as i64
        invariant
            from <= y,
            y <= to + 1 || y == from,
            years_fold(old(holidays)@, *rule, from as int, to as int + 1) == years_fold(
                holidays@,
                *rule,
                y as int,
                to as int + 1,
            ),
        decreases to + 1 - y,
    {
        match apply_year(holidays, rule, y as i32) {
            Ok(()) => {},
            Err(e) => {
                return Err(e);
            },
        }
        y = y + 1;
    }
    Ok(())
}

/// Evaluates one rule over the years `start` to `end`.
fn apply_rule(
    holidays: &mut BTreeSet<i32>,
    weekdays: &mut Vec<Weekday>,
    rule: &Holiday,
    start: i32,
    end: i32,
) -> (r: Result<(), BuildError>)
    ensures
        match rule_step(old(holidays)@, old(weekdays)@, *rule, start as int, end as int) {
            Ok((h, w)) => r is Ok && final(holidays)@ == h && final(weekdays)@ == w,
            Err(e) => r == Err::<(), BuildError>(e),
        },
{
    match rule {
        Holiday::WeekDay(w) => {
            weekdays.push(*w);
            Ok(())
        },
        Holiday::SingularDay(d) => {
            let year = d.year();
            if start <= year && year <= end {
                holidays.insert(d.day_number());
            }
            Ok(())
        },
        Holiday::YearlyDay { first, last, .. } => {
            let (from, to) = clamp_years(start, end, first, last);
            apply_years(holidays, rule, from, to)
        },
        Holiday::MovableYearlyDay { first, last, .. } => {
            let (from, to) = clamp_years(start, end, first, last);
            apply_years(holidays, rule, from, to)
        },
        Holiday::MonthWeekday { first, last, .. } => {
            let (from, to) = clamp_years(start, end, first, last);
            apply_years(holidays, rule, from, to)
        },
        Holiday::EasterOffset(_) => apply_years(holidays, rule, start, end),
    }
}

/// A rule's range of years, `first` to `last`, clamped to `start` to `end`.
fn clamp_years(start: i32, end: i32, first: &Option<i32>, last: &Option<i32>) -> (r: (i32, i32))
    ensures
        r.0 == first_year(start as int, *first),
        r.1 == last_year(end as int, *last),
{
    let from = match first {
        Some(y) => if *y > start { *y } else { start },
        None => start,
    };
    let to = match last {
        Some(y) => if *y < end { *y } else { end },
        None => end,
    };
    (from, to)
}

/// A calendar: holidays computed for a range of years, and weekend days.
#[derive(Clone, Debug)]
pub struct Calendar {
    holidays: BTreeSet<i32>,
    weekdays: Vec<Weekday>,
}

/// What a build returns, seen as holidays and weekend days.
pub open spec fn outcome(r: Result<Calendar, BuildError>) -> Result<(Set<i32>, Seq<Weekday>), BuildError> {
    match r {
        Ok(c) => Ok((c.holiday_set(), c.weekend())),
        Err(e) => Err(e),
    }
}

impl Calendar {
    /// Day numbers of the holidays.
    pub closed spec fn holiday_set(&self) -> Set<i32> {
        self.holidays@
    }

    /// The weekdays that are weekend days, in the order the rules gave them.
    pub closed spec fn weekend(&self) -> Seq<Weekday> {
        self.weekdays@
    }

    /// Day `n` falls on one of the weekend days.
    pub open spec fn weekend_day(&self, n: int) -> bool {
        self.weekend().contains(weekday_of_day(n))
    }

    /// Day `n` is one of the holidays.
    pub open spec fn holiday(&self, n: int) -> bool {
        self.holiday_set().contains(n as i32)
    }

    /// Day `n` is neither a weekend day nor a holiday.
    pub open spec fn business_day(&self, n: int) -> bool {
        !self.weekend_day(n) && !self.holiday(n)
    }

    /// Computes the holidays of the years `start` to `end` (inclusive) from
    /// `holiday_rules`, evaluated in order, and collects the weekend days.
    /// The order matters: a movable holiday skips the days that earlier rules
    /// made holidays, but not those of later rules.
    pub fn calc_calendar(holiday_rules: &Vec<Holiday>, start: i32, end: i32) -> (r: Result<
        Calendar,
        BuildError,
    >)
        ensures
            outcome(r) == calendar_of(holiday_rules@, start as int, end as int),
    {
        if start > end {
            return Err(BuildError::InvalidRange);
        }
        let mut holidays: BTreeSet<i32> = BTreeSet::new();
        let mut weekdays: Vec<Weekday> = Vec::new();
        let mut i: usize = 0;
        assert(holiday_rules@.subrange(0, holiday_rules.len() as int) =~= holiday_rules@);
        while i < holiday_rules.len()
            invariant
                start <= end,
                i <= holiday_rules.len(),
                calendar_of(holiday_rules@, start as int, end as int) == rules_fold(
                    holidays@,
                    weekdays@,
                    holiday_rules@.subrange(i as int, holiday_rules.len() as int),
                    start as int,
                    end as int,
                ),
            decreases holiday_rules.len() - i,
        {
            let ghost rest = holiday_rules@.subrange(i as int, holiday_rules.len() as int);
            assert(rest[0] == holiday_rules@[i as int]);
            assert(rest.subrange(1, rest.len() as int) =~= holiday_rules@.subrange(
                i + 1,
                holiday_rules.len() as int,
            ));
            match apply_rule(&mut holidays, &mut weekdays, &holiday_rules[i], start, end) {
                Ok(()) => {},
                Err(e) => {
                    return Err(e);
                },
            }
            i = i + 1;
        }
        assert(holiday_rules@.subrange(i as int, holiday_rules.len() as int).len() == 0);
        Ok(Calendar { holidays, weekdays })
    }

    /// Whether `day` falls on one of the weekend days.
    pub fn is_weekend(&self, day: Date) -> (r: bool)
        ensures
            r == self.weekend_day(day@),
    {
        let weekday = day.weekday();
        let mut i: usize = 0;
        while i < self.weekdays.len()
            invariant
                i <= self.weekdays.len(),
                weekday == weekday_of_day(day@),
                forall|j: int| 0 <= j < i ==> self.weekdays@[j] != weekday,
            decreases self.weekdays.len() - i,
        {
            if self.weekdays[i] == weekday {
                return true;
            }
            i = i + 1;
        }
        false
    }

    /// Whether `date` is a holiday.
    pub fn is_holiday(&self, date: Date) -> (r: bool)
        ensures
            r == self.holiday(date@),
    {
        self.holidays.contains(&date.day_number())
    }

    /// Whether `date` is a business day: neither a weekend day nor a holiday.
    pub fn is_business_day(&self, date: Date) -> (r: bool)
        ensures
            r == (!self.weekend_day(date@) && !self.holiday(date@)),
    {
        !self.is_weekend(date) && !self.is_holiday(date)
    }

    /// Whether every day of the week is a weekend day.
    fn all_weekend(&self) -> (r: bool)
        ensures
            r ==> forall|n: int| #[trigger] self.weekend_day(n),
    {
        let days = [
            Weekday::Mon,
            Weekday::Tue,
            Weekday::Wed,
            Weekday::Thu,
            Weekday::Fri,
            Weekday::Sat,
            Weekday::Sun,
        ];
        let mut i: usize = 0;
        while i < 7
            invariant
                i <= 7,
                days@ == seq![
                    Weekday::Mon,
                    Weekday::Tue,
                    Weekday::Wed,
                    Weekday::Thu,
                    Weekday::Fri,
                    Weekday::Sat,
                    Weekday::Sun,
                ],
                forall|j: int| 0 <= j < i ==> self.weekend().contains(#[trigger] days@[j]),
            decreases 7 - i,
        {
            if !self.has_weekend_day(days[i]) {
                return false;
            }
            i = i + 1;
        }
        proof {
            assert forall|n: int| #[trigger] self.weekend_day(n) by {
                let w = weekday_of_day(n);
                assert(w == days@[w.index()]);
            }
        }
        true
    }

    /// Whether `weekday` is one of the weekend days.
    fn has_weekend_day(&self, weekday: Weekday) -> (r: bool)
        ensures
            r == self.weekend().contains(weekday),
    {
        let mut i: usize = 0;
        while i < self.weekdays.len()
            invariant
                i <= self.weekdays.len(),
                forall|j: int| 0 <= j < i ==> self.weekdays@[j] != weekday,
            decreases self.weekdays.len() - i,
        {
            if self.weekdays[i] == weekday {
                return true;
            }
            i = i + 1;
        }
        false
    }

    /// The first business day after `date`; `None` when no date after it up
    /// to the last representable one is a business day (as when every day of
    /// the week is a weekend day).
    pub fn next_bday(&self, date: Date) -> (r: Option<Date>)
        ensures
            match r {
                Some(d) => {
                    &&& d@ > date@
                    &&& self.business_day(d@)
                    &&& forall|k: int| date@ < k < d@ ==> !#[trigger] self.business_day(k)
                },
                None => forall|k: int| date@ < k <= MAX_DAY ==> !#[trigger] self.business_day(k),
            },
    {
        if self.all_weekend() {
            return None;
        }
        let mut cur = date;
        loop
            invariant
                date@ <= cur@,
                forall|k: int| date@ < k <= cur@ ==> !#[trigger] self.business_day(k),
            decreases MAX_DAY - cur@,
        {
            match cur.succ_opt() {
                Some(d) => {
                    cur = d;
                    if self.is_business_day(cur) {
                        return Some(cur);
                    }
                },
                None => {
                    return None;
                },
            }
        }
    }

    /// The last business day before `date`; `None` when no date before it
    /// down to the first representable one is a business day.
    pub fn prev_bday(&self, date: Date) -> (r: Option<Date>)
        ensures
            match r {
                Some(d) => {
                    &&& d@ < date@
                    &&& self.business_day(d@)
                    &&& forall|k: int| d@ < k < date@ ==> !#[trigger] self.business_day(k)
                },
                None => forall|k: int| MIN_DAY <= k < date@ ==> !#[trigger] self.business_day(k),
            },
    {
        if self.all_weekend() {
            return None;
        }
        let mut cur = date;
        loop
            invariant
                cur@ <= date@,
                forall|k: int| cur@ <= k < date@ ==> !#[trigger] self.business_day(k),
            decreases cur@ - MIN_DAY,
        {
            match cur.pred_opt() {
                Some(d) => {
                    cur = d;
                    if self.is_business_day(cur) {
                        return Some(cur);
                    }
                },
                None => {
                    return None;
                },
            }
        }
    }
}

/// A single date whose year lies outside the range of years contributes
/// nothing: adding such a rule anywhere in the list leaves the built
/// calendar (holidays, weekend days, or error) unchanged.
pub proof fn lemma_singular_day_outside_range(
    rules: Seq<Holiday>,
    i: int,
    d: Date,
    start: int,
    end: int,
)
    requires
        0 <= i <= rules.len(),
        !(start <= civil_of(d@).0 <= end),
    ensures
        calendar_of(rules.insert(i, Holiday::SingularDay(d)), start, end) == calendar_of(
            rules,
            start,
            end,
        ),
{
    if start <= end {
        lemma_rules_fold_skips_singular(Set::empty(), Seq::empty(), rules, i, d, start, end);
    }
}

proof fn lemma_rules_fold_skips_singular(
    hs: Set<i32>,
    ws: Seq<Weekday>,
    rules: Seq<Holiday>,
    i: int,
    d: Date,
    start: int,
    end: int,
)
    requires
        0 <= i <= rules.len(),
        !(start <= civil_of(d@).0 <= end),
    ensures
        rules_fold(hs, ws, rules.insert(i, Holiday::SingularDay(d)), start, end) == rules_fold(
            hs,
            ws,
            rules,
            start,
            end,
        ),
    decreases i,
{
    let longer = rules.insert(i, Holiday::SingularDay(d));
    if i == 0 {
        assert(longer[0] == Holiday::SingularDay(d));
        assert(longer.subrange(1, longer.len() as int) =~= rules);
    } else {
        assert(longer[0] == rules[0]);
        let tail = rules.subrange(1, rules.len() as int);
        assert(longer.subrange(1, longer.len() as int) =~= tail.insert(
            i - 1,
            Holiday::SingularDay(d),
        ));
        match rule_step(hs, ws, rules[0], start, end) {
            Ok((h, w)) => {
                lemma_rules_fold_skips_singular(h, w, tail, i - 1, d, start, end);
            },
            Err(_) => {},
        }
    }
}

/// The day that a `MonthWeekday` rule picks from its anchor has the rule's
/// weekday, lies within six days of the anchor (after it, or before it for
/// `Last`), and no day between the anchor and it has that weekday.
pub proof fn lemma_nth_weekday_from(n: int, wd: Weekday, nth: NthWeekday)
    ensures
        weekday_of_day(nth_weekday_from(n, wd, nth)) == wd,
        nth != NthWeekday::Last ==> n <= nth_weekday_from(n, wd, nth) <= n + 6,
        nth == NthWeekday::Last ==> n - 6 <= nth_weekday_from(n, wd, nth) <= n,
        forall|k: int|
            nth != NthWeekday::Last && n <= k < nth_weekday_from(n, wd, nth) ==> #[trigger] weekday_of_day(k) != wd,
        forall|k: int|
            nth == NthWeekday::Last && nth_weekday_from(n, wd, nth) < k <= n ==> #[trigger] weekday_of_day(k) != wd,
{
    assert forall|k: int| #[trigger] weekday_of_day(k).index() == (k - 1) % 7 by {}
    assert(wd == Weekday::from_index(wd.index()));
}

proof fn lemma_first_free_unique(hs: Set<i32>, n: int, a: int, b: int)
    requires
        is_first_free(hs, n, a),
        is_first_free(hs, n, b),
    ensures
        a == b,
{
    if a < b {
        assert(hs.contains(a as i32));
    }
    if b < a {
        assert(hs.contains(b as i32));
    }
}

/// When a movable holiday has taken day `p`, the first free day from `n` on,
/// a later movable holiday that also lands on `n` takes the first free day
/// after `p`: colliding movable holidays fill consecutive free days.
pub proof fn lemma_collision_takes_next_free_day(hs: Set<i32>, n: int, p: int)
    requires
        in_day_range(n),
        first_free(hs, n) == Some(p),
    ensures
        first_free(hs.insert(p as i32), n) == first_free(hs, p + 1),
{
    let h2 = hs.insert(p as i32);
    let m = p + 1;
    assert(exists|q: int| is_first_free(hs, n, q));
    let p0 = choose|q: int| is_first_free(hs, n, q);
    assert(p0 == p);
    assert(is_first_free(hs, n, p));
    assert forall|q: int| is_first_free(h2, n, q) <==> is_first_free(hs, m, q) by {
        if is_first_free(h2, n, q) {
            assert(q != p);
            if q < p {
                assert(hs.contains(q as i32));
            }
            assert forall|k: int| p + 1 <= k < q implies #[trigger] hs.contains(k as i32) by {
                assert(h2.contains(k as i32));
                assert(k as i32 != p as i32);
            }
        }
        if is_first_free(hs, m, q) {
            assert(q as i32 != p as i32);
            assert forall|k: int| n <= k < q implies #[trigger] h2.contains(k as i32) by {
                if k < p {
                    assert(hs.contains(k as i32));
                } else if k > p {
                    assert(hs.contains(k as i32));
                }
            }
        }
    }
    if exists|q: int| is_first_free(hs, m, q) {
        let a = choose|q: int| is_first_free(hs, m, q);
        assert(is_first_free(h2, n, a));
        let b = choose|q: int| is_first_free(h2, n, q);
        assert(is_first_free(hs, m, b));
        lemma_first_free_unique(hs, m, a, b);
    } else {
        assert(!exists|q: int| is_first_free(h2, n, q));
    }
}

} // verus!
