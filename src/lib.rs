//! Business-day calendars built from holiday rules.
//!
//! A calendar is computed once from a list of holiday rules over a range of
//! years, and then answers whether a date is a weekend day, a holiday or a
//! business day, and finds the next or previous business day.

pub mod date;
pub mod calendar;
