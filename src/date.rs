//! Calendar dates as plain values, and their parsing.

use vstd::prelude::*;
use chrono::{Datelike, NaiveDate};

verus! {

/// A calendar date.
#[derive(Clone, Copy, Debug, PartialEq, Eq, Structural)]
pub struct Date {
    pub year: i32,
    pub month: u32,
    pub day: u32,
}

/// The date that `s` denotes under the `strftime`-style format `fmt`, as
/// year, month and day, when `s` matches the format and names a real date.
pub uninterp spec fn parsed_date(s: Seq<char>, fmt: Seq<char>) -> Option<(int, int, int)>;

/// Relies on chrono's `NaiveDate::parse_from_str` to parse `s` under `fmt`,
/// and on `Datelike::{year, month, day}`, whose months run from 1 to 12 and
/// days from 1 to 31.
#[verifier::external_body]
fn parse_date(s: &str, fmt: &str) -> (r: Option<Date>)
    ensures
        match r {
            Some(d) => parsed_date(s@, fmt@) == Some((d.year as int, d.month as int, d.day as int))
                && 1 <= d.month <= 12 && 1 <= d.day <= 31,
            None => parsed_date(s@, fmt@) is None,
        },
{
    match NaiveDate::parse_from_str(s, fmt) {
        Ok(d) => Some(Date { year: d.year(), month: d.month(), day: d.day() }),
        Err(_) => None,
    }
}

/// Day, month and year separated by dots, as in `26.05.2020`.
pub const DATE_FORMAT: &'static str = "%d.%m.%Y";

pub open spec fn date_of(p: Option<(int, int, int)>) -> Option<Date> {
    match p {
        Some((y, m, d)) => Some(Date { year: y as i32, month: m as u32, day: d as u32 }),
        None => None,
    }
}

/// Parses a date written as `dd.mm.yyyy`; `None` when it is not one.
pub fn parse_to_date(date: &str) -> (r: Option<Date>)
    ensures
        r == date_of(parsed_date(date@, DATE_FORMAT@)),
        r matches Some(d) ==> 1 <= d.month <= 12 && 1 <= d.day <= 31,
{
    parse_date(date, DATE_FORMAT)
}

} // verus!
