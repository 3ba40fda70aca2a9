//! Calendar dates given as `YYYY-MM-DD` text, read with chrono.

use vstd::prelude::*;

use chrono::Datelike;

use crate::error::CamshaftError;

verus! {

/// A day of the proleptic Gregorian calendar.
#[derive(Debug, Clone, Copy, PartialEq, Eq)]
pub struct CalendarDate {
    pub year: i32,
    pub month: u32,
    pub day: u32,
}

/// What `NaiveDate::parse_from_str(s, "%Y-%m-%d")` gives for `s`: the date
/// as (year, month, day), or the text of chrono's parse error.
pub uninterp spec fn ymd_parse(s: Seq<char>) -> Result<(i32, u32, u32), Seq<char>>;

/// `chrono::NaiveDate::parse_from_str` with the format `%Y-%m-%d`. Its
/// result is a function of `s`; the contract names it and adds what chrono
/// documents of a date: a month in 1..=12 and a day in 1..=31.
#[verifier::external_body]
pub(crate) fn parse_ymd(s: &str) -> (r: Result<CalendarDate, String>)
    ensures
        match r {
            Ok(d) => ymd_parse(s@) == Ok::<(i32, u32, u32), Seq<char>>((d.year, d.month, d.day))
                && 1 <= d.month <= 12 && 1 <= d.day <= 31,
            Err(e) => ymd_parse(s@) == Err::<(i32, u32, u32), Seq<char>>(e@),
        },
{
    match chrono::NaiveDate::parse_from_str(s, "%Y-%m-%d") {
        Ok(d) => Ok(CalendarDate { year: d.year(), month: d.month(), day: d.day() }),
        Err(e) => Err(e.to_string()),
    }
}

/// The result of reading a date as plain values.
pub open spec fn date_result_view(r: Result<CalendarDate, String>) -> Result<(i32, u32, u32), Seq<char>> {
    match r {
        Ok(d) => Ok((d.year, d.month, d.day)),
        Err(e) => Err(e@),
    }
}

/// The plan start date given to `init`: a `YYYY-MM-DD` date, else a
/// validation error that quotes chrono's reason.
pub fn parse_start_date(s: &str) -> (r: Result<CalendarDate, CamshaftError>)
    ensures
        match ymd_parse(s@) {
            Ok(t) => (r matches Ok(d) && (d.year, d.month, d.day) == t),
            Err(e) => (r matches Err(CamshaftError::ValidationFailed(m)) && m@ == "Invalid date: "@
                + e),
        },
{
    match parse_ymd(s) {
        Ok(d) => Ok(d),
        Err(e) => Err(
            CamshaftError::ValidationFailed(String::from_str("Invalid date: ").concat(e.as_str())),
        ),
    }
}

} // verus!
