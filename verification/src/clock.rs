//! Reading the clock.

use chrono::Datelike;
use vstd::prelude::*;

verus! {

/// Today's UTC date as a day number, through `chrono::Utc::now`. Trusted;
/// the result depends on the time, so nothing is stated of it beyond its type.
#[verifier::external_body]
pub(crate) fn today_day_number() -> (res: i32) {
    chrono::Utc::now().date_naive().num_days_from_ce()
}

/// The ISO text (`YYYY-MM-DD`) chrono's `NaiveDate` displays for the date
/// with the given day number (January 1 of year 1 being day 1), or `None`
/// where chrono has no such date.
pub uninterp spec fn date_text(day: int) -> Option<Seq<char>>;

/// `NaiveDate::from_num_days_from_ce_opt` followed by its `Display`.
/// Trusted: the result is `date_text` of the day number, a function of the
/// day number alone; neither the range of days chrono accepts nor the
/// calendar arithmetic is stated.
#[verifier::external_body]
pub(crate) fn format_day(day: i32) -> (res: Option<String>)
    ensures
        match res {
            Some(s) => date_text(day as int) == Some(s@),
            None => date_text(day as int) is None,
        },
{
    match chrono::NaiveDate::from_num_days_from_ce_opt(day) {
        Some(d) => Some(d.to_string()),
        None => None,
    }
}

/// The day number (January 1 of year 1 being day 1) of the date that
/// chrono's `NaiveDate` parser reads from a text, or `None` where it reads
/// none.
pub uninterp spec fn parsed_day(text: Seq<char>) -> Option<int>;

/// `str::parse::<NaiveDate>` followed by `num_days_from_ce`. Trusted: the
/// result is `parsed_day` of the text, a function of the text alone; the
/// accepted formats and the calendar arithmetic are not stated.
#[verifier::external_body]
pub(crate) fn parse_day(text: &str) -> (res: Option<i32>)
    ensures
        match res {
            Some(d) => parsed_day(text@) == Some(d as int),
            None => parsed_day(text@) is None,
        },
{
    match text.parse::<chrono::NaiveDate>() {
        Ok(d) => Some(d.num_days_from_ce()),
        Err(_) => None,
    }
}

/// The day number (January 1 of year 1 being day 1) of a calendar date,
/// or `None` where chrono's `NaiveDate` has no such date.
pub uninterp spec fn calendar_day(year: int, month: int, day: int) -> Option<int>;

/// `NaiveDate::from_ymd_opt` followed by `num_days_from_ce`. Trusted: the
/// result is `calendar_day` of the date, a function of the date alone; the
/// calendar arithmetic is not stated.
#[verifier::external_body]
pub(crate) fn day_of_date(year: i32, month: u32, day: u32) -> (res: Option<i32>)
    ensures
        match res {
            Some(d) => calendar_day(year as int, month as int, day as int) == Some(d as int),
            None => calendar_day(year as int, month as int, day as int) is None,
        },
{
    match chrono::NaiveDate::from_ymd_opt(year, month, day) {
        Some(d) => Some(d.num_days_from_ce()),
        None => None,
    }
}

} // verus!
