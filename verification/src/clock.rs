//! Dates and times as text, done by the `chrono` crate. The present moment
//! comes from the caller, as seconds since the epoch and the local offset
//! from UTC in seconds.

use std::fmt::Write;
use vstd::prelude::*;
use vstd::string::*;

verus! {

/// The moment `secs` seconds after the epoch, at `offset` seconds east of
/// UTC, written by `chrono` in the format `format`; `None` where `chrono` has
/// no such moment, offset or format.
pub uninterp spec fn formatted_time(secs: i64, offset: i32, format: Seq<char>) -> Option<Seq<char>>;

/// The date that `chrono` reads in `text` by the format `format`, written in
/// that format again; or `chrono`'s words for why it reads none.
pub uninterp spec fn normalized_date(text: Seq<char>, format: Seq<char>) -> Result<
    Seq<char>,
    Seq<char>,
>;

/// `chrono::DateTime::from_timestamp`, `FixedOffset::east_opt` and
/// `DateTime::format`: the given moment in the given format. The result is a
/// function of the three values alone.
#[verifier::external_body]
pub(crate) fn format_time(secs: i64, offset: i32, format: &str) -> (r: Option<String>)
    ensures
        r.deep_view() == formatted_time(secs, offset, format@),
{
    let zone = chrono::FixedOffset::east_opt(offset)?;
    let moment = chrono::DateTime::from_timestamp(secs, 0)?.with_timezone(&zone);
    let mut out = String::new();
    match write!(out, "{}", moment.format(format)) {
        Ok(()) => Some(out),
        Err(_) => None,
    }
}

/// `chrono::NaiveDate::parse_from_str` and `NaiveDate::format`: the date
/// read in `text`, written in the same format. The result is a function of
/// the two strings alone.
#[verifier::external_body]
pub(crate) fn normalize_date(text: &str, format: &str) -> (r: Result<String, String>)
    ensures
        match r {
            Ok(d) => normalized_date(text@, format@) == Ok::<Seq<char>, Seq<char>>(d@),
            Err(e) => normalized_date(text@, format@) == Err::<Seq<char>, Seq<char>>(e@),
        },
{
    match chrono::NaiveDate::parse_from_str(text, format) {
        Ok(date) => {
            let mut out = String::new();
            match write!(out, "{}", date.format(format)) {
                Ok(()) => Ok(out),
                Err(e) => Err(e.to_string()),
            }
        },
        Err(e) => Err(e.to_string()),
    }
}

} // verus!
