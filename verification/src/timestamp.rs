//! The moment of a request, as far as filtering and grouping look at it.

use crate::number::{decimal_text, signed_decimal, two_digits};
use chrono::{DateTime, Datelike};
use vstd::prelude::*;

verus! {

/// The moment at which a request was logged: its canonical text, which
/// carries date, time of day and offset from UTC, and the calendar day on
/// which it falls at that offset.
#[derive(Clone, Debug, PartialEq, Eq, Hash)]
pub struct Timestamp {
    /// Date, time of day and offset, as `2023-10-10 13:55:36 +00:00`.
    pub text: String,
    pub year: i32,
    pub month: u32,
    pub day: u32,
}

/// A `Timestamp` as contracts speak of it.
pub struct TimestampView {
    pub text: Seq<char>,
    pub year: int,
    pub month: int,
    pub day: int,
}

impl View for Timestamp {
    type V = TimestampView;

    open spec fn view(&self) -> TimestampView {
        TimestampView {
            text: self.text@,
            year: self.year as int,
            month: self.month as int,
            day: self.day as int,
        }
    }
}

/// What `chrono::DateTime::parse_from_str` makes of `text` when it reads it
/// under `format`: nothing where it reports an error, else the date-time's
/// `to_string`, `year`, `month` and `day`.
pub uninterp spec fn parsed_moment(text: Seq<char>, format: Seq<char>) -> Option<TimestampView>;

/// The form in which a record writes its timestamp: day, abbreviated month
/// name, year, time of day and offset, as `10/Oct/2023:13:55:36 +0000`.
pub open spec fn wire_format() -> Seq<char> {
    "%d/%b/%Y:%H:%M:%S %z"@
}

/// The first moment of 1970 at UTC, which stands for a timestamp that
/// could not be read.
pub open spec fn epoch() -> TimestampView {
    TimestampView { text: "1970-01-01 00:00:00 +00:00"@, year: 1970, month: 1, day: 1 }
}

/// The moment that a record's timestamp text stands for.
pub open spec fn moment_of(text: Seq<char>) -> TimestampView {
    match parsed_moment(text, wire_format()) {
        Some(moment) => moment,
        None => epoch(),
    }
}

/// The calendar day of `moment` as year, month and day with hyphens
/// between them, month and day in two digits.
pub open spec fn date_of(moment: TimestampView) -> Seq<char> {
    signed_decimal(moment.year) + seq!['-'] + two_digits(moment.month as nat) + seq!['-']
        + two_digits(moment.day as nat)
}

/// Calls `chrono::DateTime::parse_from_str` on `text` and `format`. The
/// contract names what comes back and claims nothing else of it: `None`
/// for chrono's error, else chrono's own rendering of the date-time
/// (`to_string`) with its `year`, `month` and `day`.
#[verifier::external_body]
fn parse_moment(text: &str, format: &str) -> (r: Option<Timestamp>)
    ensures
        r is Some ==> parsed_moment(text@, format@) == Some(r.unwrap()@),
        r is None ==> parsed_moment(text@, format@) is None,
{
    match DateTime::parse_from_str(text, format) {
        Ok(moment) => Some(
            Timestamp {
                text: moment.to_string(),
                year: moment.year(),
                month: moment.month(),
                day: moment.day(),
            },
        ),
        Err(_) => None,
    }
}

impl Default for Timestamp {
    /// The epoch.
    fn default() -> (r: Self)
        ensures
            r@ == epoch(),
    {
        Timestamp { text: String::from_str("1970-01-01 00:00:00 +00:00"), year: 1970, month: 1, day: 1 }
    }
}

impl Timestamp {
    /// What was read, or the epoch where nothing was.
    pub fn or_epoch(read: Option<Timestamp>) -> (r: Timestamp)
        ensures
            read is Some ==> r@ == read.unwrap()@,
            read is None ==> r@ == epoch(),
    {
        match read {
            Some(moment) => moment,
            None => Timestamp::default(),
        }
    }

    /// Reads a timestamp in the form in which a record writes it. A text
    /// in another form gives the epoch.
    pub fn parse(text: &str) -> (r: Timestamp)
        ensures
            r@ == moment_of(text@),
    {
        Timestamp::or_epoch(parse_moment(text, "%d/%b/%Y:%H:%M:%S %z"))
    }

    /// The calendar day as `2023-10-10`.
    pub fn date_text(&self) -> (r: String)
        ensures
            r@ == date_of(self@),
    {
        let year: i64 = self.year as i64;
        let mut r = if year < 0 {
            let mut signed = String::from_str("-");
            let digits = decimal_text((-year) as u64);
            signed.append(digits.as_str());
            signed
        } else {
            decimal_text(year as u64)
        };
        proof {
            reveal_strlit("-");
            reveal_strlit("0");
        }
        r.append("-");
        if self.month < 10 {
            r.append("0");
        }
        let month = decimal_text(self.month as u64);
        r.append(month.as_str());
        r.append("-");
        if self.day < 10 {
            r.append("0");
        }
        let day = decimal_text(self.day as u64);
        r.append(day.as_str());
        r
    }
}

} // verus!
