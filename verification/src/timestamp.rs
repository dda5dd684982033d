//! The date and time of an entry, and its written forms.
//!
//! Reading and writing a timestamp by a format string is chrono's work. The
//! library holds a timestamp as its calendar fields and hands them over for
//! each call.

use chrono::{Datelike, NaiveDate, NaiveDateTime, Timelike};
use std::fmt::Write;
use vstd::prelude::*;

verus! {

/// A date and time of day without a time zone, by its calendar fields.
#[derive(Clone, Copy, Debug, PartialEq, Eq, Structural)]
pub struct Timestamp {
    pub year: i32,
    /// 1 to 12.
    pub month: u32,
    /// 1 to 31.
    pub day: u32,
    /// 0 to 23.
    pub hour: u32,
    /// 0 to 59.
    pub minute: u32,
    /// 0 to 59.
    pub second: u32,
    /// Below 1,000,000,000, or below 2,000,000,000 within a leap second.
    pub nanosecond: u32,
}

/// The timestamp that chrono reads from `text` by the format string
/// `format`, or `None` where it reads none.
pub uninterp spec fn chrono_parse(text: Seq<char>, format: Seq<char>) -> Option<Timestamp>;

/// What chrono writes for `stamp` by the format string `format`, or `None`
/// where the fields are no date and time or the format cannot be written.
pub uninterp spec fn chrono_format(stamp: Timestamp, format: Seq<char>) -> Option<Seq<char>>;

/// The format in which a timestamp is shown where no other is asked for:
/// date, time of day, and the fraction of the second if there is one.
pub open spec fn plain_format() -> Seq<char> {
    seq!['%', 'Y', '-', '%', 'm', '-', '%', 'd', ' ', '%', 'H', ':', '%', 'M', ':', '%', 'S', '%', '.', 'f']
}

/// Calls `chrono::NaiveDateTime::parse_from_str` on `text` and `format` and
/// hands out the fields of the date and time it read. Trusted: the result is
/// what chrono reads from these two strings, `None` for each of its errors.
#[verifier::external_body]
pub(crate) fn parse_timestamp(text: &str, format: &str) -> (r: Option<Timestamp>)
    ensures
        r == chrono_parse(text@, format@),
{
    match NaiveDateTime::parse_from_str(text, format) {
        Ok(t) => Some(
            Timestamp {
                year: t.year(),
                month: t.month(),
                day: t.day(),
                hour: t.hour(),
                minute: t.minute(),
                second: t.second(),
                nanosecond: t.nanosecond(),
            },
        ),
        Err(_) => None,
    }
}

/// Builds chrono's `NaiveDateTime` from the fields of `stamp` and writes it
/// with `NaiveDateTime::format`. Trusted: the result is what chrono writes
/// for these fields and this format; `None` where chrono takes the fields
/// for no date and time, or reports an error while writing.
#[verifier::external_body]
pub(crate) fn format_timestamp(stamp: &Timestamp, format: &str) -> (r: Option<String>)
    ensures
        match r {
            Some(s) => chrono_format(*stamp, format@) == Some(s@),
            None => chrono_format(*stamp, format@) is None,
        },
{
    let date = NaiveDate::from_ymd_opt(stamp.year, stamp.month, stamp.day)?;
    let t = date.and_hms_nano_opt(stamp.hour, stamp.minute, stamp.second, stamp.nanosecond)?;
    let mut out = String::new();
    match write!(out, "{}", t.format(format)) {
        Ok(()) => Some(out),
        Err(_) => None,
    }
}

impl Timestamp {
    /// The timestamp in the plain format.
    pub fn plain(&self) -> (r: Option<String>)
        ensures
            match r {
                Some(s) => chrono_format(*self, plain_format()) == Some(s@),
                None => chrono_format(*self, plain_format()) is None,
            },
    {
        proof {
            reveal_strlit("%Y-%m-%d %H:%M:%S%.f");
        }
        let format = "%Y-%m-%d %H:%M:%S%.f";
        assert(format@ =~= plain_format());
        format_timestamp(self, format)
    }
}

} // verus!
