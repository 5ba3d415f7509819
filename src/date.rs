use chrono::Datelike;
use vstd::prelude::*;

use crate::text::{dec, digit_char};

verus! {

/// A calendar date of the proleptic Gregorian calendar, without time of day.
#[derive(Clone, Copy, Debug, PartialEq, Eq, Structural)]
pub struct Date {
    pub year: i32,
    pub month: u32,
    pub day: u32,
}

pub open spec fn is_leap_year(y: int) -> bool {
    (y % 4 == 0 && y % 100 != 0) || y % 400 == 0
}

pub open spec fn days_in_month(y: int, m: int) -> int {
    if m == 2 {
        if is_leap_year(y) { 29 } else { 28 }
    } else if m == 4 || m == 6 || m == 9 || m == 11 {
        30
    } else {
        31
    }
}

/// `n` in decimal, zero-padded on the left to at least four digits.
pub open spec fn pad4(n: nat) -> Seq<char> {
    let d = dec(n);
    if d.len() < 4 {
        Seq::new((4 - d.len()) as nat, |i: int| '0') + d
    } else {
        d
    }
}

/// A year in the fixed pattern: four digits, with an explicit sign outside `0..=9999`.
pub open spec fn year_text(y: int) -> Seq<char> {
    if 0 <= y <= 9999 {
        pad4(y as nat)
    } else if y < 0 {
        seq!['-'] + pad4((-y) as nat)
    } else {
        seq!['+'] + pad4(y as nat)
    }
}

pub open spec fn two_digits(n: int) -> Seq<char> {
    seq![digit_char(n / 10), digit_char(n % 10)]
}

/// The fixed `YYYY-MM-DD` rendering of a date.
pub open spec fn date_text(d: Date) -> Seq<char> {
    year_text(d.year as int) + seq!['-'] + two_digits(d.month as int) + seq!['-'] + two_digits(
        d.day as int,
    )
}

/// Chronological `<=`.
pub open spec fn date_le(a: Date, b: Date) -> bool {
    a.year < b.year || (a.year == b.year && (a.month < b.month || (a.month == b.month && a.day
        <= b.day)))
}

impl Date {
    /// A real calendar date within the range of years that chrono represents.
    pub open spec fn wf(self) -> bool {
        &&& -262143 <= self.year <= 262142
        &&& 1 <= self.month <= 12
        &&& 1 <= self.day <= days_in_month(self.year as int, self.month as int)
    }

    /// The date in the fixed `YYYY-MM-DD` pattern; it reads back as the same date.
    pub fn text(&self) -> (r: String)
        requires
            self.wf(),
        ensures
            r@ == date_text(*self),
            parsed_date(r@) == Some((self.year as int, self.month as int, self.day as int)),
    {
        chrono_format_date(self)
    }

    /// Chronological comparison.
    pub fn le(&self, other: &Date) -> (r: bool)
        ensures
            r == date_le(*self, *other),
    {
        self.year < other.year || (self.year == other.year && (self.month < other.month || (
        self.month == other.month && self.day <= other.day)))
    }

    /// Reads a date written in the fixed pattern.
    pub fn parse(s: &str) -> (r: Option<Date>)
        ensures
            r is Some <==> parsed_date(s@) is Some,
            r matches Some(d) ==> d.wf() && parsed_date(s@) == Some(
                (d.year as int, d.month as int, d.day as int),
            ),
    {
        chrono_parse_date(s)
    }
}

/// The year, month and day that chrono reads from a text with the format `%Y-%m-%d`.
pub uninterp spec fn parsed_date(s: Seq<char>) -> Option<(int, int, int)>;

/// Relies on chrono's `NaiveDate::parse_from_str` with the format `%Y-%m-%d`:
/// the outcome depends on the text alone; a `NaiveDate` is always a valid date in
/// chrono's year range.
#[verifier::external_body]
fn chrono_parse_date(s: &str) -> (r: Option<Date>)
    ensures
        r is Some <==> parsed_date(s@) is Some,
        r matches Some(d) ==> d.wf() && parsed_date(s@) == Some(
            (d.year as int, d.month as int, d.day as int),
        ),
{
    match chrono::NaiveDate::parse_from_str(s, "%Y-%m-%d") {
        Ok(d) => Some(Date { year: d.year(), month: d.month(), day: d.day() }),
        Err(_) => None,
    }
}

/// Relies on chrono's `NaiveDate::from_ymd_opt`, which accepts every valid date, and
/// `NaiveDate::format` with `%Y-%m-%d`: the year zero-padded to four digits, signed
/// outside `0..=9999`, then month and day as two digits each; chrono's
/// `parse_from_str` with the same format reads that text back as the same date.
#[verifier::external_body]
fn chrono_format_date(d: &Date) -> (r: String)
    requires
        d.wf(),
    ensures
        r@ == date_text(*d),
        parsed_date(r@) == Some((d.year as int, d.month as int, d.day as int)),
{
    match chrono::NaiveDate::from_ymd_opt(d.year, d.month, d.day) {
        Some(nd) => nd.format("%Y-%m-%d").to_string(),
        None => String::new(),
    }
}

} // verus!
