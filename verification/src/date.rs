//! Calendar dates: a proleptic Gregorian year, month and day, in the range
//! that `chrono::NaiveDate` can hold. Parsing and formatting are chrono's.
use chrono::Datelike;
use chrono::NaiveDate;
use std::fmt::Write;
use vstd::prelude::*;
use crate::text::nat_text;

verus! {

/// Smallest year a `chrono::NaiveDate` holds.
pub const MIN_YEAR: i32 = -262143;

/// Largest year a `chrono::NaiveDate` holds.
pub const MAX_YEAR: i32 = 262142;

pub open spec fn is_leap_year(y: int) -> bool {
    y % 4 == 0 && (y % 100 != 0 || y % 400 == 0)
}

pub open spec fn days_in_month(y: int, m: int) -> int {
    if m == 2 {
        if is_leap_year(y) {
            29
        } else {
            28
        }
    } else if m == 4 || m == 6 || m == 9 || m == 11 {
        30
    } else {
        31
    }
}

/// The calendar day exists and lies in chrono's range.
pub open spec fn valid_ymd(y: int, m: int, d: int) -> bool {
    &&& MIN_YEAR <= y <= MAX_YEAR
    &&& 1 <= m <= 12
    &&& 1 <= d <= days_in_month(y, m)
}

/// `n` in decimal, zero-padded on the left to at least `width` digits.
pub open spec fn padded(n: nat, width: nat) -> Seq<char>
    decreases width,
{
    if nat_text(n).len() >= width {
        nat_text(n)
    } else {
        seq!['0'] + padded(n, (width - 1) as nat)
    }
}

/// The year as ISO 8601 writes it: four digits within 0..=9999, otherwise a
/// sign and at least four digits.
pub open spec fn iso_year(y: int) -> Seq<char> {
    if 0 <= y <= 9999 {
        padded(y as nat, 4)
    } else if y < 0 {
        seq!['-'] + padded((-y) as nat, 4)
    } else {
        seq!['+'] + padded(y as nat, 4)
    }
}

/// `YYYY-MM-DD`.
pub open spec fn iso_text(y: int, m: int, d: int) -> Seq<char> {
    iso_year(y) + seq!['-'] + padded(m as nat, 2) + seq!['-'] + padded(d as nat, 2)
}

/// Name for what `NaiveDate::parse_from_str` gives for a text and a format:
/// the date's year, month and day, or the text of chrono's parse error.
pub uninterp spec fn chrono_parse(text: Seq<char>, format: Seq<char>) -> Result<(i32, u32, u32), Seq<char>>;

/// Name for the text that formatting a date with a chrono format string
/// writes, or `None` where the format cannot be written for a date.
pub uninterp spec fn chrono_format(y: i32, m: u32, d: u32, format: Seq<char>) -> Option<Seq<char>>;

/// The chrono format of an ISO date, `%Y-%m-%d`.
pub open spec fn iso_date_format() -> Seq<char> {
    "%Y-%m-%d"@
}

/// A successful parse giving a year, month and day.
pub open spec fn parsed_ymd(y: i32, m: u32, d: u32) -> Result<(i32, u32, u32), Seq<char>> {
    Ok((y, m, d))
}

/// A calendar date.
#[derive(Clone, Copy, Debug, PartialEq, Eq)]
pub struct Date {
    year: i32,
    month: u32,
    day: u32,
}

/// `NaiveDate::from_ymd_opt(y, m, d).is_some()`: chrono documents that it is
/// `None` exactly for a day that does not exist, an invalid month or day, or
/// a year out of its range.
#[verifier::external_body]
fn chrono_ymd_exists(y: i32, m: u32, d: u32) -> (r: bool)
    ensures
        r == valid_ymd(y as int, m as int, d as int),
{
    NaiveDate::from_ymd_opt(y, m, d).is_some()
}

/// `NaiveDate::parse_from_str`, the date taken apart into year, month and day
/// and the error turned into its text. A `NaiveDate` is always a valid day.
#[verifier::external_body]
fn chrono_parse_from_str(text: &str, format: &str) -> (r: Result<(i32, u32, u32), String>)
    ensures
        match r {
            Ok(t) => chrono_parse(text@, format@) == Ok::<(i32, u32, u32), Seq<char>>(t)
                && valid_ymd(t.0 as int, t.1 as int, t.2 as int),
            Err(e) => chrono_parse(text@, format@) == Err::<(i32, u32, u32), Seq<char>>(e@),
        },
{
    match NaiveDate::parse_from_str(text, format) {
        Ok(d) => Ok((d.year(), d.month(), d.day())),
        Err(e) => Err(e.to_string()),
    }
}

/// `NaiveDate::format` written out with `write!`, which reports an error for
/// a format that cannot be written for a date (instead of panicking as
/// `to_string` would).
#[verifier::external_body]
fn chrono_format_ymd(y: i32, m: u32, d: u32, format: &str) -> (r: Option<String>)
    requires
        valid_ymd(y as int, m as int, d as int),
    ensures
        match r {
            Some(s) => chrono_format(y, m, d, format@) == Some(s@),
            None => chrono_format(y, m, d, format@) == None::<Seq<char>>,
        },
{
    let date = NaiveDate::from_ymd_opt(y, m, d).unwrap();
    let mut out = String::new();
    write!(out, "{}", date.format(format)).ok().map(|_| out)
}

/// The `Display` text of a `NaiveDate`, which chrono documents (and writes)
/// as ISO 8601 `YYYY-MM-DD`, with a sign before years outside 0..=9999.
/// For a year in 0..=9999 chrono's parser reads that text back with
/// `%Y-%m-%d` as the same day: `%Y` takes up to four unsigned digits,
/// `%m` and `%d` two each, and the dashes are literal.
#[verifier::external_body]
fn chrono_display(y: i32, m: u32, d: u32) -> (r: String)
    requires
        valid_ymd(y as int, m as int, d as int),
    ensures
        r@ == iso_text(y as int, m as int, d as int),
        0 <= y <= 9999 ==> chrono_parse(r@, iso_date_format()) == parsed_ymd(y, m, d),
{
    NaiveDate::from_ymd_opt(y, m, d).unwrap().to_string()
}

impl Date {
    #[verifier::type_invariant]
    spec fn exists_in_calendar(self) -> bool {
        valid_ymd(self.year as int, self.month as int, self.day as int)
    }

    /// The date with these parts (meaningful for a valid day).
    pub closed spec fn from_parts(year: i32, month: u32, day: u32) -> Date {
        Date { year, month, day }
    }

    pub closed spec fn spec_year(self) -> i32 {
        self.year
    }

    pub closed spec fn spec_month(self) -> u32 {
        self.month
    }

    pub closed spec fn spec_day(self) -> u32 {
        self.day
    }

    /// A date is the date of its own parts.
    pub proof fn lemma_from_own_parts(self)
        ensures
            Date::from_parts(self.spec_year(), self.spec_month(), self.spec_day()) == self,
    {
    }

    /// ISO text is never empty.
    pub proof fn lemma_iso_nonempty(self)
        ensures
            self.iso().len() > 0,
    {
    }

    /// The date with the given year, month and day, if that day exists.
    pub fn from_ymd(year: i32, month: u32, day: u32) -> (r: Option<Date>)
        ensures
            r is Some <==> valid_ymd(year as int, month as int, day as int),
            r matches Some(d) ==> d.spec_year() == year && d.spec_month() == month
                && d.spec_day() == day,
    {
        if chrono_ymd_exists(year, month, day) {
            Some(Date { year, month, day })
        } else {
            None
        }
    }

    pub fn year(&self) -> (r: i32)
        ensures
            r == self.spec_year(),
    {
        self.year
    }

    pub fn month(&self) -> (r: u32)
        ensures
            r == self.spec_month(),
    {
        self.month
    }

    pub fn day(&self) -> (r: u32)
        ensures
            r == self.spec_day(),
    {
        self.day
    }

    /// ISO 8601 text of the date.
    pub closed spec fn iso(self) -> Seq<char> {
        iso_text(self.year as int, self.month as int, self.day as int)
    }

    /// The date in ISO 8601 form, `YYYY-MM-DD`, which parses back with
    /// `%Y-%m-%d` as the same date for a year in 0..=9999.
    pub fn text(&self) -> (r: String)
        ensures
            r@ == self.iso(),
            0 <= self.spec_year() <= 9999 ==> chrono_parse(r@, iso_date_format()) == parsed_ymd(
                self.spec_year(),
                self.spec_month(),
                self.spec_day(),
            ),
    {
        proof {
            use_type_invariant(self);
        }
        chrono_display(self.year, self.month, self.day)
    }

    /// The date parsed from `text` by a chrono format string, or chrono's
    /// reason for refusing it.
    pub fn parse(text: &str, format: &str) -> (r: Result<Date, String>)
        ensures
            match chrono_parse(text@, format@) {
                Ok(t) => r matches Ok(d) && d == Date::from_parts(t.0, t.1, t.2),
                Err(e) => r matches Err(m) && m@ == e,
            },
    {
        match chrono_parse_from_str(text, format) {
            Ok((year, month, day)) => Ok(Date { year, month, day }),
            Err(e) => Err(e),
        }
    }

    /// The text chrono writes for the date with a format string, or `None`
    /// where the format cannot be written.
    pub fn format(&self, format: &str) -> (r: Option<String>)
        ensures
            match chrono_format(self.spec_year(), self.spec_month(), self.spec_day(), format@) {
                Some(s) => r matches Some(t) && t@ == s,
                None => r is None,
            },
    {
        proof {
            use_type_invariant(self);
        }
        chrono_format_ymd(self.year, self.month, self.day, format)
    }
}

} // verus!
