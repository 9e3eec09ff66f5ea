//! Calendar timestamps at second precision, the value part of an index
//! record, together with their fixed-width textual form.

use vstd::prelude::*;
use chrono::Datelike;
use chrono::Timelike;

verus! {

/// A calendar timestamp at second precision.
#[derive(Clone, Copy, PartialEq, Eq, Structural, Debug)]
pub struct Timestamp {
    pub year: i32,
    pub month: u8,
    pub day: u8,
    pub hour: u8,
    pub minute: u8,
    pub second: u8,
}

/// Leap-year rule of the proleptic Gregorian calendar.
pub open spec fn is_leap_year(y: int) -> bool {
    y % 4 == 0 && (y % 100 != 0 || y % 400 == 0)
}

/// Number of days of month `m` of year `y` (months counted from 1).
pub open spec fn days_in_month(y: int, m: int) -> int {
    if m == 2 {
        if is_leap_year(y) {
            29
        } else {
            28
        }
    } else if m == 4 || m == 6 || m == 9 || m == 11 {
        30
    } else {
        31
    }
}

impl Timestamp {
    /// Field ranges that any parsed value satisfies: a real calendar date
    /// with in-range time-of-day fields.
    pub open spec fn fields_ok(self) -> bool {
        1 <= self.month <= 12
        && 1 <= self.day <= days_in_month(self.year as int, self.month as int)
        && self.hour <= 23
        && self.minute <= 59
        && self.second <= 59
    }

    /// Well-formed: a real calendar date whose year the fixed four-digit
    /// text form can carry.
    pub open spec fn wf(self) -> bool {
        self.fields_ok() && 0 <= self.year <= 9999
    }
}

/// The decimal digit character for `n` (meaningful for `0 <= n <= 9`).
pub open spec fn dec_digit(n: int) -> char {
    if n == 0 { '0' }
    else if n == 1 { '1' }
    else if n == 2 { '2' }
    else if n == 3 { '3' }
    else if n == 4 { '4' }
    else if n == 5 { '5' }
    else if n == 6 { '6' }
    else if n == 7 { '7' }
    else if n == 8 { '8' }
    else if n == 9 { '9' }
    else { '?' }
}

/// `n` as two zero-padded decimal digits (meaningful for `0 <= n <= 99`).
pub open spec fn dec2(n: int) -> Seq<char> {
    seq![dec_digit(n / 10), dec_digit(n % 10)]
}

/// `n` as four zero-padded decimal digits (meaningful for `0 <= n <= 9999`).
pub open spec fn dec4(n: int) -> Seq<char> {
    seq![dec_digit(n / 1000), dec_digit((n / 100) % 10), dec_digit((n / 10) % 10), dec_digit(n % 10)]
}

/// The fixed-width "year-month-day hour:minute:second" text of a timestamp.
pub open spec fn ts_text(t: Timestamp) -> Seq<char> {
    dec4(t.year as int) + seq!['-'] + dec2(t.month as int) + seq!['-'] + dec2(t.day as int)
        + seq![' '] + dec2(t.hour as int) + seq![':'] + dec2(t.minute as int) + seq![':']
        + dec2(t.second as int)
}

/// The rendered text is 19 characters of decimal digits and fixed
/// punctuation: no line break, no separator character, no whitespace at
/// either edge, so an index line carries it faithfully.
pub proof fn lemma_ts_text_shape(t: Timestamp)
    ensures
        ts_text(t).len() == 19,
        forall|j: int| 0 <= j < 19 ==> ts_text(t)[j] != '%' && ts_text(t)[j] != '\n',
        crate::text::trim(ts_text(t)) == ts_text(t),
{
    let s = ts_text(t);
    assert(s =~= seq![
        dec_digit(t.year as int / 1000),
        dec_digit((t.year as int / 100) % 10),
        dec_digit((t.year as int / 10) % 10),
        dec_digit(t.year as int % 10),
        '-',
        dec_digit(t.month as int / 10),
        dec_digit(t.month as int % 10),
        '-',
        dec_digit(t.day as int / 10),
        dec_digit(t.day as int % 10),
        ' ',
        dec_digit(t.hour as int / 10),
        dec_digit(t.hour as int % 10),
        ':',
        dec_digit(t.minute as int / 10),
        dec_digit(t.minute as int % 10),
        ':',
        dec_digit(t.second as int / 10),
        dec_digit(t.second as int % 10),
    ]);
    assert(!crate::text::is_space(s[0]));
    assert(!crate::text::is_space(s[18]));
}

/// What parsing a piece of text in the fixed timestamp format yields: the
/// result of the outside parser, a function of the text alone.
pub uninterp spec fn ts_parse(s: Seq<char>) -> Option<Timestamp>;

/// Relies on chrono's `NaiveDateTime::parse_from_str` with the fixed
/// "%Y-%m-%d %H:%M:%S" format: the result is a function of the text alone,
/// the whole text must match, and a parsed value is a real calendar date
/// with in-range time-of-day fields.
#[verifier::external_body]
fn chrono_parse_datetime(s: &str) -> (r: Option<Timestamp>)
    ensures
        r == ts_parse(s@),
        r is Some ==> r.unwrap().fields_ok(),
{
    match chrono::NaiveDateTime::parse_from_str(s, "%Y-%m-%d %H:%M:%S") {
        Ok(dt) => Some(Timestamp {
            year: dt.year(),
            month: dt.month() as u8,
            day: dt.day() as u8,
            hour: dt.hour() as u8,
            minute: dt.minute() as u8,
            second: dt.second() as u8,
        }),
        Err(_) => None,
    }
}

/// Relies on chrono's `NaiveDate::from_ymd_opt` / `and_hms_opt`, which accept
/// every real calendar date, and on formatting with the fixed
/// "%Y-%m-%d %H:%M:%S" format, which zero-pads each field (four digits for
/// years 0 to 9999) and which `parse_from_str` with the same format inverts.
#[verifier::external_body]
fn chrono_format_datetime(t: &Timestamp) -> (r: String)
    requires
        t.wf(),
    ensures
        r@ == ts_text(*t),
        ts_parse(r@) == Some(*t),
{
    let date = chrono::NaiveDate::from_ymd_opt(t.year, t.month as u32, t.day as u32).unwrap();
    let dt = date.and_hms_opt(t.hour as u32, t.minute as u32, t.second as u32).unwrap();
    dt.format("%Y-%m-%d %H:%M:%S").to_string()
}

impl Timestamp {
    /// Parses the fixed timestamp format; text that does not denote a
    /// well-formed timestamp (in particular a year outside the four-digit
    /// range) yields `None`.
    pub fn parse(s: &str) -> (r: Option<Timestamp>)
        ensures
            r == (match ts_parse(s@) {
                Some(t) => if t.wf() { Some(t) } else { None::<Timestamp> },
                None => None::<Timestamp>,
            }),
            r is Some ==> r.unwrap().wf() && r == ts_parse(s@),
    {
        match chrono_parse_datetime(s) {
            Some(t) => if 0 <= t.year && t.year <= 9999 {
                Some(t)
            } else {
                None
            },
            None => None,
        }
    }

    /// Renders the timestamp in the fixed format; parsing the result gives
    /// back the same timestamp.
    pub fn render(&self) -> (r: String)
        requires
            self.wf(),
        ensures
            r@ == ts_text(*self),
            ts_parse(r@) == Some(*self),
    {
        chrono_format_datetime(self)
    }
}

} // verus!
