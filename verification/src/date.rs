//! Calendar dates and their strict `YYYY-MM-DD` key format.
//!
//! A date key is both the primary key of a day record and the stem of
//! its file name, so parsing is deliberately strict: exactly four
//! digits, a dash, two digits, a dash, two digits, and the date must
//! exist in the proleptic Gregorian calendar.

use vstd::prelude::*;
use crate::chars::{is_digit, digit_val, digit_char};

verus! {

/// Calendar date with the Gregorian validity invariant.
#[derive(Clone, Copy, PartialEq, Eq, Structural, Debug)]
pub struct Date {
    pub year: u32,
    pub month: u32,
    pub day: u32,
}

/// True on leap years of the proleptic Gregorian calendar.
pub open spec fn spec_is_leap_year(y: int) -> bool {
    y % 4 == 0 && (y % 100 != 0 || y % 400 == 0)
}

/// Number of days in the given month of the given year.
pub open spec fn spec_days_in_month(y: int, m: int) -> int {
    if m == 2 {
        if spec_is_leap_year(y) {
            29
        } else {
            28
        }
    } else if m == 4 || m == 6 || m == 9 || m == 11 {
        30
    } else {
        31
    }
}

impl Date {
    /// The date lies in the strict key space: four-digit year, valid
    /// month, valid day of that month.
    pub open spec fn wf(self) -> bool {
        &&& self.year <= 9999
        &&& 1 <= self.month <= 12
        &&& 1 <= self.day <= spec_days_in_month(self.year as int, self.month as int)
    }

    /// The canonical ten-character `YYYY-MM-DD` key of this date.
    pub open spec fn key(self) -> Seq<char> {
        date_key(self.year as int, self.month as int, self.day as int)
    }

    /// Renders the canonical key.
    pub fn format_key(&self) -> (r: String)
        requires
            self.wf(),
        ensures
            r@ == self.key(),
    {
        let v = self.key_chars();
        crate::chars::chars_to_string(&v)
    }

    /// Renders the canonical key as a character vector.
    pub fn key_chars(&self) -> (r: Vec<char>)
        requires
            self.wf(),
        ensures
            r@ == self.key(),
    {
        let mut out: Vec<char> = Vec::new();
        out.push(digit_char_exec(self.year / 1000 % 10));
        out.push(digit_char_exec(self.year / 100 % 10));
        out.push(digit_char_exec(self.year / 10 % 10));
        out.push(digit_char_exec(self.year % 10));
        out.push('-');
        out.push(digit_char_exec(self.month / 10 % 10));
        out.push(digit_char_exec(self.month % 10));
        out.push('-');
        out.push(digit_char_exec(self.day / 10 % 10));
        out.push(digit_char_exec(self.day % 10));
        proof {
            assert(out@ =~= self.key());
        }
        out
    }
}

/// The ten-character `YYYY-MM-DD` rendering of a date.
pub open spec fn date_key(y: int, m: int, d: int) -> Seq<char> {
    seq![
        digit_char(y / 1000 % 10),
        digit_char(y / 100 % 10),
        digit_char(y / 10 % 10),
        digit_char(y % 10),
        '-',
        digit_char(m / 10 % 10),
        digit_char(m % 10),
        '-',
        digit_char(d / 10 % 10),
        digit_char(d % 10),
    ]
}

fn digit_char_exec(d: u32) -> (c: char)
    requires
        d <= 9,
    ensures
        c == digit_char(d as int),
{
    match crate::chars::char_from_u32(48 + d) {
        Some(c) => {
            proof {
                crate::chars::lemma_digit_code(c, d as int);
            }
            c
        },
        None => {
            proof {
                assert(false);
            }
            ' '
        },
    }
}

/// Does the character sequence have the exact shape of a date key
/// (digits and dashes in the right places)?
pub open spec fn is_date_key_shape(s: Seq<char>) -> bool {
    &&& s.len() == 10
    &&& is_digit(s[0]) && is_digit(s[1]) && is_digit(s[2]) && is_digit(s[3])
    &&& s[4] == '-'
    &&& is_digit(s[5]) && is_digit(s[6])
    &&& s[7] == '-'
    &&& is_digit(s[8]) && is_digit(s[9])
}

pub open spec fn key_year(s: Seq<char>) -> int {
    digit_val(s[0]) * 1000 + digit_val(s[1]) * 100 + digit_val(s[2]) * 10 + digit_val(s[3])
}

pub open spec fn key_month(s: Seq<char>) -> int {
    digit_val(s[5]) * 10 + digit_val(s[6])
}

pub open spec fn key_day(s: Seq<char>) -> int {
    digit_val(s[8]) * 10 + digit_val(s[9])
}

/// A character sequence is a valid date key when it has the key shape
/// and names a real calendar date.
pub open spec fn is_valid_date_key(s: Seq<char>) -> bool {
    &&& is_date_key_shape(s)
    &&& 1 <= key_month(s) <= 12
    &&& 1 <= key_day(s) <= spec_days_in_month(key_year(s), key_month(s))
}

/// The date a valid key names.
pub open spec fn key_date(s: Seq<char>) -> Date {
    Date { year: key_year(s) as u32, month: key_month(s) as u32, day: key_day(s) as u32 }
}

pub fn is_leap_year(y: u32) -> (r: bool)
    ensures
        r == spec_is_leap_year(y as int),
{
    y % 4 == 0 && (y % 100 != 0 || y % 400 == 0)
}

pub fn days_in_month(y: u32, m: u32) -> (r: u32)
    requires
        1 <= m <= 12,
    ensures
        r == spec_days_in_month(y as int, m as int),
{
    if m == 2 {
        if is_leap_year(y) {
            29
        } else {
            28
        }
    } else if m == 4 || m == 6 || m == 9 || m == 11 {
        30
    } else {
        31
    }
}

fn digit_at(v: &Vec<char>, i: usize) -> (r: Option<u32>)
    requires
        i < v@.len(),
    ensures
        match r {
            Some(d) => is_digit(v@[i as int]) && d == digit_val(v@[i as int]) && d <= 9,
            None => !is_digit(v@[i as int]),
        },
{
    let c = v[i];
    if '0' <= c && c <= '9' {
        Some((c as u32) - 48)
    } else {
        None
    }
}

/// Parses a strict `YYYY-MM-DD` key from a character vector.
pub fn parse_date_chars(v: &Vec<char>) -> (r: Option<Date>)
    ensures
        match r {
            Some(d) => is_valid_date_key(v@) && d == key_date(v@) && d.wf(),
            None => !is_valid_date_key(v@),
        },
{
    if v.len() != 10 {
        return None;
    }
    if !(v[4] == '-' && v[7] == '-') {
        return None;
    }
    let y0 = digit_at(v, 0);
    let y1 = digit_at(v, 1);
    let y2 = digit_at(v, 2);
    let y3 = digit_at(v, 3);
    let m0 = digit_at(v, 5);
    let m1 = digit_at(v, 6);
    let d0 = digit_at(v, 8);
    let d1 = digit_at(v, 9);
    match (y0, y1, y2, y3, m0, m1, d0, d1) {
        (
            Some(y0),
            Some(y1),
            Some(y2),
            Some(y3),
            Some(m0),
            Some(m1),
            Some(d0),
            Some(d1),
        ) => {
            let year = y0 * 1000 + y1 * 100 + y2 * 10 + y3;
            let month = m0 * 10 + m1;
            let day = d0 * 10 + d1;
            if month < 1 || month > 12 {
                return None;
            }
            if day < 1 || day > days_in_month(year, month) {
                return None;
            }
            Some(Date { year, month, day })
        },
        _ => None,
    }
}

/// Parses a strict `YYYY-MM-DD` key from a string.
pub fn parse_date_key(s: &str) -> (r: Option<Date>)
    ensures
        match r {
            Some(d) => is_valid_date_key(s@) && d == key_date(s@) && d.wf(),
            None => !is_valid_date_key(s@),
        },
{
    let v = crate::chars::str_to_chars(s);
    parse_date_chars(&v)
}

/// Reading a digit back from its character restores the value.
pub proof fn lemma_digit_roundtrip(d: int)
    requires
        0 <= d <= 9,
    ensures
        is_digit(digit_char(d)),
        digit_val(digit_char(d)) == d,
{
}

/// The canonical key of a well-formed date is a valid key and names
/// that date back: keys are faithful, and distinct dates get distinct
/// keys.
pub proof fn lemma_date_key_roundtrip(d: Date)
    requires
        d.wf(),
    ensures
        is_valid_date_key(d.key()),
        key_date(d.key()) == d,
{
    let y = d.year as int;
    let m = d.month as int;
    let dd = d.day as int;
    lemma_digit_roundtrip(y / 1000 % 10);
    lemma_digit_roundtrip(y / 100 % 10);
    lemma_digit_roundtrip(y / 10 % 10);
    lemma_digit_roundtrip(y % 10);
    lemma_digit_roundtrip(m / 10 % 10);
    lemma_digit_roundtrip(m % 10);
    lemma_digit_roundtrip(dd / 10 % 10);
    lemma_digit_roundtrip(dd % 10);
    lemma_four_digits(y);
    lemma_two_digits(m);
    lemma_two_digits(dd);
    assert(key_year(d.key()) == y);
    assert(key_month(d.key()) == m);
    assert(key_day(d.key()) == dd);
}

/// A number below ten thousand is recovered from its four digits.
proof fn lemma_four_digits(y: int)
    by (nonlinear_arith)
    requires
        0 <= y <= 9999,
    ensures
        y / 1000 % 10 * 1000 + y / 100 % 10 * 100 + y / 10 % 10 * 10 + y % 10 == y,
{
}

/// A number below one hundred is recovered from its two digits.
proof fn lemma_two_digits(m: int)
    by (nonlinear_arith)
    requires
        0 <= m <= 99,
    ensures
        m / 10 % 10 * 10 + m % 10 == m,
{
}

/// A valid key names a well-formed date.
pub proof fn lemma_valid_key_wf(s: Seq<char>)
    requires
        is_valid_date_key(s),
    ensures
        key_date(s).wf(),
{
}

impl Date {
    /// Executable check of the date invariant, for callers that build
    /// dates from raw numbers.
    pub fn check_wf(&self) -> (r: bool)
        ensures
            r == self.wf(),
    {
        self.year <= 9999 && 1 <= self.month && self.month <= 12 && 1 <= self.day && self.day
            <= days_in_month(self.year, self.month)
    }
}

} // verus!
