//! Checks that turn one line of user input into a value, or into the
//! message shown before asking again.

use vstd::prelude::*;
use vstd::string::StrSliceExecFns;
use crate::text::{
    trim, trim_chars, chars_of, parse_unsigned_chars, parse_signed_chars, spec_parse_unsigned,
    spec_parse_signed, split_chars, split_on, lemma_split_chars_nonempty,
};

verus! {

/// `input` trimmed is exactly the one character `c`.
fn trimmed_is(t: &String, c: char) -> (r: bool)
    ensures
        r == (t@ == seq![c]),
{
    let s = t.as_str();
    if s.unicode_len() != 1 {
        return false;
    }
    let d = s.get_char(0);
    proof {
        if d == c {
            assert(t@ =~= seq![c]);
        }
    }
    d == c
}

/// `y` means yes and `n` means no.
pub fn maplidator_yes_or_no(input: String) -> (r: Result<bool, &'static str>)
    ensures
        r == if trim_chars(input@) == seq!['y'] {
            Ok(true)
        } else if trim_chars(input@) == seq!['n'] {
            Ok(false)
        } else {
            Err("Use y or n to specify command")
        },
{
    let t = trim(input.as_str());
    if trimmed_is(&t, 'y') {
        Ok(true)
    } else if trimmed_is(&t, 'n') {
        Ok(false)
    } else {
        Err("Use y or n to specify command")
    }
}

/// Any input, trimmed.
pub fn maplidator_identity_trim(input: String) -> (r: Result<String, &'static str>)
    ensures
        r matches Ok(s) && s@ == trim_chars(input@),
{
    Ok(trim(input.as_str()))
}

/// A number from 1 to `index_limit`.
pub fn maplidator_int_index_limit(index_limit: usize, input: String) -> (r: Result<usize, &'static str>)
    ensures
        r == match spec_parse_unsigned(trim_chars(input@), usize::MAX as int) {
            None => Err("Failed to parse into number"),
            Some(v) => if v < 1 || v > index_limit {
                Err("Not a valid number in context")
            } else {
                Ok(v as usize)
            },
        },
{
    let t = trim(input.as_str());
    let cs = chars_of(t.as_str());
    let v = match parse_unsigned_chars(cs.as_slice(), usize::MAX as u64) {
        Some(v) => v as usize,
        None => return Err("Failed to parse into number"),
    };
    if v < 1 || v > index_limit {
        return Err("Not a valid number in context");
    }
    Ok(v)
}

/// A number below `index_limit`.
pub fn maplidator_int_index_limit_zero(index_limit: usize, input: String) -> (r: Result<usize, &'static str>)
    ensures
        r == match spec_parse_unsigned(trim_chars(input@), usize::MAX as int) {
            None => Err("Failed to parse into number"),
            Some(v) => if v >= index_limit {
                Err("Not a valid number in context")
            } else {
                Ok(v as usize)
            },
        },
{
    let t = trim(input.as_str());
    let cs = chars_of(t.as_str());
    let v = match parse_unsigned_chars(cs.as_slice(), usize::MAX as u64) {
        Some(v) => v as usize,
        None => return Err("Failed to parse into number"),
    };
    if v >= index_limit {
        return Err("Not a valid number in context");
    }
    Ok(v)
}

/// A product identifier.
pub fn maplidator_identifier(input: String) -> (r: Result<i64, &'static str>)
    ensures
        r == match spec_parse_signed(trim_chars(input@), i64::MIN as int, i64::MAX as int) {
            None => Err("Failed to parse into number"),
            Some(v) => Ok(v as i64),
        },
{
    let t = trim(input.as_str());
    let cs = chars_of(t.as_str());
    match parse_signed_chars(cs.as_slice(), i64::MIN, i64::MAX) {
        Some(v) => Ok(v),
        None => Err("Failed to parse into number"),
    }
}

/// An amount.
pub fn maplidator_amount(input: String) -> (r: Result<u64, &'static str>)
    ensures
        r == match spec_parse_unsigned(trim_chars(input@), u64::MAX as int) {
            None => Err("Failed to parse into number"),
            Some(v) => Ok(v as u64),
        },
{
    let t = trim(input.as_str());
    let cs = chars_of(t.as_str());
    match parse_unsigned_chars(cs.as_slice(), u64::MAX) {
        Some(v) => Ok(v),
        None => Err("Failed to parse into number"),
    }
}

// ---------------------------------------------------------------------
// Calendar dates
// ---------------------------------------------------------------------


pub open spec fn is_leap_year(year: int) -> bool {
    year % 4 == 0 && (year % 100 != 0 || year % 400 == 0)
}

pub open spec fn days_in_month(year: int, month: int) -> int {
    if month == 2 {
        if is_leap_year(year) {
            29
        } else {
            28
        }
    } else if month == 4 || month == 6 || month == 9 || month == 11 {
        30
    } else {
        31
    }
}

/// The days of `year` before the first of `month`.
pub open spec fn days_before_month(year: int, month: int) -> int
    decreases month,
{
    if month <= 1 {
        0
    } else {
        days_before_month(year, month - 1) + days_in_month(year, month - 1)
    }
}

/// The days from 0001-01-01 to the first of January of `year` (negative
/// for earlier years), in the proleptic Gregorian calendar.
pub open spec fn days_before_year(year: int) -> int {
    let p = year - 1;
    365 * p + p / 4 - p / 100 + p / 400
}

/// The Julian day number of a calendar date: the days since -4713-11-24
/// of the proleptic Gregorian calendar, so that 0001-01-01 is day 1721426.
pub open spec fn julian_day(year: i32, month: u8, day: u8) -> int {
    days_before_year(year as int) + days_before_month(year as int, month as int) + day - 1 + 1721426
}

/// A date of the proleptic Gregorian calendar between the years -9999
/// and 9999.
pub open spec fn valid_calendar_date(year: i32, month: u8, day: u8) -> bool {
    &&& -9999 <= year <= 9999
    &&& 1 <= month <= 12
    &&& 1 <= day <= days_in_month(year as int, month as int)
}

/// The Julian day of a calendar date, if the date exists
/// (`Month::try_from`, `Date::from_calendar_date`, `Date::to_julian_day`).
#[verifier::external_body]
fn calendar_julian_day(year: i32, month: u8, day: u8) -> (r: Option<i32>)
    requires
        1 <= month <= 12,
    ensures
        r is Some <==> valid_calendar_date(year, month, day),
        r matches Some(j) ==> j == julian_day(year, month, day),
{
    let month = time::Month::try_from(month).ok()?;
    time::Date::from_calendar_date(year, month, day).ok().map(|d| d.to_julian_day())
}

/// What `maplidator_date` answers for the pieces of the trimmed input
/// split at `-`.
pub open spec fn spec_date_answer(p: Seq<Seq<char>>) -> Result<i32, &'static str> {
    let year = spec_parse_signed(p[0], i32::MIN as int, i32::MAX as int);
    let month = if p.len() > 1 {
        spec_parse_unsigned(p[1], u8::MAX as int)
    } else {
        None
    };
    let day = if p.len() > 2 {
        spec_parse_unsigned(p[2], u8::MAX as int)
    } else {
        None
    };
    if year is None {
        Err("Could not find a valid year")
    } else if month is None {
        Err("Could not find a valid month")
    } else if !(1 <= month->0 <= 12) {
        Err("Invalid month")
    } else if day is None {
        Err("Could not find a valid day")
    } else if p.len() > 3 {
        Err("Extra data found during parsing")
    } else if !valid_calendar_date(year->0 as i32, month->0 as u8, day->0 as u8) {
        Err("Invalid date")
    } else {
        Ok(julian_day(year->0 as i32, month->0 as u8, day->0 as u8) as i32)
    }
}

/// A date written `YYYY-MM-DD`, as its Julian day number.
pub fn maplidator_date(input: String) -> (r: Result<i32, &'static str>)
    ensures
        r == spec_date_answer(split_chars(trim_chars(input@), '-')),
{
    let t = trim(input.as_str());
    let cs = chars_of(t.as_str());
    let p = split_on(cs.as_slice(), '-');
    let ghost sp = split_chars(trim_chars(input@), '-');
    proof {
        lemma_split_chars_nonempty(trim_chars(input@), '-');
    }
    let year = match parse_signed_chars(p[0].as_slice(), i32::MIN as i64, i32::MAX as i64) {
        Some(v) => v as i32,
        None => return Err("Could not find a valid year"),
    };
    if p.len() < 2 {
        return Err("Could not find a valid month");
    }
    let month = match parse_unsigned_chars(p[1].as_slice(), u8::MAX as u64) {
        Some(v) => v as u8,
        None => return Err("Could not find a valid month"),
    };
    if month < 1 || month > 12 {
        return Err("Invalid month");
    }
    if p.len() < 3 {
        return Err("Could not find a valid day");
    }
    let day = match parse_unsigned_chars(p[2].as_slice(), u8::MAX as u64) {
        Some(v) => v as u8,
        None => return Err("Could not find a valid day"),
    };
    if p.len() > 3 {
        return Err("Extra data found during parsing");
    }
    match calendar_julian_day(year, month, day) {
        Some(j) => Ok(j),
        None => Err("Invalid date"),
    }
}

} // verus!
