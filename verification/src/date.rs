//! Calendar dates: validity as the date library decides it, ISO text, order,
//! and the integer text that date fields are written in.

use chrono::Datelike;
use vstd::prelude::*;

use crate::amount::{
    append_chars_to, digits_end, digits_value, fixed_digits, fixed_digits_u, lemma_digits_end_bounds,
    nat_digits, nat_digits_u, scan_digits,
};
use crate::text::string_from_chars;

verus! {

/// A proleptic Gregorian calendar date.
#[derive(Clone, Copy, Debug, PartialEq, Eq, Structural)]
pub struct CalendarDate {
    pub year: i32,
    pub month: u32,
    pub day: u32,
}

pub open spec fn is_leap_year(y: int) -> bool {
    (y % 4 == 0 && y % 100 != 0) || y % 400 == 0
}

pub open spec fn days_in_month(y: int, m: int) -> int {
    if m == 2 {
        if is_leap_year(y) {
            29
        } else {
            28
        }
    } else if m == 4 || m == 6 || m == 9 || m == 11 {
        30
    } else {
        31
    }
}

/// The dates that the date library can represent: years -262143 to 262142,
/// months 1 to 12 and days that exist in that month.
pub open spec fn valid_ymd(y: int, m: int, d: int) -> bool {
    &&& -262143 <= y <= 262142
    &&& 1 <= m <= 12
    &&& 1 <= d <= days_in_month(y, m)
}

/// `chrono::NaiveDate::from_ymd_opt`: whether the calendar date
/// `year-month-day` exists and lies in the library's year range.
#[verifier::external_body]
fn date_exists(year: i32, month: u32, day: u32) -> (r: bool)
    ensures
        r == valid_ymd(year as int, month as int, day as int),
{
    chrono::NaiveDate::from_ymd_opt(year, month, day).is_some()
}

/// What `chrono::NaiveDate::parse_from_str(text, format)` gives, as a date.
pub uninterp spec fn chrono_parsed_date(text: Seq<char>, format: Seq<char>) -> Option<CalendarDate>;

/// `chrono::NaiveDate::parse_from_str`: the date that `text` writes in the
/// `strftime`-style `format`, or `None` when it does not. The contract names
/// the result; it adds only that a parsed date is a valid one.
#[verifier::external_body]
fn parse_date_with_format(text: &str, format: &str) -> (r: Option<CalendarDate>)
    ensures
        r == chrono_parsed_date(text@, format@),
        r matches Some(d) ==> valid_ymd(d.year as int, d.month as int, d.day as int),
{
    chrono::NaiveDate::parse_from_str(text, format).ok().map(
        |d| CalendarDate { year: d.year(), month: d.month(), day: d.day() },
    )
}

/// Parses `text` (as characters) in `format` with the date library.
pub fn parse_date_chars(text: &[char], format: &str) -> (r: Option<CalendarDate>)
    ensures
        r == chrono_parsed_date(text@, format@),
        r matches Some(d) ==> d.is_valid(),
{
    let t = string_from_chars(text);
    parse_date_with_format(t.as_str(), format)
}

impl CalendarDate {
    pub open spec fn is_valid(self) -> bool {
        valid_ymd(self.year as int, self.month as int, self.day as int)
    }

    /// The date `year-month-day` when it exists (`NaiveDate::from_ymd_opt`).
    pub fn from_ymd_opt(year: i32, month: u32, day: u32) -> (r: Option<CalendarDate>)
        ensures
            r == (if valid_ymd(year as int, month as int, day as int) {
                Some(CalendarDate { year, month, day })
            } else {
                None
            }),
    {
        if date_exists(year, month, day) {
            Some(CalendarDate { year, month, day })
        } else {
            None
        }
    }

    /// Date order: by year, then month, then day.
    pub open spec fn spec_le(self, other: CalendarDate) -> bool {
        ||| self.year < other.year
        ||| (self.year == other.year && self.month < other.month)
        ||| (self.year == other.year && self.month == other.month && self.day <= other.day)
    }

    pub fn is_on_or_before(&self, other: &CalendarDate) -> (r: bool)
        ensures
            r == self.spec_le(*other),
    {
        self.year < other.year || (self.year == other.year && self.month < other.month) || (
        self.year == other.year && self.month == other.month && self.day <= other.day)
    }

    /// The ISO text of a valid date, as `format("%Y-%m-%d")` writes it.
    pub fn to_iso_chars(&self) -> (r: Vec<char>)
        requires
            self.is_valid(),
        ensures
            r@ == iso_date_text(*self),
    {
        let mut r: Vec<char> = Vec::new();
        let y = self.year;
        if 0 <= y && y <= 9999 {
            r = fixed_digits_u(y as u128, 4);
        } else {
            if y < 0 {
                r.push('-');
            } else {
                r.push('+');
            }
            let a: u128 = if y < 0 {
                (0 - y as i64) as u128
            } else {
                y as u128
            };
            let digits = if a < 10000 {
                fixed_digits_u(a, 4)
            } else {
                nat_digits_u(a)
            };
            let ghost before = r@;
            append_chars_to(&mut r, &digits);
            assert(r@ =~= before + digits@);
        }
        let ghost year_part = r@;
        r.push('-');
        let m = fixed_digits_u(self.month as u128, 2);
        append_chars_to(&mut r, &m);
        r.push('-');
        let d = fixed_digits_u(self.day as u128, 2);
        append_chars_to(&mut r, &d);
        proof {
            assert(r@ =~= year_part + seq!['-'] + fixed_digits(self.month as nat, 2) + seq!['-']
                + fixed_digits(self.day as nat, 2));
        }
        r
    }

    /// The ISO text of a valid date as a `String`.
    pub fn to_iso_string(&self) -> (r: String)
        requires
            self.is_valid(),
        ensures
            r@ == iso_date_text(*self),
    {
        let c = self.to_iso_chars();
        string_from_chars(&c)
    }
}

/// The year as `%Y` writes it: four digits with leading zeros for years 0 to
/// 9999, otherwise a sign and at least four digits.
pub open spec fn iso_year_text(y: int) -> Seq<char> {
    if 0 <= y <= 9999 {
        fixed_digits(y as nat, 4)
    } else {
        let a: nat = (if y < 0 {
            -y
        } else {
            y
        }) as nat;
        (if y < 0 {
            seq!['-']
        } else {
            seq!['+']
        }) + (if a < 10000 {
            fixed_digits(a, 4)
        } else {
            nat_digits(a)
        })
    }
}

/// `YYYY-MM-DD`.
pub open spec fn iso_date_text(d: CalendarDate) -> Seq<char> {
    iso_year_text(d.year as int) + seq!['-'] + fixed_digits(d.month as nat, 2) + seq!['-']
        + fixed_digits(d.day as nat, 2)
}

/// Integer text as `str::parse` reads it: an optional `+` (or `-` when
/// `signed`), then one or more ASCII digits; the value, when the text is of
/// that form.
pub open spec fn int_text_value(s: Seq<char>, signed: bool) -> Option<int> {
    let has_sign = s.len() > 0 && (s[0] == '+' || (signed && s[0] == '-'));
    let start: int = if has_sign {
        1
    } else {
        0
    };
    let rest = s.subrange(start, s.len() as int);
    if rest.len() > 0 && digits_end(s, start) == s.len() {
        let v = digits_value(rest) as int;
        Some(if s[0] == '-' {
            -v
        } else {
            v
        })
    } else {
        None
    }
}

/// `str::parse::<i32>` on characters.
pub fn parse_i32_chars(s: &[char]) -> (r: Option<i32>)
    ensures
        r == (match int_text_value(s@, true) {
            Some(v) => if i32::MIN <= v <= i32::MAX {
                Some(v as i32)
            } else {
                None
            },
            None => None,
        }),
{
    let n = s.len();
    let has_sign = n > 0 && (s[0] == '+' || s[0] == '-');
    let start: usize = if has_sign {
        1
    } else {
        0
    };
    let (end, value) = scan_digits(s, start, 2147483648u128);
    proof {
        lemma_digits_end_bounds(s@, start as int);
    }
    if end != n || end == start {
        return None;
    }
    assert(s@.subrange(start as int, end as int) =~= s@.subrange(start as int, s@.len() as int));
    match value {
        None => None,
        Some(v) => {
            if s[0] == '-' {
                Some((0 - (v as i64)) as i32)
            } else if v <= 2147483647 {
                Some(v as i32)
            } else {
                None
            }
        },
    }
}

/// `str::parse::<u32>` on characters.
pub fn parse_u32_chars(s: &[char]) -> (r: Option<u32>)
    ensures
        r == (match int_text_value(s@, false) {
            Some(v) => if v <= u32::MAX {
                Some(v as u32)
            } else {
                None
            },
            None => None,
        }),
{
    let n = s.len();
    let has_sign = n > 0 && s[0] == '+';
    let start: usize = if has_sign {
        1
    } else {
        0
    };
    let (end, value) = scan_digits(s, start, 4294967295u128);
    proof {
        lemma_digits_end_bounds(s@, start as int);
    }
    if end != n || end == start {
        return None;
    }
    assert(s@.subrange(start as int, end as int) =~= s@.subrange(start as int, s@.len() as int));
    match value {
        None => None,
        Some(v) => Some(v as u32),
    }
}

} // verus!
