//! Calendar dates, parsed from `YYYY-MM-DD` strings, with proleptic
//! Gregorian day-index arithmetic and weekday computation.
//!
//! A date's *day index* counts the days from year 0, January 1 (day 0), so
//! that inclusive spans, interval overlaps and weekdays become plain integer
//! arithmetic.

use vstd::prelude::*;
use vstd::string::StrSliceExecFns;
use vstd::arithmetic::div_mod::lemma_add_mod_noop;

verus! {

/// An upper bound on the day index of any valid date (year 9999 at most).
pub const MAX_DAY_INDEX: u64 = 3_660_036;

pub open spec fn is_leap_year(year: int) -> bool {
    year % 4 == 0 && (year % 100 != 0 || year % 400 == 0)
}

pub open spec fn days_in_year(year: int) -> int {
    if is_leap_year(year) {
        366
    } else {
        365
    }
}

pub open spec fn days_in_month(year: int, month: int) -> int {
    if month == 2 {
        if is_leap_year(year) {
            29
        } else {
            28
        }
    } else if month == 4 || month == 6 || month == 9 || month == 11 {
        30
    } else {
        31
    }
}

/// Days in all years before `year`.
pub open spec fn days_before_year(year: int) -> int
    decreases year,
{
    if year <= 0 {
        0
    } else {
        days_before_year(year - 1) + days_in_year(year - 1)
    }
}

/// Days in all months of `year` before `month`.
pub open spec fn days_before_month(year: int, month: int) -> int
    decreases month,
{
    if month <= 1 {
        0
    } else {
        days_before_month(year, month - 1) + days_in_month(year, month - 1)
    }
}

pub open spec fn date_fields_valid(year: int, month: int, day: int) -> bool {
    &&& 0 <= year <= 9999
    &&& 1 <= month <= 12
    &&& 1 <= day <= days_in_month(year, month)
}

/// Days from year 0, January 1, to the given date.
pub open spec fn day_index_math(year: int, month: int, day: int) -> int {
    days_before_year(year) + days_before_month(year, month) + day - 1
}

/// Weekday ordinal of a day index, with Monday = 0 through Sunday = 6.
/// Day 0 (year 0, January 1) was a Saturday.
pub open spec fn weekday_ordinal_math(index: int) -> int {
    (index + 5) % 7
}

#[derive(Clone, Copy, PartialEq, Eq, Structural, Debug)]
pub enum Weekday {
    Monday,
    Tuesday,
    Wednesday,
    Thursday,
    Friday,
    Saturday,
    Sunday,
}

pub open spec fn weekday_from_ordinal(ordinal: int) -> Weekday {
    if ordinal == 0 {
        Weekday::Monday
    } else if ordinal == 1 {
        Weekday::Tuesday
    } else if ordinal == 2 {
        Weekday::Wednesday
    } else if ordinal == 3 {
        Weekday::Thursday
    } else if ordinal == 4 {
        Weekday::Friday
    } else if ordinal == 5 {
        Weekday::Saturday
    } else {
        Weekday::Sunday
    }
}

/// The weekday that falls on a given day index.
pub open spec fn weekday_of_index_math(index: int) -> Weekday {
    weekday_from_ordinal(weekday_ordinal_math(index))
}

/// A calendar date within years 0 through 9999.
#[derive(Clone, Copy, PartialEq, Eq, Structural, Debug)]
pub struct Date {
    pub year: u32,
    pub month: u32,
    pub day: u32,
}

impl Date {
    pub open spec fn valid(self) -> bool {
        date_fields_valid(self.year as int, self.month as int, self.day as int)
    }

    pub open spec fn index_math(self) -> int {
        day_index_math(self.year as int, self.month as int, self.day as int)
    }

    /// Days from year 0, January 1, to this date.
    pub fn day_index(&self) -> (index: u64)
        requires
            self.valid(),
        ensures
            index == self.index_math(),
            index <= MAX_DAY_INDEX,
    {
        let before_years = days_before_year_exec(self.year);
        let before_months = days_before_month_exec(self.year, self.month);
        proof {
            lemma_day_index_bounds(self.year as int, self.month as int, self.day as int);
        }
        before_years + before_months + self.day as u64 - 1
    }

    /// The weekday this date falls on.
    pub fn weekday(&self) -> (weekday: Weekday)
        requires
            self.valid(),
        ensures
            weekday == weekday_of_index_math(self.index_math()),
    {
        let index = self.day_index();
        weekday_of_index(index)
    }
}

pub fn is_leap_year_exec(year: u32) -> (leap: bool)
    ensures
        leap == is_leap_year(year as int),
{
    year % 4 == 0 && (year % 100 != 0 || year % 400 == 0)
}

pub fn days_in_month_exec(year: u32, month: u32) -> (days: u32)
    ensures
        days == days_in_month(year as int, month as int),
{
    if month == 2 {
        if is_leap_year_exec(year) {
            29
        } else {
            28
        }
    } else if month == 4 || month == 6 || month == 9 || month == 11 {
        30
    } else {
        31
    }
}

/// `days_before_year` grows by at most 366 per year.
proof fn lemma_days_before_year_bound(year: int)
    requires
        year >= 0,
    ensures
        365 * year <= days_before_year(year) <= 366 * year,
    decreases year,
{
    if year > 0 {
        lemma_days_before_year_bound(year - 1);
    }
}

/// `days_before_month` stays under a year's length.
proof fn lemma_days_before_month_bound(year: int, month: int)
    requires
        1 <= month <= 13,
    ensures
        0 <= days_before_month(year, month) <= 31 * (month - 1),
    decreases month,
{
    if month > 1 {
        lemma_days_before_month_bound(year, month - 1);
    }
}

/// A valid date's day index lies between 0 and `MAX_DAY_INDEX`.
pub proof fn lemma_day_index_bounds(year: int, month: int, day: int)
    requires
        date_fields_valid(year, month, day),
    ensures
        0 <= day_index_math(year, month, day) <= MAX_DAY_INDEX,
{
    lemma_days_before_year_bound(year);
    lemma_days_before_month_bound(year, month);
}

pub fn days_before_year_exec(year: u32) -> (days: u64)
    requires
        year <= 9999,
    ensures
        days == days_before_year(year as int),
{
    let mut acc: u64 = 0;
    let mut i: u32 = 0;
    while i < year
        invariant
            i <= year <= 9999,
            acc == days_before_year(i as int),
            acc <= 366 * i,
        decreases year - i,
    {
        if is_leap_year_exec(i) {
            acc = acc + 366;
        } else {
            acc = acc + 365;
        }
        i = i + 1;
    }
    acc
}

pub fn days_before_month_exec(year: u32, month: u32) -> (days: u64)
    requires
        1 <= month <= 12,
    ensures
        days == days_before_month(year as int, month as int),
{
    let mut acc: u64 = 0;
    let mut m: u32 = 1;
    while m < month
        invariant
            1 <= m <= month <= 12,
            acc == days_before_month(year as int, m as int),
            acc <= 31 * m,
        decreases month - m,
    {
        acc = acc + days_in_month_exec(year, m) as u64;
        m = m + 1;
    }
    acc
}

/// The weekday that falls on a day index.
pub fn weekday_of_index(index: u64) -> (weekday: Weekday)
    ensures
        weekday == weekday_of_index_math(index as int),
{
    let ordinal = (index % 7 + 5) % 7;
    proof {
        lemma_add_mod_noop(index as int, 5, 7);
    }
    if ordinal == 0 {
        Weekday::Monday
    } else if ordinal == 1 {
        Weekday::Tuesday
    } else if ordinal == 2 {
        Weekday::Wednesday
    } else if ordinal == 3 {
        Weekday::Thursday
    } else if ordinal == 4 {
        Weekday::Friday
    } else if ordinal == 5 {
        Weekday::Saturday
    } else {
        Weekday::Sunday
    }
}

pub open spec fn is_digit(c: char) -> bool {
    48 <= c as u32 <= 57
}

pub open spec fn digit_value(c: char) -> int {
    c as u32 - 48
}

/// A ten-character `YYYY-MM-DD` shape: four digits, dash, two digits, dash,
/// two digits.
pub open spec fn date_str_wellformed(s: Seq<char>) -> bool {
    &&& s.len() == 10
    &&& is_digit(s[0]) && is_digit(s[1]) && is_digit(s[2]) && is_digit(s[3])
    &&& s[4] == '-'
    &&& is_digit(s[5]) && is_digit(s[6])
    &&& s[7] == '-'
    &&& is_digit(s[8]) && is_digit(s[9])
}

pub open spec fn year_of_str(s: Seq<char>) -> int {
    digit_value(s[0]) * 1000 + digit_value(s[1]) * 100 + digit_value(s[2]) * 10 + digit_value(s[3])
}

pub open spec fn month_of_str(s: Seq<char>) -> int {
    digit_value(s[5]) * 10 + digit_value(s[6])
}

pub open spec fn day_of_str(s: Seq<char>) -> int {
    digit_value(s[8]) * 10 + digit_value(s[9])
}

/// What parsing a date string yields: the date's fields when the string is a
/// well-formed `YYYY-MM-DD` naming a real calendar day, and nothing
/// otherwise.
pub open spec fn parse_date_math(s: Seq<char>) -> Option<Date> {
    if date_str_wellformed(s) && date_fields_valid(year_of_str(s), month_of_str(s), day_of_str(s)) {
        Some(
            Date {
                year: year_of_str(s) as u32,
                month: month_of_str(s) as u32,
                day: day_of_str(s) as u32,
            },
        )
    } else {
        None
    }
}

/// Reads one decimal digit at position `i`.
fn digit_at(s: &str, i: usize) -> (digit: Option<u32>)
    requires
        i < s@.len(),
    ensures
        match digit {
            Some(d) => is_digit(s@[i as int]) && d == digit_value(s@[i as int]),
            None => !is_digit(s@[i as int]),
        },
{
    let c = s.get_char(i);
    let v = c as u32;
    if 48 <= v && v <= 57 {
        Some(v - 48)
    } else {
        None
    }
}

/// Parses a `YYYY-MM-DD` string into a valid calendar date; `None` when the
/// string is malformed or names no real day.
pub fn parse_date(s: &str) -> (date: Option<Date>)
    ensures
        date == parse_date_math(s@),
        match date {
            Some(d) => d.valid(),
            None => true,
        },
{
    if s.unicode_len() != 10 {
        return None;
    }
    let d0 = digit_at(s, 0);
    let d1 = digit_at(s, 1);
    let d2 = digit_at(s, 2);
    let d3 = digit_at(s, 3);
    let d5 = digit_at(s, 5);
    let d6 = digit_at(s, 6);
    let d8 = digit_at(s, 8);
    let d9 = digit_at(s, 9);
    if s.get_char(4) != '-' || s.get_char(7) != '-' {
        return None;
    }
    match (d0, d1, d2, d3, d5, d6, d8, d9) {
        (Some(y0), Some(y1), Some(y2), Some(y3), Some(m0), Some(m1), Some(a0), Some(a1)) => {
            let year = y0 * 1000 + y1 * 100 + y2 * 10 + y3;
            let month = m0 * 10 + m1;
            let day = a0 * 10 + a1;
            if 1 <= month && month <= 12 && 1 <= day && day <= days_in_month_exec(year, month) {
                Some(Date { year, month, day })
            } else {
                None
            }
        },
        _ => None,
    }
}

} // verus!
