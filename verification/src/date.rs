//! Calendar dates read from day-month-year labels.
//!
//! A label such as `07-03-2024` names a day of the proleptic Gregorian
//! calendar. Which triples exist as dates, and how many days lie between two
//! of them, is asked of `chrono`; what a label spells is decided here.

use crate::text::{all_digits, chars_of, digit_of, digits_value, lemma_digits_value_grows};
use vstd::prelude::*;

verus! {

/// The earliest year that a date can have.
pub const MIN_YEAR: i32 = -262143;

/// The latest year that a date can have.
pub const MAX_YEAR: i32 = 262142;

/// Whether `year` has a 29 February.
pub open spec fn is_leap_year(year: int) -> bool {
    year % 4 == 0 && (year % 100 != 0 || year % 400 == 0)
}

/// The number of days of the given month of `year`.
pub open spec fn days_in_month(year: int, month: int) -> int {
    if month == 2 {
        if is_leap_year(year) {
            29
        } else {
            28
        }
    } else if month == 4 || month == 6 || month == 9 || month == 11 {
        30
    } else {
        31
    }
}

/// Whether the triple names a day that exists, in a year that a date can have.
pub open spec fn is_calendar_date(year: int, month: int, day: int) -> bool {
    &&& MIN_YEAR <= year <= MAX_YEAR
    &&& 1 <= month <= 12
    &&& 1 <= day <= days_in_month(year, month)
}

/// The number of days from 1 January of year 1 to 1 January of `year`
/// (negative for earlier years).
pub open spec fn days_before_year(year: int) -> int {
    let y = year - 1;
    365 * y + y / 4 - y / 100 + y / 400
}

/// The number of days of `year` that lie before the first of `month`.
pub open spec fn days_before_month(year: int, month: int) -> int
    decreases month,
{
    if month <= 1 {
        0
    } else {
        days_before_month(year, month - 1) + days_in_month(year, month - 1)
    }
}

/// The day's number in a count that gives 1 to 1 January of year 1.
pub open spec fn day_number(year: int, month: int, day: int) -> int {
    days_before_year(year) + days_before_month(year, month) + day
}

/// A calendar date, as its year, month and day of the month.
#[derive(Debug, Clone, Copy, PartialEq, Eq, Structural)]
pub struct DateKey {
    pub year: i32,
    pub month: u32,
    pub day: u32,
}

/// The error of a label that spells no calendar date.
#[derive(Debug, Clone, Copy, PartialEq, Eq, Structural)]
pub struct InvalidDate;

/// What is wrong with a label that spells no calendar date.
#[derive(Debug, Clone, Copy, PartialEq, Eq, Structural)]
pub enum DateLabelError {
    /// The label does not have exactly two `-`.
    Format,
    /// The first field is no number.
    Day,
    /// The second field is no number.
    Month,
    /// The third field is no number.
    Year,
    /// The three numbers name no day of the calendar.
    Calendar,
}

impl DateKey {
    /// The date exists in the calendar.
    pub open spec fn wf(self) -> bool {
        is_calendar_date(self.year as int, self.month as int, self.day as int)
    }

    /// The date's day number.
    pub open spec fn day_number(self) -> int {
        day_number(self.year as int, self.month as int, self.day as int)
    }

    /// Whether this date comes strictly before `other`: by year, then by
    /// month, then by day.
    pub open spec fn precedes(self, other: DateKey) -> bool {
        ||| self.year < other.year
        ||| self.year == other.year && self.month < other.month
        ||| self.year == other.year && self.month == other.month && self.day < other.day
    }

    /// Whether this date comes strictly before `other`.
    pub fn is_before(&self, other: &DateKey) -> (before: bool)
        ensures
            before == self.precedes(*other),
    {
        self.year < other.year || (self.year == other.year && (self.month < other.month || (
        self.month == other.month && self.day < other.day)))
    }

    /// Whether the date exists in the calendar.
    pub fn is_valid(&self) -> (valid: bool)
        ensures
            valid == self.wf(),
    {
        calendar_date_exists(self.year, self.month, self.day)
    }

    /// The date's day number, computed from its year, month and day; nothing
    /// if the date does not exist in the calendar.
    pub fn day_number_of(&self) -> (number: Option<i64>)
        ensures
            match number {
                Some(n) => self.wf() && n == self.day_number(),
                None => !self.wf(),
            },
    {
        if !self.is_valid() {
            return None;
        }
        let y: i64 = self.year as i64 - 1;
        let fourth = floor_quotient(y, 4);
        let hundredth = floor_quotient(y, 100);
        let four_hundredth = floor_quotient(y, 400);
        let before = count_days_before_month(self.year, self.month);
        Some(365 * y + fourth - hundredth + four_hundredth + before + self.day as i64)
    }

    /// The number of days from `earlier` to this date, negative if this date
    /// is the earlier one; nothing unless both dates exist in the calendar.
    pub fn days_since(&self, earlier: &DateKey) -> (days: Option<i64>)
        ensures
            match days {
                Some(d) => self.wf() && earlier.wf() && d == self.day_number()
                    - earlier.day_number(),
                None => !(self.wf() && earlier.wf()),
            },
    {
        if self.is_valid() && earlier.is_valid() {
            Some(whole_days_between(*self, *earlier))
        } else {
            None
        }
    }
}

/// Whether `year` has a 29 February.
fn year_is_leap(year: i32) -> (leap: bool)
    ensures
        leap == is_leap_year(year as int),
{
    let cycles = floor_quotient(year as i64, 400);
    let in_cycle: i64 = year as i64 - 400 * cycles;
    assert(in_cycle == year as int % 400);
    in_cycle % 4 == 0 && (in_cycle % 100 != 0 || in_cycle == 0)
}

/// The number of days of `year` that lie before the first of `month`.
fn count_days_before_month(year: i32, month: u32) -> (days: i64)
    requires
        1 <= month <= 12,
    ensures
        days == days_before_month(year as int, month as int),
        0 <= days <= 31 * (month - 1),
{
    let leap = year_is_leap(year);
    let mut days: i64 = 0;
    let mut m: u32 = 1;
    while m < month
        invariant
            1 <= m <= month <= 12,
            leap == is_leap_year(year as int),
            days == days_before_month(year as int, m as int),
            0 <= days <= 31 * (m - 1),
        decreases month - m,
    {
        let length: i64 = if m == 2 {
            if leap {
                29
            } else {
                28
            }
        } else if m == 4 || m == 6 || m == 9 || m == 11 {
            30
        } else {
            31
        };
        assert(days_before_month(year as int, m + 1) == days_before_month(year as int, m as int)
            + days_in_month(year as int, m as int));
        days = days + length;
        m += 1;
    }
    days
}

/// The quotient of `n` by a positive `d`, rounded down.
fn floor_quotient(n: i64, d: i64) -> (q: i64)
    requires
        d > 0,
    ensures
        q == n as int / d as int,
        n >= 0 ==> 0 <= q <= n,
        n < 0 ==> n <= q <= 0,
{
    proof {
        if n >= 0 {
            assert(d * 0 <= n <= d * n) by (nonlinear_arith)
                requires
                    n >= 0,
                    d >= 1,
            ;
            crate::arith::lemma_quotient_bounds(n as int, d as int, 0, n as int);
        } else {
            assert(d * n <= n <= d * 0) by (nonlinear_arith)
                requires
                    n < 0,
                    d >= 1,
            ;
            crate::arith::lemma_quotient_bounds(n as int, d as int, n as int, 0);
        }
    }
    crate::arith::div_floor(n as i128, d as i128) as i64
}

/// Asks `chrono::NaiveDate::from_ymd_opt` whether the triple is a date.
///
/// Trusted: the call returns a date exactly for the triples of
/// `is_calendar_date`, that is for an existing day of the proleptic Gregorian
/// calendar in a year from `MIN_YEAR` to `MAX_YEAR`.
#[verifier::external_body]
fn calendar_date_exists(year: i32, month: u32, day: u32) -> (exists: bool)
    ensures
        exists == is_calendar_date(year as int, month as int, day as int),
{
    chrono::NaiveDate::from_ymd_opt(year, month, day).is_some()
}

/// Subtracts two dates with `chrono::NaiveDate::signed_duration_since` and
/// reads the difference in days with `chrono::TimeDelta::num_days`.
///
/// Trusted: between two existing dates the difference is a whole number of
/// days, the difference of their day numbers in the proleptic Gregorian
/// calendar.
#[verifier::external_body]
pub(crate) fn whole_days_between(later: DateKey, earlier: DateKey) -> (days: i64)
    requires
        later.wf(),
        earlier.wf(),
    ensures
        days == later.day_number() - earlier.day_number(),
{
    let a = chrono::NaiveDate::from_ymd_opt(later.year, later.month, later.day).unwrap();
    let b = chrono::NaiveDate::from_ymd_opt(earlier.year, earlier.month, earlier.day).unwrap();
    a.signed_duration_since(b).num_days()
}

/// The position of the first `-` in `s`, or the length of `s` if it has none.
pub open spec fn first_dash(s: Seq<char>) -> int
    decreases s.len(),
{
    if s.len() == 0 || s[0] == '-' {
        0
    } else {
        1 + first_dash(s.drop_first())
    }
}

/// The number that a field spells, if it is at most `limit`: one or more
/// ASCII digits, which a single `+` may precede.
pub open spec fn number_field(s: Seq<char>, limit: int) -> Option<int> {
    let digits = if s.len() > 0 && s[0] == '+' {
        s.drop_first()
    } else {
        s
    };
    if digits.len() > 0 && all_digits(digits) && digits_value(digits) <= limit {
        Some(digits_value(digits) as int)
    } else {
        None
    }
}

/// What a label spells: three number fields parted by exactly two `-`, the
/// day first, then the month, then the year, which together name a calendar
/// date; or the first thing that is wrong with it.
pub open spec fn read_label(s: Seq<char>) -> Result<DateKey, DateLabelError> {
    let i = first_dash(s);
    let rest = s.skip(i + 1);
    let j = first_dash(rest);
    let last = rest.skip(j + 1);
    if !(i < s.len() && j < rest.len() && first_dash(last) == last.len()) {
        Err(DateLabelError::Format)
    } else {
        match number_field(s.take(i), u32::MAX as int) {
            None => Err(DateLabelError::Day),
            Some(day) => match number_field(rest.take(j), u32::MAX as int) {
                None => Err(DateLabelError::Month),
                Some(month) => match number_field(last, i32::MAX as int) {
                    None => Err(DateLabelError::Year),
                    Some(year) => if is_calendar_date(year, month, day) {
                        Ok(DateKey { year: year as i32, month: month as u32, day: day as u32 })
                    } else {
                        Err(DateLabelError::Calendar)
                    },
                },
            },
        }
    }
}

/// The date that a label spells, if it spells one.
pub open spec fn date_of_label(s: Seq<char>) -> Option<DateKey> {
    match read_label(s) {
        Ok(date) => Some(date),
        Err(_) => None,
    }
}

/// A date that a label spells is a calendar date.
pub proof fn lemma_date_of_label_wf(s: Seq<char>)
    ensures
        date_of_label(s) matches Some(date) ==> date.wf(),
{
}

/// A year has 365 days, and 366 if it has a 29 February.
pub proof fn lemma_year_length(year: int)
    ensures
        days_before_year(year + 1) - days_before_year(year) == if is_leap_year(year) {
            366int
        } else {
            365int
        },
        days_before_month(year, 13) == days_before_year(year + 1) - days_before_year(year),
{
    reveal_with_fuel(days_before_month, 14);
}

/// A later year starts at least 365 days after each year before it.
pub proof fn lemma_years_grow(earlier: int, later: int)
    requires
        earlier < later,
    ensures
        days_before_year(later) - days_before_year(earlier) >= 365 * (later - earlier),
    decreases later - earlier,
{
    lemma_year_length(later - 1);
    if earlier < later - 1 {
        lemma_years_grow(earlier, later - 1);
    }
}

/// The days before a month are fewer than the days before a later month,
/// and a month ends before the next one starts.
pub proof fn lemma_months_grow(year: int, earlier: int, later: int)
    requires
        1 <= earlier < later <= 13,
    ensures
        days_before_month(year, earlier) + days_in_month(year, earlier) <= days_before_month(
            year,
            later,
        ),
    decreases later - earlier,
{
    if earlier < later - 1 {
        lemma_months_grow(year, earlier, later - 1);
    }
}

/// The calendar orders the dates as their day numbers do: a date comes
/// before another exactly if its day number is the smaller one.
pub proof fn lemma_day_numbers_order_dates(a: DateKey, b: DateKey)
    requires
        a.wf(),
        b.wf(),
    ensures
        a.precedes(b) <==> a.day_number() < b.day_number(),
        a == b <==> a.day_number() == b.day_number(),
{
    lemma_day_numbers_grow(a, b);
    lemma_day_numbers_grow(b, a);
}

proof fn lemma_day_numbers_grow(a: DateKey, b: DateKey)
    requires
        a.wf(),
        b.wf(),
    ensures
        a.precedes(b) ==> a.day_number() < b.day_number(),
{
    if a.year < b.year {
        lemma_months_grow(a.year as int, a.month as int, 13);
        lemma_year_length(a.year as int);
        if a.year + 1 < b.year {
            lemma_years_grow(a.year + 1, b.year as int);
        }
        if b.month > 1 {
            lemma_months_grow(b.year as int, 1, b.month as int);
        }
    } else if a.year == b.year && a.month < b.month {
        lemma_months_grow(a.year as int, a.month as int, b.month as int);
    }
}

/// The first `-` of `s` stands at `m` if none stands before `m` and one
/// stands there, or `s` ends there.
pub proof fn lemma_first_dash(s: Seq<char>, m: int)
    requires
        0 <= m <= s.len(),
        forall|t: int| 0 <= t < m ==> s[t] != '-',
        m == s.len() || s[m] == '-',
    ensures
        first_dash(s) == m,
    decreases m,
{
    if m > 0 {
        lemma_first_dash(s.drop_first(), m - 1);
    }
}

fn find_dash(chars: &Vec<char>, from: usize) -> (at: usize)
    requires
        from <= chars.len(),
    ensures
        from <= at <= chars.len(),
        at - from == first_dash(chars@.skip(from as int)),
{
    let mut at = from;
    while at < chars.len() && chars[at] != '-'
        invariant
            from <= at <= chars.len(),
            forall|t: int| from <= t < at ==> chars@[t] != '-',
        decreases chars.len() - at,
    {
        at += 1;
    }
    proof {
        lemma_first_dash(chars@.skip(from as int), at - from);
    }
    at
}

fn read_number(chars: &Vec<char>, from: usize, to: usize, limit: u32) -> (number: Option<u32>)
    requires
        from <= to <= chars.len(),
    ensures
        match number {
            Some(n) => number_field(chars@.subrange(from as int, to as int), limit as int) == Some(
                n as int,
            ),
            None => number_field(chars@.subrange(from as int, to as int), limit as int) is None,
        },
{
    let ghost field = chars@.subrange(from as int, to as int);
    let mut at = from;
    if at < to && chars[at] == '+' {
        at += 1;
    }
    let start = at;
    let ghost digits = chars@.subrange(start as int, to as int);
    assert(digits == if field.len() > 0 && field[0] == '+' {
        field.drop_first()
    } else {
        field
    });
    if at == to {
        return None;
    }
    let mut value: u64 = 0;
    while at < to
        invariant
            start <= at <= to <= chars.len(),
            field == chars@.subrange(from as int, to as int),
            digits == chars@.subrange(start as int, to as int),
            digits == if field.len() > 0 && field[0] == '+' {
                field.drop_first()
            } else {
                field
            },
            all_digits(digits.take(at - start)),
            value == digits_value(digits.take(at - start)),
            value <= limit,
        decreases to - at,
    {
        proof {
            assert(digits.take(at - start + 1).drop_last() == digits.take(at - start));
            assert(digits.take(at - start + 1).last() == chars@[at as int]);
        }
        match digit_of(chars[at]) {
            None => {
                assert(!crate::text::is_digit(digits[at - start]));
                return None;
            },
            Some(d) => {
                let next = value * 10 + d as u64;
                if next > limit as u64 {
                    proof {
                        lemma_digits_value_grows(digits, at - start + 1);
                    }
                    return None;
                }
                value = next;
            },
        }
        at += 1;
    }
    assert(digits.take(to - start) == digits);
    Some(value as u32)
}

/// Reads a date from a label of the form day-month-year, or says what is
/// wrong with the label.
pub fn read_date_label(label: &str) -> (read: Result<DateKey, DateLabelError>)
    ensures
        read == read_label(label@),
{
    let chars = chars_of(label);
    let n = chars.len();
    let i = find_dash(&chars, 0);
    assert(label@.skip(0) == label@);
    if i >= n {
        return Err(DateLabelError::Format);
    }
    let j = find_dash(&chars, i + 1);
    if j >= n {
        return Err(DateLabelError::Format);
    }
    let k = find_dash(&chars, j + 1);
    proof {
        let s = label@;
        let rest = s.skip(i + 1);
        assert(rest.skip(j - i) == s.skip(j + 1));
        assert(s.take(i as int) == s.subrange(0, i as int));
        assert(rest.take(j - (i + 1)) == s.subrange(i + 1, j as int));
        assert(s.skip(j + 1) == s.subrange(j + 1, n as int));
    }
    if k < n {
        return Err(DateLabelError::Format);
    }
    let day = match read_number(&chars, 0, i, u32::MAX) {
        Some(day) => day,
        None => {
            return Err(DateLabelError::Day);
        },
    };
    let month = match read_number(&chars, i + 1, j, u32::MAX) {
        Some(month) => month,
        None => {
            return Err(DateLabelError::Month);
        },
    };
    let year = match read_number(&chars, j + 1, n, 0x7fff_ffff) {
        Some(year) => year as i32,
        None => {
            return Err(DateLabelError::Year);
        },
    };
    if calendar_date_exists(year, month, day) {
        Ok(DateKey { year, month, day })
    } else {
        Err(DateLabelError::Calendar)
    }
}

/// Reads a date from a label of the form day-month-year.
pub fn parse_date_string(date_str: &str) -> (parsed: Result<DateKey, InvalidDate>)
    ensures
        match parsed {
            Ok(date) => date_of_label(date_str@) == Some(date),
            Err(_) => date_of_label(date_str@) is None,
        },
{
    match read_date_label(date_str) {
        Ok(date) => Ok(date),
        Err(_) => Err(InvalidDate),
    }
}

} // verus!
