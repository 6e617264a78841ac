//! The range of days that a request covers: how far it reaches back from
//! today, and the labels of its first and last day.

use chrono::Datelike;
use crate::date::{day_number, DateKey, MIN_YEAR};
use crate::text::{chars_of, decimal, push_decimal, trim_bounds, trimmed};
use vstd::prelude::*;

verus! {

/// How far back a request reaches.
#[derive(Debug, Clone, Copy, PartialEq, Eq, Structural)]
pub enum DurationChoice {
    LastWeek,
    LastMonth,
    LastThreeMonths,
    LastSixMonths,
    LastYear,
    /// From a day that the user names.
    Custom,
}

/// The duration that a menu choice names: `1` to `6`.
pub open spec fn duration_of_choice(choice: Seq<char>) -> Option<DurationChoice> {
    if choice.len() != 1 {
        None
    } else if choice[0] == '1' {
        Some(DurationChoice::LastWeek)
    } else if choice[0] == '2' {
        Some(DurationChoice::LastMonth)
    } else if choice[0] == '3' {
        Some(DurationChoice::LastThreeMonths)
    } else if choice[0] == '4' {
        Some(DurationChoice::LastSixMonths)
    } else if choice[0] == '5' {
        Some(DurationChoice::LastYear)
    } else if choice[0] == '6' {
        Some(DurationChoice::Custom)
    } else {
        None
    }
}

impl DurationChoice {
    /// The number of days that the duration reaches back, unless the user
    /// names the first day.
    pub open spec fn days_back(self) -> Option<u32> {
        match self {
            DurationChoice::LastWeek => Some(7u32),
            DurationChoice::LastMonth => Some(30u32),
            DurationChoice::LastThreeMonths => Some(90u32),
            DurationChoice::LastSixMonths => Some(180u32),
            DurationChoice::LastYear => Some(365u32),
            DurationChoice::Custom => None,
        }
    }

    /// Reads a menu choice, which white space may surround.
    pub fn from_str(s: &str) -> (choice: Option<DurationChoice>)
        ensures
            choice == duration_of_choice(trimmed(s@)),
    {
        let chars = chars_of(s);
        let (lo, hi) = trim_bounds(&chars);
        if hi - lo != 1 {
            return None;
        }
        let c = chars[lo];
        assert(chars@.subrange(lo as int, hi as int)[0] == c);
        if c == '1' {
            Some(DurationChoice::LastWeek)
        } else if c == '2' {
            Some(DurationChoice::LastMonth)
        } else if c == '3' {
            Some(DurationChoice::LastThreeMonths)
        } else if c == '4' {
            Some(DurationChoice::LastSixMonths)
        } else if c == '5' {
            Some(DurationChoice::LastYear)
        } else if c == '6' {
            Some(DurationChoice::Custom)
        } else {
            None
        }
    }

    /// The number of days that the duration reaches back, unless the user
    /// names the first day.
    pub fn days(&self) -> (days: Option<u32>)
        ensures
            days == self.days_back(),
    {
        match self {
            DurationChoice::LastWeek => Some(7),
            DurationChoice::LastMonth => Some(30),
            DurationChoice::LastThreeMonths => Some(90),
            DurationChoice::LastSixMonths => Some(180),
            DurationChoice::LastYear => Some(365),
            DurationChoice::Custom => None,
        }
    }
}

/// The day number of the earliest date.
pub open spec fn first_day_number() -> int {
    day_number(MIN_YEAR as int, 1, 1)
}

/// Goes back from a date with `chrono::NaiveDate::checked_sub_signed`, by a
/// `chrono::TimeDelta` of whole days, and reads the year, the month and the
/// day of what it gives through `chrono::Datelike`.
///
/// Trusted: the call gives the date whose day number is smaller by `days`,
/// and no date only where that day would lie before the earliest date.
#[verifier::external_body]
fn days_earlier(date: DateKey, days: u32) -> (earlier: Option<DateKey>)
    requires
        date.wf(),
    ensures
        match earlier {
            Some(e) => e.wf() && e.day_number() == date.day_number() - days,
            None => date.day_number() - days < first_day_number(),
        },
{
    let from = chrono::NaiveDate::from_ymd_opt(date.year, date.month, date.day).unwrap();
    let to = from.checked_sub_signed(chrono::TimeDelta::days(days as i64));
    to.map(|d| DateKey { year: d.year(), month: d.month(), day: d.day() })
}

/// The date that lies `days` days before `today`; nothing if `today` does
/// not exist in the calendar or that day would lie before the earliest date.
pub fn start_of_range(today: &DateKey, days: u32) -> (start: Option<DateKey>)
    ensures
        match start {
            Some(date) => today.wf() && date.wf() && date.day_number() == today.day_number()
                - days,
            None => !today.wf() || today.day_number() - days < first_day_number(),
        },
{
    if today.is_valid() {
        days_earlier(*today, days)
    } else {
        None
    }
}

/// The digits of `n`, with zeros before them where they are fewer than
/// `width`.
pub open spec fn zero_padded(n: nat, width: nat) -> Seq<char> {
    let digits = decimal(n);
    if digits.len() >= width {
        digits
    } else {
        Seq::new((width - digits.len()) as nat, |i: int| '0') + digits
    }
}

/// The year of a label: four digits or more, after a sign for a year before
/// year 0 or after year 9999.
pub open spec fn year_label(year: int) -> Seq<char> {
    if year < 0 {
        seq!['-'] + zero_padded((-year) as nat, 4)
    } else if year > 9999 {
        seq!['+'] + decimal(year as nat)
    } else {
        zero_padded(year as nat, 4)
    }
}

/// The label of a date: day, month and year, the day and the month in two
/// digits, with a `-` between them.
pub open spec fn date_label(date: DateKey) -> Seq<char> {
    zero_padded(date.day as nat, 2) + seq!['-'] + zero_padded(date.month as nat, 2) + seq!['-']
        + year_label(date.year as int)
}

/// The number of digits of `n`.
fn count_digits(n: u64) -> (count: u64)
    ensures
        count == decimal(n as nat).len(),
        1 <= count <= n + 1,
    decreases n,
{
    if n < 10 {
        1
    } else {
        count_digits(n / 10) + 1
    }
}

/// Appends the digits of `n` to `out`, with zeros before them where they
/// are fewer than `width`.
pub fn push_zero_padded(out: &mut String, n: u64, width: usize)
    ensures
        final(out)@ == old(out)@ + zero_padded(n as nat, width as nat),
{
    let count = count_digits(n);
    let mut written: u64 = count;
    assert(out@ =~= old(out)@ + Seq::new(0, |i: int| '0'));
    while written < width as u64
        invariant
            count <= written,
            written <= width || written == count,
            out@ == old(out)@ + Seq::new((written - count) as nat, |i: int| '0'),
        decreases width - written,
    {
        proof {
            reveal_strlit("0");
        }
        out.append("0");
        assert(out@ =~= old(out)@ + Seq::new((written + 1 - count) as nat, |i: int| '0'));
        written += 1;
    }
    let ghost zeros = Seq::new((written - count) as nat, |i: int| '0');
    push_decimal(out, n);
    proof {
        let digits = decimal(n as nat);
        if digits.len() >= width {
            assert(zeros =~= Seq::<char>::empty());
            assert(out@ =~= old(out)@ + digits);
        } else {
            assert(written == width);
            assert(out@ =~= old(out)@ + (zeros + digits));
        }
    }
}

/// The label of a date under which the exchange knows it; nothing if the
/// date does not exist in the calendar.
pub fn format_date_label(date: &DateKey) -> (label: Option<String>)
    ensures
        match label {
            Some(text) => date.wf() && text@ == date_label(*date),
            None => !date.wf(),
        },
{
    if !date.is_valid() {
        return None;
    }
    proof {
        reveal_strlit("-");
        reveal_strlit("+");
    }
    let mut text = String::new();
    push_zero_padded(&mut text, date.day as u64, 2);
    text.append("-");
    push_zero_padded(&mut text, date.month as u64, 2);
    text.append("-");
    let ghost head = text@;
    if date.year < 0 {
        text.append("-");
        push_zero_padded(&mut text, (-(date.year as i64)) as u64, 4);
    } else if date.year > 9999 {
        text.append("+");
        push_decimal(&mut text, date.year as u64);
    } else {
        push_zero_padded(&mut text, date.year as u64, 4);
    }
    assert(head =~= zero_padded(date.day as nat, 2) + seq!['-'] + zero_padded(date.month as nat, 2)
        + seq!['-']);
    assert(text@ =~= head + year_label(date.year as int));
    Some(text)
}

} // verus!
