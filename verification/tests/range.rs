use chrono::{Datelike, NaiveDate, TimeDelta};
use nse_scraper::date::{parse_date_string, read_date_label, DateKey, DateLabelError, MAX_YEAR, MIN_YEAR};
use nse_scraper::range::{format_date_label, push_zero_padded, start_of_range, DurationChoice};

fn date(year: i32, month: u32, day: u32) -> DateKey {
    DateKey { year, month, day }
}

fn key(day: NaiveDate) -> DateKey {
    date(day.year(), day.month(), day.day())
}

#[test]
fn duration_choices_are_one_to_six() {
    assert_eq!(DurationChoice::from_str("1"), Some(DurationChoice::LastWeek));
    assert_eq!(DurationChoice::from_str("2"), Some(DurationChoice::LastMonth));
    assert_eq!(DurationChoice::from_str("3"), Some(DurationChoice::LastThreeMonths));
    assert_eq!(DurationChoice::from_str("4"), Some(DurationChoice::LastSixMonths));
    assert_eq!(DurationChoice::from_str("5"), Some(DurationChoice::LastYear));
    assert_eq!(DurationChoice::from_str("6"), Some(DurationChoice::Custom));
    assert_eq!(DurationChoice::from_str(" 4\n"), Some(DurationChoice::LastSixMonths));
    for other in ["", " ", "0", "7", "11", "1 1", "one", "-1", "+1"] {
        assert_eq!(DurationChoice::from_str(other), None, "{:?}", other);
    }
}

#[test]
fn durations_reach_back_by_their_days() {
    assert_eq!(DurationChoice::LastWeek.days(), Some(7));
    assert_eq!(DurationChoice::LastMonth.days(), Some(30));
    assert_eq!(DurationChoice::LastThreeMonths.days(), Some(90));
    assert_eq!(DurationChoice::LastSixMonths.days(), Some(180));
    assert_eq!(DurationChoice::LastYear.days(), Some(365));
    assert_eq!(DurationChoice::Custom.days(), None);
}

#[test]
fn start_of_range_goes_back_by_days() {
    assert_eq!(start_of_range(&date(2015, 9, 5), 40), Some(date(2015, 7, 27)));
    assert_eq!(start_of_range(&date(2024, 3, 1), 1), Some(date(2024, 2, 29)));
    assert_eq!(start_of_range(&date(2023, 3, 1), 1), Some(date(2023, 2, 28)));
    assert_eq!(start_of_range(&date(2024, 1, 5), 7), Some(date(2023, 12, 29)));
    assert_eq!(start_of_range(&date(2024, 1, 5), 0), Some(date(2024, 1, 5)));
    assert_eq!(start_of_range(&date(2024, 12, 31), 365), Some(date(2024, 1, 1)));
    assert_eq!(start_of_range(&date(2025, 12, 31), 365), Some(date(2024, 12, 31)));
}

#[test]
fn start_of_range_lies_that_many_days_earlier() {
    let today = date(2024, 7, 15);
    for days in [0u32, 1, 7, 30, 90, 180, 365, 366, 10_000, 1_000_000] {
        let start = start_of_range(&today, days).unwrap();
        assert_eq!(today.days_since(&start), Some(days as i64));
        assert_eq!(start.day_number_of().unwrap(), today.day_number_of().unwrap() - days as i64);
        let expected = NaiveDate::from_ymd_opt(2024, 7, 15).unwrap() - TimeDelta::days(days as i64);
        assert_eq!(start, key(expected));
    }
}

#[test]
fn start_of_range_stops_at_the_earliest_date() {
    assert_eq!(start_of_range(&date(MIN_YEAR, 1, 1), 0), Some(date(MIN_YEAR, 1, 1)));
    assert_eq!(start_of_range(&date(MIN_YEAR, 1, 1), 1), None);
    assert_eq!(start_of_range(&date(MIN_YEAR, 1, 8), 7), Some(date(MIN_YEAR, 1, 1)));
    assert_eq!(start_of_range(&date(MIN_YEAR, 1, 8), 8), None);
    assert_eq!(start_of_range(&date(2024, 1, 1), u32::MAX), None);
    assert_eq!(start_of_range(&date(2024, 1, 1), i32::MAX as u32), None);
    assert_eq!(start_of_range(&date(2024, 1, 1), i32::MAX as u32 + 1), None);
    let span = date(MAX_YEAR, 12, 31).days_since(&date(MIN_YEAR, 1, 1)).unwrap() as u32;
    assert_eq!(start_of_range(&date(MAX_YEAR, 12, 31), span), Some(date(MIN_YEAR, 1, 1)));
    assert_eq!(start_of_range(&date(MAX_YEAR, 12, 31), span + 1), None);
}

#[test]
fn start_of_range_needs_a_date_that_exists() {
    assert_eq!(start_of_range(&date(2024, 2, 30), 7), None);
    assert_eq!(start_of_range(&date(2024, 0, 1), 0), None);
}

#[test]
fn push_zero_padded_pads_to_the_width() {
    for (n, width, text) in [
        (0u64, 0usize, "0"), (0, 1, "0"), (0, 2, "00"), (7, 2, "07"), (12, 2, "12"), (123, 2, "123"),
        (5, 4, "0005"), (2024, 4, "2024"), (12345, 4, "12345"), (u64::MAX, 4, "18446744073709551615"),
        (9, 10, "0000000009"),
    ] {
        let mut out = String::from(">");
        push_zero_padded(&mut out, n, width);
        assert_eq!(out, format!(">{}", text));
    }
}

#[test]
fn format_date_label_writes_day_month_year() {
    assert_eq!(format_date_label(&date(2024, 3, 7)).as_deref(), Some("07-03-2024"));
    assert_eq!(format_date_label(&date(1999, 12, 31)).as_deref(), Some("31-12-1999"));
    assert_eq!(format_date_label(&date(987, 1, 1)).as_deref(), Some("01-01-0987"));
    assert_eq!(format_date_label(&date(0, 1, 1)).as_deref(), Some("01-01-0000"));
    assert_eq!(format_date_label(&date(9999, 1, 1)).as_deref(), Some("01-01-9999"));
    assert_eq!(format_date_label(&date(10000, 1, 1)).as_deref(), Some("01-01-+10000"));
    assert_eq!(format_date_label(&date(-1, 1, 1)).as_deref(), Some("01-01--0001"));
    assert_eq!(format_date_label(&date(-12345, 1, 1)).as_deref(), Some("01-01--12345"));
    assert_eq!(format_date_label(&date(2024, 2, 30)), None);
    assert_eq!(format_date_label(&date(2024, 13, 1)), None);
}

#[test]
fn format_date_label_writes_what_chrono_writes() {
    let mut day = NaiveDate::from_ymd_opt(1995, 1, 1).unwrap();
    for _ in 0..15_000 {
        assert_eq!(format_date_label(&key(day)), Some(day.format("%d-%m-%Y").to_string()));
        day = day.succ_opt().unwrap();
    }
    for year in [MIN_YEAR, -10_000, -9999, -1000, -999, -1, 0, 1, 9, 10, 99, 100, 999, 1000, 9999, 10_000, 99_999, MAX_YEAR] {
        for (month, d) in [(1, 1), (2, 28), (10, 9), (12, 31)] {
            let day = NaiveDate::from_ymd_opt(year, month, d).unwrap();
            assert_eq!(format_date_label(&key(day)), Some(day.format("%d-%m-%Y").to_string()));
        }
    }
}

#[test]
fn a_label_that_is_written_reads_back() {
    let mut day = NaiveDate::from_ymd_opt(-3, 1, 1).unwrap();
    for _ in 0..3000 {
        let label = format_date_label(&key(day)).unwrap();
        let expected = if day.year() >= 0 { Ok(key(day)) } else { Err(nse_scraper::date::InvalidDate) };
        assert_eq!(parse_date_string(&label), expected, "{}", label);
        day = day.succ_opt().unwrap();
    }
    assert_eq!(parse_date_string("01-01-+10000"), Ok(date(10000, 1, 1)));
}

#[test]
fn read_date_label_says_what_is_wrong() {
    assert_eq!(read_date_label("07-03-2024"), Ok(date(2024, 3, 7)));
    assert_eq!(read_date_label("07-03"), Err(DateLabelError::Format));
    assert_eq!(read_date_label(""), Err(DateLabelError::Format));
    assert_eq!(read_date_label("1-2-3-4"), Err(DateLabelError::Format));
    assert_eq!(read_date_label("x-y-z-w"), Err(DateLabelError::Format));
    assert_eq!(read_date_label("x-03-2024"), Err(DateLabelError::Day));
    assert_eq!(read_date_label("-03-2024"), Err(DateLabelError::Day));
    assert_eq!(read_date_label("x-y-z"), Err(DateLabelError::Day));
    assert_eq!(read_date_label("4294967296-03-2024"), Err(DateLabelError::Day));
    assert_eq!(read_date_label("07-y-2024"), Err(DateLabelError::Month));
    assert_eq!(read_date_label("07--2024"), Err(DateLabelError::Month));
    assert_eq!(read_date_label("07-y-z"), Err(DateLabelError::Month));
    assert_eq!(read_date_label("07-03-z"), Err(DateLabelError::Year));
    assert_eq!(read_date_label("07-03-"), Err(DateLabelError::Year));
    assert_eq!(read_date_label("07-03-2147483648"), Err(DateLabelError::Year));
    assert_eq!(read_date_label("31-04-2024"), Err(DateLabelError::Calendar));
    assert_eq!(read_date_label("00-00-0000"), Err(DateLabelError::Calendar));
    assert_eq!(read_date_label("01-01-262143"), Err(DateLabelError::Calendar));
    assert_eq!(read_date_label("4294967295-4294967295-2147483647"), Err(DateLabelError::Calendar));
}
