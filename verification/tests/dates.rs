use chrono::{Datelike, NaiveDate};
use nse_scraper::date::{parse_date_string, DateKey, InvalidDate, MAX_YEAR, MIN_YEAR};

fn date(year: i32, month: u32, day: u32) -> DateKey {
    DateKey { year, month, day }
}

/// The date of a label as std's number parsing and chrono's calendar give it.
fn reference_date(label: &str) -> Option<DateKey> {
    let parts: Vec<&str> = label.split('-').collect();
    if parts.len() != 3 {
        return None;
    }
    let day = parts[0].parse::<u32>().ok()?;
    let month = parts[1].parse::<u32>().ok()?;
    let year = parts[2].parse::<i32>().ok()?;
    NaiveDate::from_ymd_opt(year, month, day).map(|d| date(d.year(), d.month(), d.day()))
}

#[test]
fn parse_reads_day_month_year() {
    assert_eq!(parse_date_string("07-03-2024"), Ok(date(2024, 3, 7)));
    assert_eq!(parse_date_string("31-12-1999"), Ok(date(1999, 12, 31)));
    assert_eq!(parse_date_string("1-1-1"), Ok(date(1, 1, 1)));
}

#[test]
fn parse_accepts_unpadded_and_signed_fields() {
    assert_eq!(parse_date_string("7-3-2024"), Ok(date(2024, 3, 7)));
    assert_eq!(parse_date_string("007-0003-02024"), Ok(date(2024, 3, 7)));
    assert_eq!(parse_date_string("+7-+3-+2024"), Ok(date(2024, 3, 7)));
    assert_eq!(parse_date_string("01-01-0"), Ok(date(0, 1, 1)));
}

#[test]
fn parse_rejects_labels_without_three_fields() {
    assert_eq!(parse_date_string(""), Err(InvalidDate));
    assert_eq!(parse_date_string("07032024"), Err(InvalidDate));
    assert_eq!(parse_date_string("07-03"), Err(InvalidDate));
    assert_eq!(parse_date_string("07/03/2024"), Err(InvalidDate));
    assert_eq!(parse_date_string("07-03-2024-01"), Err(InvalidDate));
    assert_eq!(parse_date_string("07-03--2024"), Err(InvalidDate));
    assert_eq!(parse_date_string("--"), Err(InvalidDate));
    assert_eq!(parse_date_string("-03-2024"), Err(InvalidDate));
    assert_eq!(parse_date_string("07--2024"), Err(InvalidDate));
    assert_eq!(parse_date_string("07-03-"), Err(InvalidDate));
}

#[test]
fn parse_rejects_fields_that_are_no_numbers() {
    assert_eq!(parse_date_string("aa-03-2024"), Err(InvalidDate));
    assert_eq!(parse_date_string("07-Mar-2024"), Err(InvalidDate));
    assert_eq!(parse_date_string("07-03-20x4"), Err(InvalidDate));
    assert_eq!(parse_date_string(" 07-03-2024"), Err(InvalidDate));
    assert_eq!(parse_date_string("07-03-2024 "), Err(InvalidDate));
    assert_eq!(parse_date_string("07-03-2024\n"), Err(InvalidDate));
    assert_eq!(parse_date_string("+-03-2024"), Err(InvalidDate));
    assert_eq!(parse_date_string("++7-03-2024"), Err(InvalidDate));
    assert_eq!(parse_date_string("7+-03-2024"), Err(InvalidDate));
    assert_eq!(parse_date_string("\u{663}-03-2024"), Err(InvalidDate));
    assert_eq!(parse_date_string("7.0-03-2024"), Err(InvalidDate));
}

#[test]
fn parse_rejects_numbers_that_do_not_fit() {
    assert_eq!(parse_date_string("4294967296-03-2024"), Err(InvalidDate));
    assert_eq!(parse_date_string("07-4294967296-2024"), Err(InvalidDate));
    assert_eq!(parse_date_string("07-03-2147483648"), Err(InvalidDate));
    assert_eq!(parse_date_string("99999999999999999999999-03-2024"), Err(InvalidDate));
}

#[test]
fn parse_rejects_days_that_do_not_exist() {
    assert_eq!(parse_date_string("31-04-2024"), Err(InvalidDate));
    assert_eq!(parse_date_string("29-02-2023"), Err(InvalidDate));
    assert_eq!(parse_date_string("29-02-1900"), Err(InvalidDate));
    assert_eq!(parse_date_string("00-01-2024"), Err(InvalidDate));
    assert_eq!(parse_date_string("01-00-2024"), Err(InvalidDate));
    assert_eq!(parse_date_string("01-13-2024"), Err(InvalidDate));
    assert_eq!(parse_date_string("32-01-2024"), Err(InvalidDate));
    assert_eq!(parse_date_string("29-02-2024"), Ok(date(2024, 2, 29)));
    assert_eq!(parse_date_string("29-02-2000"), Ok(date(2000, 2, 29)));
}

#[test]
fn parse_keeps_to_the_range_of_years() {
    assert_eq!(MAX_YEAR, 262142);
    assert_eq!(MIN_YEAR, -262143);
    assert_eq!(parse_date_string("31-12-262142"), Ok(date(262142, 12, 31)));
    assert_eq!(parse_date_string("01-01-262143"), Err(InvalidDate));
}

#[test]
fn parse_agrees_with_std_and_chrono_on_every_triple() {
    for year in [0, 1, 4, 100, 1900, 1999, 2000, 2023, 2024, 2100, 262142, 262143] {
        for month in 0..=13u32 {
            for day in 0..=32u32 {
                for label in [
                    format!("{}-{}-{}", day, month, year),
                    format!("{:02}-{:02}-{:04}", day, month, year),
                ] {
                    assert_eq!(parse_date_string(&label).ok(), reference_date(&label), "{}", label);
                }
            }
        }
    }
}

#[test]
fn parse_agrees_with_std_and_chrono_on_odd_labels() {
    let labels = [
        "", "-", "--", "---", "1-2", "1-2-3", "1-2-3-4", "+1-+2-+3", "-1-2-3", "1--2-3", "1-2--3",
        "01-01-2024", "1-1-+2024", "1-1-2024+", "0x1-1-2024", "1_0-1-2024", "1-1-2024.0",
        "1 -1-2024", "١-1-2024", "1-1-２０２４", "30-02-2024", "31-06-2024", "31-07-2024",
        "4294967295-1-2024", "1-4294967295-2024", "1-1-2147483647", "1-1-0000", "+-1-1",
        "29-2-2100", "29-2-2400", "5-5-", "-5-5", "5--5",
    ];
    for label in labels {
        assert_eq!(parse_date_string(label).ok(), reference_date(label), "{:?}", label);
    }
}

#[test]
fn is_valid_agrees_with_chrono_at_the_ends_of_the_range() {
    for year in [MIN_YEAR - 1, MIN_YEAR, MIN_YEAR + 1, -1, 0, MAX_YEAR - 1, MAX_YEAR, MAX_YEAR + 1, i32::MIN, i32::MAX] {
        for (month, day) in [(1, 1), (2, 29), (12, 31), (0, 1), (13, 1), (u32::MAX, 1), (1, u32::MAX)] {
            let expected = NaiveDate::from_ymd_opt(year, month, day).is_some();
            assert_eq!(date(year, month, day).is_valid(), expected, "{} {} {}", year, month, day);
        }
    }
}

#[test]
fn day_number_counts_from_the_first_of_january_of_year_one() {
    assert_eq!(date(1, 1, 1).day_number_of(), Some(1));
    assert_eq!(date(1, 1, 2).day_number_of(), Some(2));
    assert_eq!(date(1, 12, 31).day_number_of(), Some(365));
    assert_eq!(date(2, 1, 1).day_number_of(), Some(366));
    assert_eq!(date(0, 12, 31).day_number_of(), Some(0));
    assert_eq!(date(1970, 1, 1).day_number_of(), Some(719_163));
    assert_eq!(date(2024, 2, 30).day_number_of(), None);
    assert_eq!(date(2024, 0, 1).day_number_of(), None);
}

#[test]
fn day_number_is_chronos_day_number() {
    let mut day = NaiveDate::from_ymd_opt(-801, 1, 1).unwrap();
    for _ in 0..1_300_000 {
        let key = date(day.year(), day.month(), day.day());
        assert_eq!(key.day_number_of(), Some(day.num_days_from_ce() as i64), "{}", day);
        day = day.succ_opt().unwrap();
    }
    for day in [NaiveDate::MIN, NaiveDate::MAX] {
        let key = date(day.year(), day.month(), day.day());
        assert_eq!(key.day_number_of(), Some(day.num_days_from_ce() as i64), "{}", day);
    }
}

#[test]
fn days_since_is_the_difference_of_the_day_numbers() {
    assert_eq!(date(2014, 1, 1).days_since(&date(2014, 1, 1)), Some(0));
    assert_eq!(date(2014, 1, 1).days_since(&date(2013, 12, 31)), Some(1));
    assert_eq!(date(2014, 1, 1).days_since(&date(2014, 1, 2)), Some(-1));
    assert_eq!(date(2014, 1, 1).days_since(&date(2013, 9, 23)), Some(100));
    assert_eq!(date(2014, 1, 1).days_since(&date(2010, 1, 1)), Some(365 * 4 + 1));
    assert_eq!(date(2014, 1, 1).days_since(&date(1614, 1, 1)), Some(365 * 400 + 97));
    assert_eq!(date(2024, 3, 1).days_since(&date(2024, 2, 28)), Some(2));
    assert_eq!(date(2023, 3, 1).days_since(&date(2023, 2, 28)), Some(1));
    let dates = [
        date(MIN_YEAR, 1, 1), date(-400, 2, 29), date(-1, 12, 31), date(0, 1, 1), date(1, 1, 1),
        date(1600, 3, 1), date(1900, 2, 28), date(1999, 12, 31), date(2000, 2, 29),
        date(2024, 1, 8), date(2024, 1, 1), date(MAX_YEAR, 12, 31),
    ];
    for a in dates {
        for b in dates {
            let expected = a.day_number_of().unwrap() - b.day_number_of().unwrap();
            assert_eq!(a.days_since(&b), Some(expected), "{:?} {:?}", a, b);
        }
    }
}

#[test]
fn days_since_needs_two_dates_that_exist() {
    assert_eq!(date(2024, 2, 30).days_since(&date(2024, 1, 1)), None);
    assert_eq!(date(2024, 1, 1).days_since(&date(2023, 2, 29)), None);
    assert_eq!(date(2024, 13, 1).days_since(&date(2024, 0, 1)), None);
}

#[test]
fn is_before_orders_by_year_then_month_then_day() {
    assert!(date(2023, 12, 31).is_before(&date(2024, 1, 1)));
    assert!(date(2024, 1, 31).is_before(&date(2024, 2, 1)));
    assert!(date(2024, 2, 1).is_before(&date(2024, 2, 2)));
    assert!(!date(2024, 2, 2).is_before(&date(2024, 2, 2)));
    assert!(!date(2024, 2, 2).is_before(&date(2024, 2, 1)));
    assert!(!date(2024, 1, 1).is_before(&date(2023, 12, 31)));
    assert!(date(-5, 1, 1).is_before(&date(-4, 1, 1)));
}
