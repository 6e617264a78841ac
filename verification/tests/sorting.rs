use nse_scraper::date::DateKey;
use nse_scraper::ema::signed_prices;
use nse_scraper::models::DailyData;
use nse_scraper::resample::{daily_buckets, read_dates};
use nse_scraper::sorting::{key_is_before, sort_order};

fn date(year: i32, month: u32, day: u32) -> Option<DateKey> {
    Some(DateKey { year, month, day })
}

fn bar(label: &str, close: u32) -> DailyData {
    DailyData {
        timestamp: label.to_string(),
        open: close,
        high: close + 2,
        low: close / 2,
        close,
        last: close,
        prev_close: close,
        volume: 10,
        value: 20,
        year_high: close + 2,
        year_low: close / 2,
        rsi: None,
        sma_20: None,
        sma_50: None,
        sma_200: None,
        ema_12: None,
        ema_26: None,
        macd: None,
        macd_signal: None,
        macd_histogram: None,
        bollinger_upper: None,
        bollinger_middle: None,
        bollinger_lower: None,
    }
}

#[test]
fn no_date_sorts_before_every_date() {
    assert!(key_is_before(&None, &date(1, 1, 1)));
    assert!(key_is_before(&None, &date(-5, 1, 1)));
    assert!(!key_is_before(&date(1, 1, 1), &None));
    assert!(!key_is_before(&None, &None));
}

#[test]
fn dates_sort_in_calendar_order() {
    assert!(key_is_before(&date(2023, 12, 31), &date(2024, 1, 1)));
    assert!(key_is_before(&date(2024, 1, 1), &date(2024, 1, 2)));
    assert!(key_is_before(&date(2024, 1, 31), &date(2024, 2, 1)));
    assert!(!key_is_before(&date(2024, 2, 1), &date(2024, 1, 31)));
    assert!(!key_is_before(&date(2024, 2, 1), &date(2024, 2, 1)));
}

#[test]
fn sort_order_lists_the_positions_in_order_of_their_keys() {
    assert_eq!(sort_order(&Vec::new()), Vec::<usize>::new());
    assert_eq!(sort_order(&vec![None]), [0]);
    let keys = vec![date(2024, 1, 3), None, date(2024, 1, 1), date(2023, 5, 5), None, date(2024, 1, 1)];
    assert_eq!(sort_order(&keys), [1, 4, 3, 2, 5, 0]);
}

#[test]
fn sort_order_keeps_equal_keys_in_their_order() {
    let keys = vec![date(2024, 1, 1); 6];
    assert_eq!(sort_order(&keys), [0, 1, 2, 3, 4, 5]);
    let keys = vec![None; 4];
    assert_eq!(sort_order(&keys), [0, 1, 2, 3]);
}

#[test]
fn sort_order_turns_a_descending_series_round() {
    let keys: Vec<Option<DateKey>> = (1..=28).rev().map(|d| date(2024, 2, d)).collect();
    let expected: Vec<usize> = (0..28).rev().collect();
    assert_eq!(sort_order(&keys), expected);
}

#[test]
fn read_dates_reads_the_label_of_every_bar() {
    let bars = vec![bar("07-03-2024", 1), bar("soon", 2), bar("31-04-2024", 3), bar("1-1-1", 4)];
    assert_eq!(read_dates(&bars), [date(2024, 3, 7), None, None, date(1, 1, 1)]);
    assert!(read_dates(&Vec::new()).is_empty());
}

#[test]
fn daily_buckets_copy_the_bars_as_they_stand() {
    let bars = vec![bar("b", 8), bar("a", 4)];
    let buckets = daily_buckets(&bars);
    assert_eq!(buckets.len(), 2);
    assert_eq!(buckets[0].date, "b");
    assert_eq!((buckets[0].open, buckets[0].high, buckets[0].low, buckets[0].close), (8, 10, 4, 8));
    assert_eq!((buckets[0].volume, buckets[0].value), (10, 20));
    assert_eq!(buckets[1].date, "a");
    assert_eq!(buckets[1].close, 4);
}

#[test]
fn signed_prices_keep_the_prices() {
    assert_eq!(signed_prices(&vec![0, 5, u32::MAX]), [0i64, 5, u32::MAX as i64]);
}
