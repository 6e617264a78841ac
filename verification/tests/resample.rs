use nse_scraper::models::{ConsolidatedData, DailyData, HistoricalData, TimeFrame, TimeFrameData};

fn bar(label: &str, open: u32, high: u32, low: u32, close: u32, volume: u64, value: u64) -> DailyData {
    DailyData {
        timestamp: label.to_string(),
        open,
        high,
        low,
        close,
        last: close,
        prev_close: open,
        volume,
        value,
        year_high: high,
        year_low: low,
        rsi: None,
        sma_20: None,
        sma_50: None,
        sma_200: None,
        ema_12: None,
        ema_26: None,
        macd: None,
        macd_signal: None,
        macd_histogram: None,
        bollinger_upper: None,
        bollinger_middle: None,
        bollinger_lower: None,
    }
}

fn flat(label: &str, price: u32) -> DailyData {
    bar(label, price, price, price, price, 1000, 100_000)
}

fn series(bars: Vec<DailyData>) -> HistoricalData {
    HistoricalData { symbol: "RELIANCE".to_string(), data: bars }
}

fn bucket(date: &str, open: u32, high: u32, low: u32, close: u32, volume: u128, value: u128) -> TimeFrameData {
    TimeFrameData { date: date.to_string(), open, high, low, close, volume, value }
}

fn labels(out: &ConsolidatedData) -> Vec<String> {
    out.data.iter().map(|b| b.date.clone()).collect()
}

/// Thirty bars on the thirty days from Monday, 1 January 2024, with the
/// closes 100, 101, ..., 129 in ticks of a ten-thousandth.
fn january() -> HistoricalData {
    let mut bars = Vec::new();
    for day in 0..30u32 {
        let close = (100 + day) * 10_000;
        bars.push(bar(&format!("{:02}-01-2024", day + 1), close, close + 5_000, close - 5_000, close, 1000, 100_000));
    }
    series(bars)
}

#[test]
fn an_empty_series_resamples_to_nothing() {
    for (frame, tag) in [(TimeFrame::Daily, "daily"), (TimeFrame::Weekly, "weekly"), (TimeFrame::Monthly, "monthly")] {
        let out = series(Vec::new()).to_time_frame(frame);
        assert_eq!(out.symbol, "RELIANCE");
        assert_eq!(out.time_frame, tag);
        assert_eq!(out.from_date, "");
        assert_eq!(out.to_date, "");
        assert!(out.data.is_empty());
        assert!(out.indicators.is_none());
    }
}

#[test]
fn daily_resampling_copies_every_bar() {
    let source = series(vec![
        bar("01-01-2024", 10, 15, 5, 12, 100, 1200),
        bar("02-01-2024", 12, 18, 11, 17, 200, 3400),
        bar("05-01-2024", 17, 17, 9, 9, 300, 2700),
    ]);
    let out = source.to_time_frame(TimeFrame::Daily);
    assert_eq!(out.time_frame, "daily");
    assert_eq!(out.from_date, "01-01-2024");
    assert_eq!(out.to_date, "05-01-2024");
    assert_eq!(out.data, vec![
        bucket("01-01-2024", 10, 15, 5, 12, 100, 1200),
        bucket("02-01-2024", 12, 18, 11, 17, 200, 3400),
        bucket("05-01-2024", 17, 17, 9, 9, 300, 2700),
    ]);
    assert_eq!(out, source.to_daily());
}

#[test]
fn daily_resampling_puts_the_bars_in_order_of_date() {
    let source = series(vec![
        flat("05-01-2024", 3),
        flat("no date", 9),
        flat("01-01-2024", 1),
        flat("31-12-2023", 0),
        flat("1-1-2024", 2),
        flat("", 8),
    ]);
    let out = source.to_time_frame(TimeFrame::Daily);
    assert_eq!(labels(&out), ["no date", "", "31-12-2023", "01-01-2024", "1-1-2024", "05-01-2024"]);
    assert_eq!(out.data.iter().map(|b| b.close).collect::<Vec<_>>(), [9, 8, 0, 1, 2, 3]);
    assert_eq!(out.from_date, "no date");
    assert_eq!(out.to_date, "05-01-2024");
}

#[test]
fn daily_resampling_twice_gives_the_same() {
    let source = january();
    let first = source.to_time_frame(TimeFrame::Daily);
    let second = source.to_time_frame(TimeFrame::Daily);
    assert_eq!(first, second);
    assert_eq!(first.data.len(), 30);
    for (bucket, bar) in first.data.iter().zip(source.data.iter()) {
        assert_eq!(bucket.date, bar.timestamp);
        assert_eq!((bucket.open, bucket.high, bucket.low, bucket.close), (bar.open, bar.high, bar.low, bar.close));
        assert_eq!((bucket.volume, bucket.value), (bar.volume as u128, bar.value as u128));
    }
}

#[test]
fn prepare_sorted_data_is_a_stable_sort_by_date() {
    let source = series(vec![
        flat("03-01-2024", 1),
        flat("x", 2),
        flat("01-01-2024", 3),
        flat("3-1-2024", 4),
        flat("y", 5),
        flat("02-01-2024", 6),
        flat("03-01-2024", 7),
        flat("31-12-2023", 8),
    ]);
    let sorted = source.prepare_sorted_data();
    assert_eq!(sorted.iter().map(|b| b.close).collect::<Vec<_>>(), [2, 5, 8, 3, 6, 1, 4, 7]);
    assert_eq!(sorted.len(), source.data.len());
    let mut expected = source.data.clone();
    expected.sort_by_key(|b| nse_scraper::date::parse_date_string(&b.timestamp).ok().map(|d| (d.year, d.month, d.day)));
    assert_eq!(sorted, expected);
}

#[test]
fn prepare_sorted_data_leaves_a_sorted_series_alone() {
    let source = january();
    assert_eq!(source.prepare_sorted_data(), source.data);
}

#[test]
fn prepare_sorted_data_sorts_as_std_sorts() {
    let mut state: u64 = 0x2545_f491_4f6c_dd1d;
    let mut bars = Vec::new();
    for i in 0..400u32 {
        state = state.wrapping_mul(6364136223846793005).wrapping_add(1442695040888963407);
        let day = ((state >> 33) % 31) as u32;
        let month = ((state >> 40) % 14) as u32;
        let year = 2020 + ((state >> 50) % 3) as u32;
        bars.push(flat(&format!("{}-{}-{}", day, month, year), i));
    }
    let source = series(bars);
    let mut expected = source.data.clone();
    expected.sort_by_key(|b| nse_scraper::date::parse_date_string(&b.timestamp).ok().map(|d| (d.year, d.month, d.day)));
    assert_eq!(source.prepare_sorted_data(), expected);
}

#[test]
fn weekly_buckets_of_thirty_consecutive_days() {
    let out = january().to_time_frame(TimeFrame::Weekly);
    assert_eq!(out.time_frame, "weekly");
    assert_eq!(out.from_date, "01-01-2024");
    assert_eq!(out.to_date, "30-01-2024");
    assert_eq!(labels(&out), ["01-01-2024", "08-01-2024", "15-01-2024", "22-01-2024", "29-01-2024"]);
    assert_eq!(out.data.iter().map(|b| b.volume).collect::<Vec<_>>(), [7000, 7000, 7000, 7000, 2000]);
    assert_eq!(out.data.iter().map(|b| b.value).collect::<Vec<_>>(), [700_000, 700_000, 700_000, 700_000, 200_000]);
    assert_eq!(out.data[0], bucket("01-01-2024", 1_000_000, 1_065_000, 995_000, 1_060_000, 7000, 700_000));
    assert_eq!(out.data[4], bucket("29-01-2024", 1_280_000, 1_295_000, 1_275_000, 1_290_000, 2000, 200_000));
    assert_eq!(out, january().to_weekly());
}

#[test]
fn the_eighth_day_starts_a_new_week_and_the_seventh_does_not() {
    let seven = series((1..=7).map(|d| flat(&format!("{:02}-01-2024", d), d)).collect());
    let out = seven.to_time_frame(TimeFrame::Weekly);
    assert_eq!(labels(&out), ["01-01-2024"]);
    assert_eq!(out.data[0].close, 7);
    let eight = series((1..=8).map(|d| flat(&format!("{:02}-01-2024", d), d)).collect());
    let out = eight.to_time_frame(TimeFrame::Weekly);
    assert_eq!(labels(&out), ["01-01-2024", "08-01-2024"]);
    assert_eq!(out.data[0].close, 7);
    assert_eq!(out.data[1].open, 8);
    assert_eq!(out.data[1].volume, 1000);
}

#[test]
fn weeks_are_counted_from_the_first_bar_of_the_bucket() {
    // Wednesday to the next Tuesday is one bucket, though a calendar week ends in between.
    let source = series(vec![
        flat("03-01-2024", 1),
        flat("05-01-2024", 2),
        flat("09-01-2024", 3),
        flat("10-01-2024", 4),
        flat("16-01-2024", 5),
        flat("29-02-2024", 6),
        flat("06-03-2024", 7),
        flat("07-03-2024", 8),
    ]);
    let out = source.to_time_frame(TimeFrame::Weekly);
    assert_eq!(labels(&out), ["03-01-2024", "10-01-2024", "29-02-2024", "07-03-2024"]);
    assert_eq!(out.data.iter().map(|b| b.volume).collect::<Vec<_>>(), [3000, 2000, 2000, 1000]);
    assert_eq!(out.data.iter().map(|b| (b.open, b.close)).collect::<Vec<_>>(), [(1, 3), (4, 5), (6, 7), (8, 8)]);
}

#[test]
fn a_week_spans_the_turn_of_a_year() {
    let source = series(vec![flat("29-12-2023", 1), flat("01-01-2024", 2), flat("04-01-2024", 3), flat("05-01-2024", 4)]);
    let out = source.to_time_frame(TimeFrame::Weekly);
    assert_eq!(labels(&out), ["29-12-2023", "05-01-2024"]);
}

#[test]
fn a_bucket_aggregates_its_bars() {
    let source = series(vec![
        bar("01-01-2024", 50, 60, 40, 55, 10, 500),
        bar("02-01-2024", 55, 90, 50, 70, 20, 1500),
        bar("03-01-2024", 70, 75, 20, 30, 30, 1000),
        bar("04-01-2024", 30, 45, 25, 42, 40, 1700),
    ]);
    for frame in [TimeFrame::Weekly, TimeFrame::Monthly] {
        let out = source.to_time_frame(frame);
        assert_eq!(out.data.len(), 1);
        let b = &out.data[0];
        assert_eq!((b.open, b.high, b.low, b.close, b.volume, b.value), (50, 90, 20, 42, 100, 4700));
    }
}

#[test]
fn bucket_sums_do_not_overflow() {
    let source = series(vec![
        bar("01-01-2024", 1, 1, 1, 1, u64::MAX, u64::MAX),
        bar("02-01-2024", 1, u32::MAX, 0, 1, u64::MAX, u64::MAX),
        bar("03-01-2024", 1, 1, 1, 1, u64::MAX, 7),
    ]);
    let out = source.to_time_frame(TimeFrame::Weekly);
    assert_eq!(out.data.len(), 1);
    assert_eq!(out.data[0].volume, 3 * (u64::MAX as u128));
    assert_eq!(out.data[0].value, 2 * (u64::MAX as u128) + 7);
    assert_eq!(out.data[0].high, u32::MAX);
    assert_eq!(out.data[0].low, 0);
}

#[test]
fn monthly_buckets_are_labelled_by_month_and_year() {
    let source = series(vec![
        bar("30-01-2024", 10, 12, 9, 11, 1, 10),
        bar("31-01-2024", 11, 13, 8, 12, 2, 20),
        bar("01-02-2024", 12, 20, 12, 19, 3, 30),
        bar("29-02-2024", 19, 19, 5, 6, 4, 40),
        bar("15-11-2024", 6, 7, 6, 7, 5, 50),
        bar("02-01-2025", 7, 8, 7, 8, 6, 60),
    ]);
    let out = source.to_time_frame(TimeFrame::Monthly);
    assert_eq!(out.time_frame, "monthly");
    assert_eq!(out.from_date, "30-01-2024");
    assert_eq!(out.to_date, "02-01-2025");
    assert_eq!(out.data, vec![
        bucket("1-2024", 10, 13, 8, 12, 3, 30),
        bucket("2-2024", 12, 20, 5, 6, 7, 70),
        bucket("11-2024", 6, 7, 6, 7, 5, 50),
        bucket("1-2025", 7, 8, 7, 8, 6, 60),
    ]);
    assert_eq!(out, source.to_monthly());
}

#[test]
fn the_same_month_of_another_year_is_another_bucket() {
    let source = series(vec![flat("15-03-2023", 1), flat("15-03-2024", 2), flat("16-03-2024", 3)]);
    let out = source.to_time_frame(TimeFrame::Monthly);
    assert_eq!(labels(&out), ["3-2023", "3-2024"]);
    assert_eq!(out.data[1].volume, 2000);
}

#[test]
fn monthly_labels_of_short_years() {
    let source = series(vec![flat("01-12-0", 1), flat("01-01-7", 2), flat("01-10-99", 3)]);
    let out = source.to_time_frame(TimeFrame::Monthly);
    assert_eq!(labels(&out), ["12-0", "1-7", "10-99"]);
}

#[test]
fn bars_without_a_date_are_left_out_of_weeks_and_months() {
    let source = series(vec![
        flat("02-01-2024", 2),
        flat("garbage", 100),
        flat("31-02-2024", 200),
        flat("01-01-2024", 1),
        flat("2024-01-03", 300),
        flat("03-01-2024", 3),
    ]);
    for (frame, label) in [(TimeFrame::Weekly, "01-01-2024"), (TimeFrame::Monthly, "1-2024")] {
        let out = source.to_time_frame(frame);
        assert_eq!(out.data, vec![bucket(label, 1, 3, 1, 3, 3000, 300_000)]);
        assert_eq!(out.from_date, "garbage");
        assert_eq!(out.to_date, "03-01-2024");
    }
    let daily = source.to_time_frame(TimeFrame::Daily);
    assert_eq!(daily.data.len(), 6);
}

#[test]
fn a_series_without_any_date_has_no_weeks_and_no_months() {
    let source = series(vec![flat("a", 1), flat("b", 2)]);
    for frame in [TimeFrame::Weekly, TimeFrame::Monthly] {
        let out = source.to_time_frame(frame);
        assert!(out.data.is_empty());
        assert_eq!(out.from_date, "a");
        assert_eq!(out.to_date, "b");
    }
}

#[test]
fn resampling_leaves_the_series_as_it_is() {
    let source = series(vec![flat("05-01-2024", 3), flat("01-01-2024", 1)]);
    let before = source.clone();
    let _ = source.to_time_frame(TimeFrame::Weekly);
    let _ = source.to_time_frame(TimeFrame::Daily);
    assert_eq!(source, before);
}

#[test]
fn copy_gives_an_equal_bar() {
    let mut first = bar("01-01-2024", 1, 2, 3, 4, 5, 6);
    first.rsi = Some(7);
    first.bollinger_lower = Some(-8);
    assert_eq!(first.copy(), first);
}
