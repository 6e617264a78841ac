//! The data model: daily bars, buckets and the series that hold them.
//!
//! Prices are whole numbers of ticks. Volumes count shares and values count
//! the smallest unit of money; a bucket's sums are wide enough to hold the
//! sum of any series. Indicator values are signed: in ticks where they are
//! prices or differences of prices, in `RSI_SCALE` parts of a point for the
//! relative strength index.

use crate::text::{chars_of, trim_bounds, trimmed};
use vstd::prelude::*;

verus! {

/// One trading day of one instrument, with the indicator values that have
/// been computed for it so far.
#[derive(Debug, Clone, PartialEq, Eq)]
pub struct DailyData {
    /// The day, as a day-month-year label.
    pub timestamp: String,
    pub open: u32,
    pub high: u32,
    pub low: u32,
    pub close: u32,
    pub last: u32,
    pub prev_close: u32,
    pub volume: u64,
    pub value: u64,
    pub year_high: u32,
    pub year_low: u32,
    pub rsi: Option<i64>,
    pub sma_20: Option<i64>,
    pub sma_50: Option<i64>,
    pub sma_200: Option<i64>,
    pub ema_12: Option<i64>,
    pub ema_26: Option<i64>,
    pub macd: Option<i64>,
    pub macd_signal: Option<i64>,
    pub macd_histogram: Option<i64>,
    pub bollinger_upper: Option<i64>,
    pub bollinger_middle: Option<i64>,
    pub bollinger_lower: Option<i64>,
}

impl DailyData {
    /// No indicator value has been computed for the bar.
    pub open spec fn has_no_indicator(self) -> bool {
        &&& self.rsi is None
        &&& self.sma_20 is None
        &&& self.sma_50 is None
        &&& self.sma_200 is None
        &&& self.ema_12 is None
        &&& self.ema_26 is None
        &&& self.macd is None
        &&& self.macd_signal is None
        &&& self.macd_histogram is None
        &&& self.bollinger_upper is None
        &&& self.bollinger_middle is None
        &&& self.bollinger_lower is None
    }

    /// A copy of the bar.
    pub fn copy(&self) -> (bar: DailyData)
        ensures
            bar == *self,
    {
        DailyData {
            timestamp: self.timestamp.clone(),
            open: self.open,
            high: self.high,
            low: self.low,
            close: self.close,
            last: self.last,
            prev_close: self.prev_close,
            volume: self.volume,
            value: self.value,
            year_high: self.year_high,
            year_low: self.year_low,
            rsi: self.rsi,
            sma_20: self.sma_20,
            sma_50: self.sma_50,
            sma_200: self.sma_200,
            ema_12: self.ema_12,
            ema_26: self.ema_26,
            macd: self.macd,
            macd_signal: self.macd_signal,
            macd_histogram: self.macd_histogram,
            bollinger_upper: self.bollinger_upper,
            bollinger_middle: self.bollinger_middle,
            bollinger_lower: self.bollinger_lower,
        }
    }
}

/// A daily series of one instrument, in the order in which it was received.
#[derive(Debug, Clone, PartialEq, Eq)]
pub struct HistoricalData {
    pub symbol: String,
    pub data: Vec<DailyData>,
}

/// The granularity of a resampled series.
#[derive(Debug, Clone, Copy, PartialEq, Eq, Structural)]
pub enum TimeFrame {
    Daily,
    Weekly,
    Monthly,
}

/// The time frame that a menu choice names: `1`, `2` or `3`.
pub open spec fn time_frame_of_choice(choice: Seq<char>) -> Option<TimeFrame> {
    if choice.len() != 1 {
        None
    } else if choice[0] == '1' {
        Some(TimeFrame::Daily)
    } else if choice[0] == '2' {
        Some(TimeFrame::Weekly)
    } else if choice[0] == '3' {
        Some(TimeFrame::Monthly)
    } else {
        None
    }
}

impl TimeFrame {
    /// The tag under which a series of this granularity is labelled.
    pub open spec fn tag(self) -> Seq<char> {
        match self {
            TimeFrame::Daily => "daily"@,
            TimeFrame::Weekly => "weekly"@,
            TimeFrame::Monthly => "monthly"@,
        }
    }

    /// Reads a menu choice, which white space may surround.
    pub fn from_str(s: &str) -> (frame: Option<TimeFrame>)
        ensures
            frame == time_frame_of_choice(trimmed(s@)),
    {
        let chars = chars_of(s);
        let (lo, hi) = trim_bounds(&chars);
        if hi - lo != 1 {
            return None;
        }
        let c = chars[lo];
        assert(chars@.subrange(lo as int, hi as int)[0] == c);
        if c == '1' {
            Some(TimeFrame::Daily)
        } else if c == '2' {
            Some(TimeFrame::Weekly)
        } else if c == '3' {
            Some(TimeFrame::Monthly)
        } else {
            None
        }
    }

    /// The tag under which a series of this granularity is labelled.
    pub fn as_str(&self) -> (tag: &'static str)
        ensures
            tag@ == self.tag(),
    {
        match self {
            TimeFrame::Daily => "daily",
            TimeFrame::Weekly => "weekly",
            TimeFrame::Monthly => "monthly",
        }
    }
}

/// One bucket of a resampled series: a day, a week or a month.
#[derive(Debug, Clone, PartialEq, Eq)]
pub struct TimeFrameData {
    pub date: String,
    pub open: u32,
    pub high: u32,
    pub low: u32,
    pub close: u32,
    pub volume: u128,
    pub value: u128,
}

/// What a bucket holds.
pub struct Bucket {
    pub date: Seq<char>,
    pub open: int,
    pub high: int,
    pub low: int,
    pub close: int,
    pub volume: int,
    pub value: int,
}

impl View for TimeFrameData {
    type V = Bucket;

    open spec fn view(&self) -> Bucket {
        Bucket {
            date: self.date@,
            open: self.open as int,
            high: self.high as int,
            low: self.low as int,
            close: self.close as int,
            volume: self.volume as int,
            value: self.value as int,
        }
    }
}

/// What each of the buckets holds.
pub open spec fn bucket_views(buckets: Seq<TimeFrameData>) -> Seq<Bucket> {
    Seq::new(buckets.len(), |i: int| buckets[i]@)
}

/// The indicator values of one day.
#[derive(Debug, Clone, PartialEq, Eq)]
pub struct TechnicalIndicators {
    pub date: String,
    pub rsi_14: Option<i64>,
    pub sma_20: Option<i64>,
    pub sma_50: Option<i64>,
    pub sma_200: Option<i64>,
    pub ema_12: Option<i64>,
    pub ema_26: Option<i64>,
    pub macd: Option<i64>,
    pub macd_signal: Option<i64>,
    pub macd_histogram: Option<i64>,
    pub bollinger_upper: Option<i64>,
    pub bollinger_middle: Option<i64>,
    pub bollinger_lower: Option<i64>,
}

/// A resampled series with the range of days that it covers.
#[derive(Debug, Clone, PartialEq, Eq)]
pub struct ConsolidatedData {
    pub symbol: String,
    pub time_frame: String,
    pub from_date: String,
    pub to_date: String,
    pub data: Vec<TimeFrameData>,
    pub indicators: Option<Vec<TechnicalIndicators>>,
}

} // verus!
