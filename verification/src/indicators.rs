//! The indicators of a series, written onto its bars.
//!
//! Every indicator is computed from the closing prices alone, as a series of
//! its own that is as long as the bars' series. A value is written onto the
//! bar at its position; where an indicator has no value yet, the bar keeps
//! what it had.

use crate::arith::{indicator_values, price_values};
use crate::bollinger::{bollinger_lower, bollinger_middle, bollinger_series, bollinger_upper};
use crate::ema::{ema, ema_series};
use crate::macd::{macd_histogram, macd_line, macd_series, macd_signal};
use crate::models::{DailyData, HistoricalData, TechnicalIndicators};
use crate::resample::sorted_bars;
use crate::rsi::{rsi, rsi_series};
use crate::sma::{sma, sma_series};
use vstd::prelude::*;

verus! {

/// The period of the relative strength index.
pub const RSI_PERIOD: usize = 14;

/// The period of the Bollinger bands.
pub const BOLLINGER_PERIOD: usize = 20;

/// The distance between the middle band and each outer band, in hundredths
/// of a standard deviation: two standard deviations.
pub const BOLLINGER_WIDTH: u16 = 200;

/// The indicator fields of a bar.
#[derive(Debug, Clone, Copy, PartialEq, Eq, Structural)]
pub enum IndicatorField {
    Rsi,
    Sma20,
    Sma50,
    Sma200,
    Ema12,
    Ema26,
    Macd,
    MacdSignal,
    MacdHistogram,
    BollingerUpper,
    BollingerMiddle,
    BollingerLower,
}

/// The closing prices of the bars.
pub open spec fn close_values(bars: Seq<DailyData>) -> Seq<int> {
    Seq::new(bars.len(), |i: int| bars[i].close as int)
}

/// The bar with one of its indicator fields set to `value`.
pub open spec fn with_field(bar: DailyData, field: IndicatorField, value: Option<i64>) -> DailyData {
    match field {
        IndicatorField::Rsi => DailyData { rsi: value, ..bar },
        IndicatorField::Sma20 => DailyData { sma_20: value, ..bar },
        IndicatorField::Sma50 => DailyData { sma_50: value, ..bar },
        IndicatorField::Sma200 => DailyData { sma_200: value, ..bar },
        IndicatorField::Ema12 => DailyData { ema_12: value, ..bar },
        IndicatorField::Ema26 => DailyData { ema_26: value, ..bar },
        IndicatorField::Macd => DailyData { macd: value, ..bar },
        IndicatorField::MacdSignal => DailyData { macd_signal: value, ..bar },
        IndicatorField::MacdHistogram => DailyData { macd_histogram: value, ..bar },
        IndicatorField::BollingerUpper => DailyData { bollinger_upper: value, ..bar },
        IndicatorField::BollingerMiddle => DailyData { bollinger_middle: value, ..bar },
        IndicatorField::BollingerLower => DailyData { bollinger_lower: value, ..bar },
    }
}

/// Whether a field that held `before` holds `after` once `value` has been
/// written: the value where there is one, and what it held where there is
/// none.
pub open spec fn is_written(after: Option<i64>, before: Option<i64>, value: Option<int>) -> bool {
    match value {
        Some(v) => after matches Some(a) && a == v,
        None => after == before,
    }
}

/// Whether the two bars are the same but for their indicator fields.
pub open spec fn same_day(after: DailyData, before: DailyData) -> bool {
    before == DailyData {
        rsi: before.rsi,
        sma_20: before.sma_20,
        sma_50: before.sma_50,
        sma_200: before.sma_200,
        ema_12: before.ema_12,
        ema_26: before.ema_26,
        macd: before.macd,
        macd_signal: before.macd_signal,
        macd_histogram: before.macd_histogram,
        bollinger_upper: before.bollinger_upper,
        bollinger_middle: before.bollinger_middle,
        bollinger_lower: before.bollinger_lower,
        ..after
    }
}

/// Whether `after` is the bar `before` with the simple moving average of the
/// period written onto it: periods 20, 50 and 200 have a field, and a moving
/// average of another period is not written.
pub open spec fn has_sma_written(
    after: DailyData,
    before: DailyData,
    period: int,
    value: Option<int>,
) -> bool {
    if period == 20 {
        after == with_field(before, IndicatorField::Sma20, after.sma_20) && is_written(
            after.sma_20,
            before.sma_20,
            value,
        )
    } else if period == 50 {
        after == with_field(before, IndicatorField::Sma50, after.sma_50) && is_written(
            after.sma_50,
            before.sma_50,
            value,
        )
    } else if period == 200 {
        after == with_field(before, IndicatorField::Sma200, after.sma_200) && is_written(
            after.sma_200,
            before.sma_200,
            value,
        )
    } else {
        after == before
    }
}

/// Whether `after` is the bar `before` with the exponential moving average of
/// the period written onto it: periods 12 and 26 have a field, and a moving
/// average of another period is not written.
pub open spec fn has_ema_written(
    after: DailyData,
    before: DailyData,
    period: int,
    value: Option<int>,
) -> bool {
    if period == 12 {
        after == with_field(before, IndicatorField::Ema12, after.ema_12) && is_written(
            after.ema_12,
            before.ema_12,
            value,
        )
    } else if period == 26 {
        after == with_field(before, IndicatorField::Ema26, after.ema_26) && is_written(
            after.ema_26,
            before.ema_26,
            value,
        )
    } else {
        after == before
    }
}

/// Whether `after` is the bar `before` with the three values of the moving
/// average convergence and divergence written onto it.
pub open spec fn has_macd_written(
    after: DailyData,
    before: DailyData,
    line: Option<int>,
    signal: Option<int>,
    histogram: Option<int>,
) -> bool {
    &&& after == DailyData {
        macd: after.macd,
        macd_signal: after.macd_signal,
        macd_histogram: after.macd_histogram,
        ..before
    }
    &&& is_written(after.macd, before.macd, line)
    &&& is_written(after.macd_signal, before.macd_signal, signal)
    &&& is_written(after.macd_histogram, before.macd_histogram, histogram)
}

/// Whether `after` is the bar `before` with the relative strength index
/// written onto it.
pub open spec fn has_rsi_written(after: DailyData, before: DailyData, value: Option<int>) -> bool {
    after == with_field(before, IndicatorField::Rsi, after.rsi) && is_written(
        after.rsi,
        before.rsi,
        value,
    )
}

/// Whether `after` is the bar `before` with the three Bollinger bands written
/// onto it.
pub open spec fn has_bands_written(
    after: DailyData,
    before: DailyData,
    upper: Option<int>,
    middle: Option<int>,
    lower: Option<int>,
) -> bool {
    &&& after == DailyData {
        bollinger_upper: after.bollinger_upper,
        bollinger_middle: after.bollinger_middle,
        bollinger_lower: after.bollinger_lower,
        ..before
    }
    &&& is_written(after.bollinger_upper, before.bollinger_upper, upper)
    &&& is_written(after.bollinger_middle, before.bollinger_middle, middle)
    &&& is_written(after.bollinger_lower, before.bollinger_lower, lower)
}

/// Whether `after` is the bar at position `i` of a series with the closing
/// prices `closes`, once every indicator has been written onto the bar
/// `before`.
pub open spec fn is_enriched(after: DailyData, before: DailyData, closes: Seq<int>, i: int) -> bool {
    &&& same_day(after, before)
    &&& is_written(after.sma_20, before.sma_20, sma(closes, 20)[i])
    &&& is_written(after.sma_50, before.sma_50, sma(closes, 50)[i])
    &&& is_written(after.sma_200, before.sma_200, sma(closes, 200)[i])
    &&& is_written(after.ema_12, before.ema_12, ema(closes, 12)[i])
    &&& is_written(after.ema_26, before.ema_26, ema(closes, 26)[i])
    &&& is_written(after.macd, before.macd, macd_line(closes)[i])
    &&& is_written(after.macd_signal, before.macd_signal, macd_signal(closes)[i])
    &&& is_written(after.macd_histogram, before.macd_histogram, macd_histogram(closes)[i])
    &&& is_written(after.rsi, before.rsi, rsi(closes, RSI_PERIOD as int)[i])
    &&& is_written(
        after.bollinger_upper,
        before.bollinger_upper,
        bollinger_upper(closes, BOLLINGER_PERIOD as int, BOLLINGER_WIDTH as int)[i],
    )
    &&& is_written(
        after.bollinger_middle,
        before.bollinger_middle,
        bollinger_middle(closes, BOLLINGER_PERIOD as int)[i],
    )
    &&& is_written(
        after.bollinger_lower,
        before.bollinger_lower,
        bollinger_lower(closes, BOLLINGER_PERIOD as int, BOLLINGER_WIDTH as int)[i],
    )
}

/// Writes the values of a series onto the bars, each into the given field of
/// the bar at its position.
fn write_series(bars: &mut Vec<DailyData>, series: &Vec<Option<i64>>, field: IndicatorField)
    requires
        series.len() == old(bars).len(),
    ensures
        final(bars).len() == old(bars).len(),
        forall|i: int|
            0 <= i < old(bars).len() ==> (#[trigger] final(bars)[i]) == (match series[i] {
                Some(v) => with_field(old(bars)[i], field, Some(v)),
                None => old(bars)[i],
            }),
{
    let mut i: usize = 0;
    while i < bars.len()
        invariant
            i <= bars.len(),
            bars.len() == old(bars).len(),
            series.len() == bars.len(),
            forall|k: int|
                0 <= k < i ==> (#[trigger] bars[k]) == (match series[k] {
                    Some(v) => with_field(old(bars)[k], field, Some(v)),
                    None => old(bars)[k],
                }),
            forall|k: int| i <= k < bars.len() ==> (#[trigger] bars[k]) == old(bars)[k],
        decreases bars.len() - i,
    {
        match series[i] {
            Some(v) => {
                match field {
                    IndicatorField::Rsi => {
                        bars[i].rsi = Some(v);
                    },
                    IndicatorField::Sma20 => {
                        bars[i].sma_20 = Some(v);
                    },
                    IndicatorField::Sma50 => {
                        bars[i].sma_50 = Some(v);
                    },
                    IndicatorField::Sma200 => {
                        bars[i].sma_200 = Some(v);
                    },
                    IndicatorField::Ema12 => {
                        bars[i].ema_12 = Some(v);
                    },
                    IndicatorField::Ema26 => {
                        bars[i].ema_26 = Some(v);
                    },
                    IndicatorField::Macd => {
                        bars[i].macd = Some(v);
                    },
                    IndicatorField::MacdSignal => {
                        bars[i].macd_signal = Some(v);
                    },
                    IndicatorField::MacdHistogram => {
                        bars[i].macd_histogram = Some(v);
                    },
                    IndicatorField::BollingerUpper => {
                        bars[i].bollinger_upper = Some(v);
                    },
                    IndicatorField::BollingerMiddle => {
                        bars[i].bollinger_middle = Some(v);
                    },
                    IndicatorField::BollingerLower => {
                        bars[i].bollinger_lower = Some(v);
                    },
                }
            },
            None => {},
        }
        i += 1;
    }
}

/// The closing prices of the bars.
pub fn closes_of(bars: &Vec<DailyData>) -> (closes: Vec<u32>)
    ensures
        closes.len() == bars.len(),
        price_values(closes@) == close_values(bars@),
{
    let mut closes: Vec<u32> = Vec::new();
    let mut i: usize = 0;
    while i < bars.len()
        invariant
            i <= bars.len(),
            closes.len() == i,
            forall|k: int| 0 <= k < i ==> closes@[k] == bars@[k].close,
        decreases bars.len() - i,
    {
        closes.push(bars[i].close);
        i += 1;
    }
    assert(price_values(closes@) =~= close_values(bars@));
    closes
}

/// Whether `row` holds the day and the indicator values of the bar.
pub open spec fn is_row_of(row: TechnicalIndicators, bar: DailyData) -> bool {
    &&& row.date@ == bar.timestamp@
    &&& row.rsi_14 == bar.rsi
    &&& row.sma_20 == bar.sma_20
    &&& row.sma_50 == bar.sma_50
    &&& row.sma_200 == bar.sma_200
    &&& row.ema_12 == bar.ema_12
    &&& row.ema_26 == bar.ema_26
    &&& row.macd == bar.macd
    &&& row.macd_signal == bar.macd_signal
    &&& row.macd_histogram == bar.macd_histogram
    &&& row.bollinger_upper == bar.bollinger_upper
    &&& row.bollinger_middle == bar.bollinger_middle
    &&& row.bollinger_lower == bar.bollinger_lower
}

impl HistoricalData {
    /// The indicator values of the bars, one row for each bar, in the order
    /// of the bars.
    pub fn technical_indicators(&self) -> (rows: Vec<TechnicalIndicators>)
        ensures
            rows.len() == self.data.len(),
            forall|i: int| 0 <= i < rows.len() ==> is_row_of(#[trigger] rows[i], self.data[i]),
    {
        let mut rows: Vec<TechnicalIndicators> = Vec::new();
        let mut i: usize = 0;
        while i < self.data.len()
            invariant
                i <= self.data.len(),
                rows.len() == i,
                forall|k: int| 0 <= k < i ==> is_row_of(#[trigger] rows[k], self.data[k]),
            decreases self.data.len() - i,
        {
            let bar = &self.data[i];
            rows.push(
                TechnicalIndicators {
                    date: bar.timestamp.clone(),
                    rsi_14: bar.rsi,
                    sma_20: bar.sma_20,
                    sma_50: bar.sma_50,
                    sma_200: bar.sma_200,
                    ema_12: bar.ema_12,
                    ema_26: bar.ema_26,
                    macd: bar.macd,
                    macd_signal: bar.macd_signal,
                    macd_histogram: bar.macd_histogram,
                    bollinger_upper: bar.bollinger_upper,
                    bollinger_middle: bar.bollinger_middle,
                    bollinger_lower: bar.bollinger_lower,
                },
            );
            i += 1;
        }
        rows
    }

    /// Puts the bars in ascending order of date and writes every indicator
    /// onto them: the simple moving averages over 20, 50 and 200 bars, the
    /// exponential ones over 12 and 26 bars, the moving average convergence
    /// and divergence, the relative strength index over 14 bars and the
    /// Bollinger bands over 20 bars, two standard deviations wide.
    pub fn calculate_indicators(&mut self)
        ensures
            final(self).symbol == old(self).symbol,
            final(self).data.len() == old(self).data.len(),
            forall|i: int|
                0 <= i < old(self).data.len() ==> is_enriched(
                    #[trigger] final(self).data[i],
                    sorted_bars(old(self).data@)[i],
                    close_values(sorted_bars(old(self).data@)),
                    i,
                ),
    {
        self.data = self.prepare_sorted_data();
        let ghost sorted = self.data@;
        let ghost closes = close_values(sorted);
        self.calculate_sma(20);
        let ghost s1 = self.data@;
        assert(close_values(s1) =~= closes);
        self.calculate_sma(50);
        let ghost s2 = self.data@;
        assert(close_values(s2) =~= closes);
        self.calculate_sma(200);
        let ghost s3 = self.data@;
        assert(close_values(s3) =~= closes);
        self.calculate_ema(12);
        let ghost s4 = self.data@;
        assert(close_values(s4) =~= closes);
        self.calculate_ema(26);
        let ghost s5 = self.data@;
        assert(close_values(s5) =~= closes);
        self.calculate_macd();
        let ghost s6 = self.data@;
        assert(close_values(s6) =~= closes);
        self.calculate_rsi(RSI_PERIOD);
        let ghost s7 = self.data@;
        assert(close_values(s7) =~= closes);
        self.calculate_bollinger_bands(BOLLINGER_PERIOD, BOLLINGER_WIDTH);
        assert forall|i: int| 0 <= i < old(self).data.len() implies is_enriched(
            #[trigger] self.data[i],
            sorted[i],
            closes,
            i,
        ) by {
            assert(has_sma_written(s1[i], sorted[i], 20, sma(closes, 20)[i]));
            assert(has_sma_written(s2[i], s1[i], 50, sma(closes, 50)[i]));
            assert(has_sma_written(s3[i], s2[i], 200, sma(closes, 200)[i]));
            assert(has_ema_written(s4[i], s3[i], 12, ema(closes, 12)[i]));
            assert(has_ema_written(s5[i], s4[i], 26, ema(closes, 26)[i]));
            assert(has_macd_written(
                s6[i],
                s5[i],
                macd_line(closes)[i],
                macd_signal(closes)[i],
                macd_histogram(closes)[i],
            ));
            assert(has_rsi_written(s7[i], s6[i], rsi(closes, RSI_PERIOD as int)[i]));
        }
    }

    /// Writes the simple moving average over `period` bars onto the bars.
    pub fn calculate_sma(&mut self, period: usize)
        ensures
            final(self).symbol == old(self).symbol,
            final(self).data.len() == old(self).data.len(),
            forall|i: int|
                0 <= i < old(self).data.len() ==> has_sma_written(
                    #[trigger] final(self).data[i],
                    old(self).data[i],
                    period as int,
                    sma(close_values(old(self).data@), period as int)[i],
                ),
    {
        let closes = closes_of(&self.data);
        let series = sma_series(&closes, period);
        if period == 20 {
            write_series(&mut self.data, &series, IndicatorField::Sma20);
        } else if period == 50 {
            write_series(&mut self.data, &series, IndicatorField::Sma50);
        } else if period == 200 {
            write_series(&mut self.data, &series, IndicatorField::Sma200);
        }
        assert forall|i: int| 0 <= i < old(self).data.len() implies has_sma_written(
            #[trigger] self.data[i],
            old(self).data[i],
            period as int,
            sma(close_values(old(self).data@), period as int)[i],
        ) by {
            assert(indicator_values(series@)[i] == sma(
                close_values(old(self).data@),
                period as int,
            )[i]);
        }
    }

    /// Writes the exponential moving average over `period` bars onto the
    /// bars.
    pub fn calculate_ema(&mut self, period: usize)
        ensures
            final(self).symbol == old(self).symbol,
            final(self).data.len() == old(self).data.len(),
            forall|i: int|
                0 <= i < old(self).data.len() ==> has_ema_written(
                    #[trigger] final(self).data[i],
                    old(self).data[i],
                    period as int,
                    ema(close_values(old(self).data@), period as int)[i],
                ),
    {
        let closes = closes_of(&self.data);
        let series = ema_series(&closes, period);
        if period == 12 {
            write_series(&mut self.data, &series, IndicatorField::Ema12);
        } else if period == 26 {
            write_series(&mut self.data, &series, IndicatorField::Ema26);
        }
        assert forall|i: int| 0 <= i < old(self).data.len() implies has_ema_written(
            #[trigger] self.data[i],
            old(self).data[i],
            period as int,
            ema(close_values(old(self).data@), period as int)[i],
        ) by {
            assert(indicator_values(series@)[i] == ema(
                close_values(old(self).data@),
                period as int,
            )[i]);
        }
    }

    /// Writes the line, the signal and the histogram of the moving average
    /// convergence and divergence onto the bars.
    pub fn calculate_macd(&mut self)
        ensures
            final(self).symbol == old(self).symbol,
            final(self).data.len() == old(self).data.len(),
            forall|i: int|
                0 <= i < old(self).data.len() ==> has_macd_written(
                    #[trigger] final(self).data[i],
                    old(self).data[i],
                    macd_line(close_values(old(self).data@))[i],
                    macd_signal(close_values(old(self).data@))[i],
                    macd_histogram(close_values(old(self).data@))[i],
                ),
    {
        let closes = closes_of(&self.data);
        let series = macd_series(&closes);
        write_series(&mut self.data, &series.macd, IndicatorField::Macd);
        let ghost first = self.data@;
        write_series(&mut self.data, &series.signal, IndicatorField::MacdSignal);
        let ghost second = self.data@;
        write_series(&mut self.data, &series.histogram, IndicatorField::MacdHistogram);
        assert forall|i: int| 0 <= i < old(self).data.len() implies has_macd_written(
            #[trigger] self.data[i],
            old(self).data[i],
            macd_line(close_values(old(self).data@))[i],
            macd_signal(close_values(old(self).data@))[i],
            macd_histogram(close_values(old(self).data@))[i],
        ) by {
            let closes = close_values(old(self).data@);
            assert(indicator_values(series.macd@)[i] == macd_line(closes)[i]);
            assert(indicator_values(series.signal@)[i] == macd_signal(closes)[i]);
            assert(indicator_values(series.histogram@)[i] == macd_histogram(closes)[i]);
            assert(first[i].macd_signal == old(self).data[i].macd_signal);
            assert(second[i].macd_histogram == old(self).data[i].macd_histogram);
        }
    }

    /// Writes the relative strength index over `period` bars onto the bars.
    pub fn calculate_rsi(&mut self, period: usize)
        ensures
            final(self).symbol == old(self).symbol,
            final(self).data.len() == old(self).data.len(),
            forall|i: int|
                0 <= i < old(self).data.len() ==> has_rsi_written(
                    #[trigger] final(self).data[i],
                    old(self).data[i],
                    rsi(close_values(old(self).data@), period as int)[i],
                ),
    {
        let closes = closes_of(&self.data);
        let series = rsi_series(&closes, period);
        write_series(&mut self.data, &series, IndicatorField::Rsi);
        assert forall|i: int| 0 <= i < old(self).data.len() implies has_rsi_written(
            #[trigger] self.data[i],
            old(self).data[i],
            rsi(close_values(old(self).data@), period as int)[i],
        ) by {
            assert(indicator_values(series@)[i] == rsi(
                close_values(old(self).data@),
                period as int,
            )[i]);
        }
    }

    /// Writes the Bollinger bands over `period` bars onto the bars, the outer
    /// bands `width` hundredths of a standard deviation from the middle one.
    pub fn calculate_bollinger_bands(&mut self, period: usize, width: u16)
        ensures
            final(self).symbol == old(self).symbol,
            final(self).data.len() == old(self).data.len(),
            forall|i: int|
                0 <= i < old(self).data.len() ==> has_bands_written(
                    #[trigger] final(self).data[i],
                    old(self).data[i],
                    bollinger_upper(
                        close_values(old(self).data@),
                        period as int,
                        width as int,
                    )[i],
                    bollinger_middle(close_values(old(self).data@), period as int)[i],
                    bollinger_lower(
                        close_values(old(self).data@),
                        period as int,
                        width as int,
                    )[i],
                ),
    {
        let closes = closes_of(&self.data);
        let series = bollinger_series(&closes, period, width);
        write_series(&mut self.data, &series.middle, IndicatorField::BollingerMiddle);
        let ghost first = self.data@;
        write_series(&mut self.data, &series.upper, IndicatorField::BollingerUpper);
        let ghost second = self.data@;
        write_series(&mut self.data, &series.lower, IndicatorField::BollingerLower);
        assert forall|i: int| 0 <= i < old(self).data.len() implies has_bands_written(
            #[trigger] self.data[i],
            old(self).data[i],
            bollinger_upper(close_values(old(self).data@), period as int, width as int)[i],
            bollinger_middle(close_values(old(self).data@), period as int)[i],
            bollinger_lower(close_values(old(self).data@), period as int, width as int)[i],
        ) by {
            let closes = close_values(old(self).data@);
            assert(indicator_values(series.upper@)[i] == bollinger_upper(
                closes,
                period as int,
                width as int,
            )[i]);
            assert(indicator_values(series.middle@)[i] == bollinger_middle(closes, period as int)[i]);
            assert(indicator_values(series.lower@)[i] == bollinger_lower(
                closes,
                period as int,
                width as int,
            )[i]);
            assert(first[i].bollinger_upper == old(self).data[i].bollinger_upper);
            assert(second[i].bollinger_lower == old(self).data[i].bollinger_lower);
        }
    }
}

} // verus!
