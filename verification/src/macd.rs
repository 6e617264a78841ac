//! Moving average convergence and divergence.
//!
//! The line is the 12-bar exponential average minus the 26-bar one, from
//! position 26 on. The signal is the 9-value exponential average of the
//! line, so it starts at position 34 with the mean of the line's first nine
//! values. The histogram is the line minus the signal, wherever both have a
//! value: from position 34 on.
//!
//! All three are relations between the values as they are given out, in
//! ticks: the line is the difference of the two averages of the bar, and
//! the histogram the difference of its line and its signal. The signal is
//! carried in parts of a tick from bar to bar, as every exponential average
//! is, and rounded down to a tick when it is given out.

use crate::arith::{indicator_values, price_values, PRICE_MAX};
use crate::ema::{
    ema_at, ema_from_first_window, lemma_ema_bounds, series_from, signed_prices, signed_values,
};
use crate::sma::absent_series;
use vstd::prelude::*;

verus! {

/// The period of the faster of the two averages.
pub const MACD_FAST: usize = 12;

/// The period of the slower of the two averages, and the position of the
/// line's first value.
pub const MACD_SLOW: usize = 26;

/// The period of the signal.
pub const MACD_SIGNAL: usize = 9;

/// The position of the first value of the signal and of the histogram.
pub const MACD_SIGNAL_START: usize = 34;

/// The line at position `i`.
pub open spec fn macd_at(values: Seq<int>, i: int) -> int {
    ema_at(values, MACD_FAST as int, i) - ema_at(values, MACD_SLOW as int, i)
}

/// The values of the line, from its first value on.
pub open spec fn macd_values(values: Seq<int>) -> Seq<int> {
    Seq::new(
        if values.len() >= MACD_SLOW {
            (values.len() - MACD_SLOW) as nat
        } else {
            0
        },
        |k: int| macd_at(values, MACD_SLOW + k),
    )
}

/// The signal at position `i`.
pub open spec fn signal_at(values: Seq<int>, i: int) -> int {
    ema_at(macd_values(values), MACD_SIGNAL as int, i - MACD_SLOW)
}

/// The histogram at position `i`.
pub open spec fn histogram_at(values: Seq<int>, i: int) -> int {
    macd_at(values, i) - signal_at(values, i)
}

/// The line of a series: absent before position 26.
pub open spec fn macd_line(values: Seq<int>) -> Seq<Option<int>> {
    Seq::new(
        values.len(),
        |i: int|
            if i >= MACD_SLOW {
                Some(macd_at(values, i))
            } else {
                None
            },
    )
}

/// The signal of a series: absent before position 34.
pub open spec fn macd_signal(values: Seq<int>) -> Seq<Option<int>> {
    Seq::new(
        values.len(),
        |i: int|
            if i >= MACD_SIGNAL_START {
                Some(signal_at(values, i))
            } else {
                None
            },
    )
}

/// The histogram of a series: absent before position 34, where the signal
/// is.
pub open spec fn macd_histogram(values: Seq<int>) -> Seq<Option<int>> {
    Seq::new(
        values.len(),
        |i: int|
            if i >= MACD_SIGNAL_START {
                Some(histogram_at(values, i))
            } else {
                None
            },
    )
}

/// The line, the signal and the histogram of a series, each as long as the
/// series.
pub struct MacdSeries {
    pub macd: Vec<Option<i64>>,
    pub signal: Vec<Option<i64>>,
    pub histogram: Vec<Option<i64>>,
}

/// The line of a series of prices lies within a price's distance of zero.
pub proof fn lemma_macd_bounds(values: Seq<int>, i: int)
    requires
        MACD_SLOW <= i < values.len(),
        forall|k: int| 0 <= k < values.len() ==> 0 <= (#[trigger] values[k]) && values[k] <= PRICE_MAX,
    ensures
        -PRICE_MAX <= macd_at(values, i) <= PRICE_MAX,
{
    lemma_ema_bounds(values, MACD_FAST as int, i, 0, PRICE_MAX as int);
    lemma_ema_bounds(values, MACD_SLOW as int, i, 0, PRICE_MAX as int);
}

/// The signal of a series of prices lies within a price's distance of zero.
pub proof fn lemma_signal_bounds(values: Seq<int>, i: int)
    requires
        MACD_SIGNAL_START <= i < values.len(),
        forall|k: int| 0 <= k < values.len() ==> 0 <= (#[trigger] values[k]) && values[k] <= PRICE_MAX,
    ensures
        -PRICE_MAX <= signal_at(values, i) <= PRICE_MAX,
{
    let line = macd_values(values);
    assert forall|k: int| 0 <= k < line.len() implies -PRICE_MAX <= (#[trigger] line[k]) && line[k]
        <= PRICE_MAX by {
        lemma_macd_bounds(values, MACD_SLOW + k);
    }
    lemma_ema_bounds(line, MACD_SIGNAL as int, i - MACD_SLOW, -PRICE_MAX, PRICE_MAX as int);
}

/// The values of the line from position 26 on.
fn line_values(closes: &Vec<u32>) -> (line: Vec<i64>)
    requires
        closes.len() > MACD_SLOW,
    ensures
        signed_values(line@) == macd_values(price_values(closes@)),
        line.len() == closes.len() - MACD_SLOW,
{
    let n = closes.len();
    let ghost values = price_values(closes@);
    let prices = signed_prices(closes);
    let fast = ema_from_first_window(&prices, MACD_FAST);
    let slow = ema_from_first_window(&prices, MACD_SLOW);
    let mut line: Vec<i64> = Vec::new();
    let mut i: usize = MACD_SLOW;
    while i < n
        invariant
            MACD_SLOW <= i <= n,
            n == closes.len(),
            values == price_values(closes@),
            signed_values(prices@) == values,
            fast.len() == n - MACD_FAST + 1,
            slow.len() == n - MACD_SLOW + 1,
            forall|k: int|
                0 <= k < fast.len() ==> (#[trigger] fast[k]) == ema_at(
                    values,
                    MACD_FAST as int,
                    MACD_FAST - 1 + k,
                ),
            forall|k: int|
                0 <= k < slow.len() ==> (#[trigger] slow[k]) == ema_at(
                    values,
                    MACD_SLOW as int,
                    MACD_SLOW - 1 + k,
                ),
            line.len() == i - MACD_SLOW,
            forall|k: int| 0 <= k < line.len() ==> (#[trigger] line[k]) == macd_at(values, MACD_SLOW + k),
        decreases n - i,
    {
        proof {
            lemma_ema_bounds(values, MACD_FAST as int, i as int, 0, PRICE_MAX as int);
            lemma_ema_bounds(values, MACD_SLOW as int, i as int, 0, PRICE_MAX as int);
        }
        line.push(fast[i - (MACD_FAST - 1)] - slow[i - (MACD_SLOW - 1)]);
        i += 1;
    }
    assert(signed_values(line@) =~= macd_values(values));
    line
}

/// Computes the line, the signal and the histogram of the closing prices.
pub fn macd_series(closes: &Vec<u32>) -> (series: MacdSeries)
    ensures
        series.macd.len() == closes.len(),
        series.signal.len() == closes.len(),
        series.histogram.len() == closes.len(),
        indicator_values(series.macd@) == macd_line(price_values(closes@)),
        indicator_values(series.signal@) == macd_signal(price_values(closes@)),
        indicator_values(series.histogram@) == macd_histogram(price_values(closes@)),
{
    let n = closes.len();
    let ghost values = price_values(closes@);
    if n <= MACD_SLOW {
        let series = MacdSeries {
            macd: absent_series(n),
            signal: absent_series(n),
            histogram: absent_series(n),
        };
        assert(indicator_values(series.macd@) =~= macd_line(values));
        assert(indicator_values(series.signal@) =~= macd_signal(values));
        assert(indicator_values(series.histogram@) =~= macd_histogram(values));
        return series;
    }
    let line = line_values(closes);
    let macd = series_from(MACD_SLOW, &line);
    assert(indicator_values(macd@) =~= macd_line(values)) by {
        assert forall|i: int| 0 <= i < n implies indicator_values(macd@)[i] == macd_line(values)[i] by {
            if i >= MACD_SLOW {
                assert(signed_values(line@)[i - MACD_SLOW] == macd_values(values)[i - MACD_SLOW]);
            }
        }
    }
    if n <= MACD_SIGNAL_START {
        let series = MacdSeries { macd, signal: absent_series(n), histogram: absent_series(n) };
        assert(indicator_values(series.signal@) =~= macd_signal(values));
        assert(indicator_values(series.histogram@) =~= macd_histogram(values));
        return series;
    }
    let smoothed = ema_from_first_window(&line, MACD_SIGNAL);
    let signal = series_from(MACD_SIGNAL_START, &smoothed);
    assert(indicator_values(signal@) =~= macd_signal(values));
    let mut distances: Vec<i64> = Vec::new();
    let mut i: usize = MACD_SIGNAL_START;
    while i < n
        invariant
            MACD_SIGNAL_START <= i <= n,
            n == closes.len(),
            values == price_values(closes@),
            line.len() == n - MACD_SLOW,
            smoothed.len() == line.len() - MACD_SIGNAL + 1,
            signed_values(line@) == macd_values(values),
            forall|k: int|
                0 <= k < smoothed.len() ==> (#[trigger] smoothed[k]) == signal_at(
                    values,
                    MACD_SIGNAL_START + k,
                ),
            distances.len() == i - MACD_SIGNAL_START,
            forall|k: int|
                0 <= k < distances.len() ==> (#[trigger] distances[k]) == histogram_at(
                    values,
                    MACD_SIGNAL_START + k,
                ),
        decreases n - i,
    {
        let at = i - MACD_SLOW;
        proof {
            assert(signed_values(line@)[at as int] == macd_values(values)[at as int]);
            lemma_macd_bounds(values, i as int);
            lemma_signal_bounds(values, i as int);
        }
        distances.push(line[at] - smoothed[i - MACD_SIGNAL_START]);
        i += 1;
    }
    let histogram = series_from(MACD_SIGNAL_START, &distances);
    assert(indicator_values(histogram@) =~= macd_histogram(values));
    MacdSeries { macd, signal, histogram }
}

} // verus!
