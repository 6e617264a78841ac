//! Resampling of daily price bars into daily, weekly or monthly buckets, and
//! technical indicators over their closing prices, in exact integer
//! arithmetic.
//!
//! Prices are whole numbers of ticks, a tick being whatever fixed fraction of
//! the currency unit the caller chooses; volumes and traded values are whole
//! numbers too. Every result is stated as a function of the input series,
//! and no function of the public interface asks anything of its arguments.
//!
//! An indicator is given in whole ticks, the relative strength index in ten
//! thousandths of a point. What an indicator carries from bar to bar it
//! carries in a small part of a tick, 2^-32 of it for the exponential
//! average and 2^-48 for the averages behind the relative strength index,
//! and a quotient or a root is rounded once, when the value is given out.
//! So a moving average and the distance of a Bollinger band lie less than
//! one tick, and a hair, below the exact value, whatever the tick is, and
//! the relative strength index is the exact one to within a ten thousandth
//! of a point; `laws` states each bound. The line and the histogram of the
//! moving average convergence and divergence are differences of what is
//! given out for the bar. The tick therefore sets the resolution of the
//! results and nothing else: a caller who wants averages to four decimal
//! places takes a tick of 1/10000 of the currency unit.
//!
//! - `models` holds the bars, the buckets and the series.
//! - `date` reads day-month-year labels; `sorting` puts a series in order
//!   of date; `resample` cuts it into buckets.
//! - `sma`, `ema`, `macd`, `rsi` and `bollinger` compute one indicator each
//!   from the closing prices; `indicators` writes them onto the bars.
//! - `range` finds the days that a request covers.
//! - `laws` proves what holds of all of these for every series.
//! - `arith` and `text` hold the arithmetic and the text handling that the
//!   others share.

pub mod arith;
pub mod text;
pub mod date;
pub mod range;
pub mod sorting;
pub mod models;
pub mod resample;
pub mod sma;
pub mod ema;
pub mod macd;
pub mod rsi;
pub mod bollinger;
pub mod indicators;
pub mod laws;
