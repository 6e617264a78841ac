//! The simple moving average: the mean of the trailing window of closing
//! prices, rounded down.

use crate::arith::{
    indicator_values, lemma_mean_bounds, lemma_sum_bounds, lemma_sum_drop_first, lemma_sum_push,
    mean, price_values, sum, PRICE_MAX,
};
use vstd::prelude::*;

verus! {

/// The `period` values that end at position `i`.
pub open spec fn window(values: Seq<int>, period: int, i: int) -> Seq<int> {
    values.subrange(i + 1 - period, i + 1)
}

/// Whether an indicator over windows of `period` values has a value at
/// position `i`: from position `period - 1` on.
pub open spec fn has_window(period: int, i: int) -> bool {
    0 < period <= i + 1
}

/// The simple moving average at position `i`.
pub open spec fn sma_at(values: Seq<int>, period: int, i: int) -> int {
    mean(window(values, period, i))
}

/// The simple moving average of a series: absent before position
/// `period - 1`, so everywhere in a series of fewer than `period` values.
pub open spec fn sma(values: Seq<int>, period: int) -> Seq<Option<int>> {
    Seq::new(
        values.len(),
        |i: int|
            if has_window(period, i) {
                Some(sma_at(values, period, i))
            } else {
                None
            },
    )
}

/// A series of the given length without any value.
pub fn absent_series(len: usize) -> (series: Vec<Option<i64>>)
    ensures
        series.len() == len,
        forall|i: int| 0 <= i < len ==> series@[i] is None,
{
    let mut series: Vec<Option<i64>> = Vec::new();
    let mut i: usize = 0;
    while i < len
        invariant
            i <= len,
            series.len() == i,
            forall|k: int| 0 <= k < i ==> series@[k] is None,
        decreases len - i,
    {
        series.push(None);
        i += 1;
    }
    series
}

/// Computes the simple moving average of the closing prices over `period`
/// bars.
pub fn sma_series(closes: &Vec<u32>, period: usize) -> (series: Vec<Option<i64>>)
    ensures
        series.len() == closes.len(),
        indicator_values(series@) == sma(price_values(closes@), period as int),
{
    let n = closes.len();
    let ghost values = price_values(closes@);
    if period == 0 {
        let series = absent_series(n);
        assert(indicator_values(series@) =~= sma(values, period as int));
        return series;
    }
    let mut series: Vec<Option<i64>> = Vec::new();
    let mut total: u128 = 0;
    let mut i: usize = 0;
    while i < n
        invariant
            period > 0,
            i <= n,
            n == closes.len(),
            values == price_values(closes@),
            series.len() == i,
            total == sum(
                values.subrange(
                    if i >= period {
                        i - period
                    } else {
                        0
                    },
                    i as int,
                ),
            ),
            forall|k: int| 0 <= k < i ==> indicator_values(series@)[k] == sma(values, period as int)[k],
        decreases n - i,
    {
        let ghost low: int = if i >= period {
            i - period
        } else {
            0
        };
        proof {
            let before = values.subrange(low, i as int);
            let with_new = values.subrange(low, i + 1);
            assert(with_new == before.push(values[i as int]));
            lemma_sum_push(before, values[i as int]);
            lemma_sum_bounds(before, 0, PRICE_MAX as int);
            assert(before.len() * PRICE_MAX <= 0xffff_ffff_ffff_ffff * PRICE_MAX) by (nonlinear_arith)
                requires
                    0 <= before.len() <= 0xffff_ffff_ffff_ffff,
            ;
            if i >= period {
                lemma_sum_drop_first(with_new);
                assert(with_new.drop_first() == values.subrange(low + 1, i + 1));
                lemma_sum_bounds(with_new.drop_first(), 0, PRICE_MAX as int);
                assert(with_new.drop_first().len() * 0 == 0);
            }
        }
        total = total + closes[i] as u128;
        if i >= period {
            total = total - closes[i - period] as u128;
        }
        if i + 1 >= period {
            proof {
                let w = window(values, period as int, i as int);
                lemma_mean_bounds(w, 0, PRICE_MAX as int);
            }
            let average = total / (period as u128);
            series.push(Some(average as i64));
        } else {
            series.push(None);
        }
        i += 1;
    }
    assert(indicator_values(series@) =~= sma(values, period as int));
    series
}

} // verus!
