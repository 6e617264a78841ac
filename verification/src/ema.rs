//! The exponential moving average.
//!
//! The average starts at position `period - 1` with the mean of the first
//! `period` values. From there on it moves from where it stands towards
//! each new value by `2 / (period + 1)` of their distance, which makes it
//! `(average * (period - 1) + 2 * value) / (period + 1)`.
//!
//! The average is carried in `EMA_PARTS` parts of a tick and rounded down to
//! a part at every step, so that it lies less than `(period + 1) / 2` parts
//! below the exact average. What is given out is the carried average
//! rounded down to a tick.

use crate::arith::{
    div_floor, indicator_values, lemma_quotient_bounds, lemma_sum_bounds, lemma_sum_push,
    lemma_weighted_step_error, mean, price_values, sum,
};
use crate::sma::{absent_series, has_window};
use vstd::prelude::*;

verus! {

/// The number of parts of a tick in which the average is carried.
pub const EMA_PARTS: u64 = 0x1_0000_0000;

/// The longest period over which the average is computed.
pub const EMA_MAX_PERIOD: usize = 0x7fff_ffff;

/// The largest value, in parts of a tick, that the average is carried of.
pub const CARRIED_MAX: i128 = 0x8000_0000_0000_0000_0000_0000;

/// The values in parts of a tick.
pub open spec fn in_parts(values: Seq<int>) -> Seq<int> {
    Seq::new(values.len(), |k: int| values[k] * EMA_PARTS)
}

/// The carried average that follows `previous` when `value` arrives, all in
/// parts of a tick.
pub open spec fn smooth(previous: int, value: int, period: int) -> int {
    (previous * (period - 1) + 2 * value) / (period + 1)
}

/// The carried average of values that are given in parts of a tick, at
/// position `i`, for `i >= period - 1`: the mean of the first `period`
/// values at position `period - 1`, smoothed with each later value.
pub open spec fn carried_of(parts: Seq<int>, period: int, i: int) -> int
    decreases i,
{
    if i <= period - 1 || i <= 0 {
        sum(parts.subrange(0, period)) / period
    } else {
        smooth(carried_of(parts, period, i - 1), parts[i], period)
    }
}

/// The exact average of values that are given in parts of a tick, at
/// position `i`, as a numerator and a denominator.
pub open spec fn exact_of(parts: Seq<int>, period: int, i: int) -> (int, int)
    decreases i,
{
    if i <= period - 1 || i <= 0 {
        (sum(parts.subrange(0, period)), period)
    } else {
        let (n, d) = exact_of(parts, period, i - 1);
        (n * (period - 1) + 2 * parts[i] * d, d * (period + 1))
    }
}

/// The carried average of values in ticks at position `i`, in parts of a
/// tick.
pub open spec fn carried_at(values: Seq<int>, period: int, i: int) -> int {
    carried_of(in_parts(values), period, i)
}

/// The exponential moving average at position `i`, for `i >= period - 1`:
/// the carried average rounded down to a tick.
pub open spec fn ema_at(values: Seq<int>, period: int, i: int) -> int {
    carried_at(values, period, i) / (EMA_PARTS as int)
}

/// Whether the average over `period` values has a value at position `i`:
/// from position `period - 1` on, for a period that is not longer than
/// `EMA_MAX_PERIOD`.
pub open spec fn has_average(period: int, i: int) -> bool {
    has_window(period, i) && period <= EMA_MAX_PERIOD
}

/// The exponential moving average of a series: absent before position
/// `period - 1`, so everywhere in a series of fewer than `period` values.
pub open spec fn ema(values: Seq<int>, period: int) -> Seq<Option<int>> {
    Seq::new(
        values.len(),
        |i: int|
            if has_average(period, i) {
                Some(ema_at(values, period, i))
            } else {
                None
            },
    )
}

/// What a sequence of signed values holds, as integers.
pub open spec fn signed_values(values: Seq<i64>) -> Seq<int> {
    Seq::new(values.len(), |i: int| values[i] as int)
}

/// What a sequence of values in parts of a tick holds, as integers.
pub open spec fn wide_values(values: Seq<i128>) -> Seq<int> {
    Seq::new(values.len(), |i: int| values[i] as int)
}

/// The sum of values in parts of a tick is the sum of the values, in parts
/// of a tick.
pub proof fn lemma_sum_in_parts(values: Seq<int>)
    ensures
        sum(in_parts(values)) == sum(values) * EMA_PARTS,
    decreases values.len(),
{
    if values.len() > 0 {
        lemma_sum_in_parts(values.drop_last());
        assert(in_parts(values).drop_last() =~= in_parts(values.drop_last()));
        assert((sum(values.drop_last()) + values.last()) * EMA_PARTS == sum(values.drop_last())
            * EMA_PARTS + values.last() * EMA_PARTS) by (nonlinear_arith);
    } else {
        assert(in_parts(values) =~= Seq::<int>::empty());
    }
}

/// A carried average lies between bounds that hold of all the values.
pub proof fn lemma_carried_of_bounds(parts: Seq<int>, period: int, i: int, low: int, high: int)
    requires
        1 <= period <= i + 1 <= parts.len(),
        forall|k: int| 0 <= k < parts.len() ==> low <= (#[trigger] parts[k]) && parts[k] <= high,
    ensures
        low <= carried_of(parts, period, i) <= high,
    decreases i,
{
    if i <= period - 1 {
        let first = parts.subrange(0, period);
        lemma_sum_bounds(first, low, high);
        lemma_quotient_bounds(sum(first), period, low, high);
    } else {
        lemma_carried_of_bounds(parts, period, i - 1, low, high);
        let previous = carried_of(parts, period, i - 1);
        let value = parts[i];
        assert((period + 1) * low <= previous * (period - 1) + 2 * value <= (period + 1) * high)
            by (nonlinear_arith)
            requires
                period >= 1,
                low <= previous <= high,
                low <= value <= high,
        ;
        lemma_quotient_bounds(previous * (period - 1) + 2 * value, period + 1, low, high);
    }
}

/// A carried average of values in ticks lies between bounds that hold of
/// all the values, taken in parts of a tick.
pub proof fn lemma_carried_bounds(values: Seq<int>, period: int, i: int, low: int, high: int)
    requires
        1 <= period <= i + 1 <= values.len(),
        forall|k: int| 0 <= k < values.len() ==> low <= (#[trigger] values[k]) && values[k] <= high,
    ensures
        low * EMA_PARTS <= carried_at(values, period, i) <= high * EMA_PARTS,
{
    let parts = in_parts(values);
    assert forall|k: int| 0 <= k < parts.len() implies low * EMA_PARTS <= (#[trigger] parts[k])
        && parts[k] <= high * EMA_PARTS by {
        assert(low * EMA_PARTS <= values[k] * EMA_PARTS <= high * EMA_PARTS) by (nonlinear_arith)
            requires
                low <= values[k] <= high,
        ;
    }
    lemma_carried_of_bounds(parts, period, i, low * EMA_PARTS, high * EMA_PARTS);
}

/// An exponential moving average lies between bounds that hold of all the
/// values.
pub proof fn lemma_ema_bounds(values: Seq<int>, period: int, i: int, low: int, high: int)
    requires
        1 <= period <= i + 1 <= values.len(),
        forall|k: int| 0 <= k < values.len() ==> low <= (#[trigger] values[k]) && values[k] <= high,
    ensures
        low <= ema_at(values, period, i) <= high,
{
    lemma_carried_bounds(values, period, i, low, high);
    let parts = EMA_PARTS as int;
    assert(parts * low == low * parts && parts * high == high * parts) by (nonlinear_arith);
    lemma_quotient_bounds(carried_at(values, period, i), parts, low, high);
}

/// The carried average loses little to rounding: it never lies above the
/// exact average, and it lies less than `(period + 1) / 2` parts of a tick
/// below it.
pub proof fn lemma_carried_is_close(parts: Seq<int>, period: int, i: int)
    requires
        1 <= period <= i + 1 <= parts.len(),
    ensures
        ({
            let (n, d) = exact_of(parts, period, i);
            let carried = carried_of(parts, period, i);
            &&& d > 0
            &&& 0 <= n - carried * d
            &&& 2 * (n - carried * d) < (period + 1) * d
        }),
    decreases i,
{
    if i <= period - 1 {
        let total = sum(parts.subrange(0, period));
        vstd::arithmetic::div_mod::lemma_fundamental_div_mod(total, period);
        let carried = carried_of(parts, period, i);
        assert(0 <= total - carried * period && 2 * (total - carried * period) < (period + 1)
            * period) by (nonlinear_arith)
            requires
                period >= 1,
                total == period * carried + total % period,
                0 <= total % period < period,
        ;
    } else {
        lemma_carried_is_close(parts, period, i - 1);
        let (n, d) = exact_of(parts, period, i - 1);
        let x = carried_of(parts, period, i - 1);
        let value = parts[i];
        assert(((period + 1) - (period - 1)) * (n - x * d) == 2 * (n - x * d)) by (nonlinear_arith);
        lemma_weighted_step_error(x, n, d, period - 1, 2 * value, period + 1);
        let next = carried_of(parts, period, i);
        let exact = n * (period - 1) + 2 * value * d;
        assert(next == (x * (period - 1) + 2 * value) / (period + 1));
        assert(exact == n * (period - 1) + (2 * value) * d) by (nonlinear_arith)
            requires
                exact == n * (period - 1) + 2 * value * d,
        ;
        let gap = exact - next * (d * (period + 1));
        assert(((period + 1) - (period - 1)) * gap == 2 * gap) by (nonlinear_arith);
        assert(d * (period + 1) > 0) by (nonlinear_arith)
            requires
                d > 0,
                period >= 1,
        ;
    }
}

/// The average starts with the mean of the first values, rounded down to a
/// tick.
pub proof fn lemma_ema_starts_at_mean(values: Seq<int>, period: int)
    requires
        1 <= period <= values.len(),
    ensures
        ema_at(values, period, period - 1) == mean(values.subrange(0, period)),
{
    let parts = EMA_PARTS as int;
    let total = sum(values.subrange(0, period));
    assert(in_parts(values).subrange(0, period) =~= in_parts(values.subrange(0, period)));
    lemma_sum_in_parts(values.subrange(0, period));
    let whole = total / period;
    let rest = total % period;
    vstd::arithmetic::div_mod::lemma_fundamental_div_mod(total, period);
    vstd::arithmetic::div_mod::lemma_fundamental_div_mod(rest * parts, period);
    let small = (rest * parts) / period;
    assert(0 <= small < parts) by (nonlinear_arith)
        requires
            period >= 1,
            parts > 0,
            0 <= rest < period,
            rest * parts == period * small + (rest * parts) % period,
            0 <= (rest * parts) % period < period,
    ;
    assert(total * parts == (whole * parts + small) * period + (rest * parts) % period)
        by (nonlinear_arith)
        requires
            total == period * whole + rest,
            rest * parts == period * small + (rest * parts) % period,
    ;
    vstd::arithmetic::div_mod::lemma_fundamental_div_mod_converse(
        total * parts,
        period,
        whole * parts + small,
        (rest * parts) % period,
    );
    vstd::arithmetic::div_mod::lemma_fundamental_div_mod_converse(
        whole * parts + small,
        parts,
        whole,
        small,
    );
}

/// The carried average that follows `previous` when `value` arrives.
fn smooth_step(previous: i128, value: i128, period: usize) -> (next: i128)
    requires
        1 <= period <= EMA_MAX_PERIOD,
        -CARRIED_MAX <= previous <= CARRIED_MAX,
        -CARRIED_MAX <= value <= CARRIED_MAX,
    ensures
        next == smooth(previous as int, value as int, period as int),
{
    proof {
        let p = period as int;
        assert(-CARRIED_MAX * 0x7fff_ffff <= previous * (p - 1) <= CARRIED_MAX * 0x7fff_ffff)
            by (nonlinear_arith)
            requires
                0 <= p - 1 < 0x7fff_ffff,
                -CARRIED_MAX <= previous <= CARRIED_MAX,
        ;
    }
    let carried: i128 = previous * (period as i128 - 1);
    div_floor(carried + 2 * value, period as i128 + 1)
}

/// The mean of the first `period` values, rounded down.
fn mean_of_first(parts: &Vec<i128>, period: usize) -> (carried: i128)
    requires
        1 <= period <= parts.len(),
        period <= EMA_MAX_PERIOD,
        forall|k: int| 0 <= k < parts.len() ==> -CARRIED_MAX <= (#[trigger] parts[k]) && parts[k]
            <= CARRIED_MAX,
    ensures
        carried == carried_of(wide_values(parts@), period as int, period - 1),
{
    let ghost ints = wide_values(parts@);
    let mut total: i128 = 0;
    let mut i: usize = 0;
    while i < period
        invariant
            i <= period <= parts.len(),
            period <= EMA_MAX_PERIOD,
            ints == wide_values(parts@),
            forall|k: int| 0 <= k < parts.len() ==> -CARRIED_MAX <= (#[trigger] parts[k])
                && parts[k] <= CARRIED_MAX,
            total == sum(ints.subrange(0, i as int)),
            i * (-CARRIED_MAX) <= total <= i * CARRIED_MAX,
        decreases period - i,
    {
        proof {
            let before = ints.subrange(0, i as int);
            assert(ints.subrange(0, i + 1) == before.push(ints[i as int]));
            lemma_sum_push(before, ints[i as int]);
            assert(i * CARRIED_MAX <= 0x7fff_ffff * CARRIED_MAX && i * (-CARRIED_MAX) >= 0x7fff_ffff
                * (-CARRIED_MAX)) by (nonlinear_arith)
                requires
                    0 <= i <= 0x7fff_ffff,
            ;
            assert((i + 1) * CARRIED_MAX == i * CARRIED_MAX + CARRIED_MAX && (i + 1) * (
            -CARRIED_MAX) == i * (-CARRIED_MAX) - CARRIED_MAX) by (nonlinear_arith);
        }
        total = total + parts[i];
        i += 1;
    }
    div_floor(total, period as i128)
}

/// The carried averages of values in parts of a tick, from position
/// `period - 1` on, where the first of them stands.
fn carried_from_first_window(parts: &Vec<i128>, period: usize) -> (carried: Vec<i128>)
    requires
        1 <= period <= parts.len(),
        period <= EMA_MAX_PERIOD,
        forall|k: int| 0 <= k < parts.len() ==> -CARRIED_MAX <= (#[trigger] parts[k]) && parts[k]
            <= CARRIED_MAX,
    ensures
        carried.len() == parts.len() - period + 1,
        forall|k: int|
            0 <= k < carried.len() ==> (#[trigger] carried[k]) == carried_of(
                wide_values(parts@),
                period as int,
                period - 1 + k,
            ),
{
    let n = parts.len();
    let ghost ints = wide_values(parts@);
    let mut current = mean_of_first(parts, period);
    proof {
        lemma_carried_of_bounds(ints, period as int, period - 1, -CARRIED_MAX, CARRIED_MAX as int);
    }
    let mut carried: Vec<i128> = Vec::new();
    carried.push(current);
    let mut i: usize = period;
    while i < n
        invariant
            1 <= period <= i <= n,
            period <= EMA_MAX_PERIOD,
            n == parts.len(),
            ints == wide_values(parts@),
            forall|k: int| 0 <= k < parts.len() ==> -CARRIED_MAX <= (#[trigger] parts[k])
                && parts[k] <= CARRIED_MAX,
            forall|k: int| 0 <= k < ints.len() ==> -CARRIED_MAX <= (#[trigger] ints[k]) && ints[k]
                <= CARRIED_MAX,
            carried.len() == i - period + 1,
            current == carried_of(ints, period as int, i - 1),
            -CARRIED_MAX <= current <= CARRIED_MAX,
            forall|k: int|
                0 <= k < carried.len() ==> (#[trigger] carried[k]) == carried_of(
                    ints,
                    period as int,
                    period - 1 + k,
                ),
        decreases n - i,
    {
        proof {
            lemma_carried_of_bounds(ints, period as int, i as int, -CARRIED_MAX, CARRIED_MAX as int);
            assert(ints[i as int] == parts[i as int]);
        }
        current = smooth_step(current, parts[i], period);
        carried.push(current);
        i += 1;
    }
    carried
}

/// The values in parts of a tick.
fn values_in_parts(values: &Vec<i64>) -> (parts: Vec<i128>)
    ensures
        parts.len() == values.len(),
        wide_values(parts@) == in_parts(signed_values(values@)),
        forall|k: int| 0 <= k < parts.len() ==> -CARRIED_MAX <= (#[trigger] parts[k]) && parts[k]
            <= CARRIED_MAX,
{
    let mut parts: Vec<i128> = Vec::new();
    let mut i: usize = 0;
    while i < values.len()
        invariant
            i <= values.len(),
            parts.len() == i,
            forall|k: int| 0 <= k < i ==> (#[trigger] parts[k]) == values[k] * EMA_PARTS,
            forall|k: int| 0 <= k < i ==> -CARRIED_MAX <= (#[trigger] parts[k]) && parts[k]
                <= CARRIED_MAX,
        decreases values.len() - i,
    {
        let value = values[i] as i128;
        assert(-0x8000_0000_0000_0000 * 0x1_0000_0000 <= value * 0x1_0000_0000
            <= 0x8000_0000_0000_0000 * 0x1_0000_0000) by (nonlinear_arith)
            requires
                -0x8000_0000_0000_0000 <= value <= 0x8000_0000_0000_0000,
        ;
        parts.push(value * (EMA_PARTS as i128));
        i += 1;
    }
    assert(wide_values(parts@) =~= in_parts(signed_values(values@)));
    parts
}

/// The values rounded down to a tick, from parts of a tick.
fn rounded_to_ticks(parts: &Vec<i128>) -> (ticks: Vec<i64>)
    requires
        forall|k: int|
            0 <= k < parts.len() ==> i64::MIN * EMA_PARTS <= (#[trigger] parts[k]) && parts[k]
                <= i64::MAX * EMA_PARTS,
    ensures
        ticks.len() == parts.len(),
        forall|k: int| 0 <= k < ticks.len() ==> (#[trigger] ticks[k]) == (parts[k] as int) / (EMA_PARTS as int),
{
    let mut ticks: Vec<i64> = Vec::new();
    let mut i: usize = 0;
    while i < parts.len()
        invariant
            i <= parts.len(),
            ticks.len() == i,
            forall|k: int|
                0 <= k < parts.len() ==> i64::MIN * EMA_PARTS <= (#[trigger] parts[k]) && parts[k]
                    <= i64::MAX * EMA_PARTS,
            forall|k: int| 0 <= k < i ==> (#[trigger] ticks[k]) == (parts[k] as int) / (EMA_PARTS as int),
        decreases parts.len() - i,
    {
        proof {
            let p = EMA_PARTS as int;
            assert(p * i64::MIN == i64::MIN * p && p * i64::MAX == i64::MAX * p) by (nonlinear_arith);
            lemma_quotient_bounds(parts[i as int] as int, p, i64::MIN as int, i64::MAX as int);
        }
        ticks.push(div_floor(parts[i], EMA_PARTS as i128) as i64);
        i += 1;
    }
    ticks
}

/// The exponential moving averages of a series from position `period - 1`
/// on, where the first of them stands.
pub(crate) fn ema_from_first_window(values: &Vec<i64>, period: usize) -> (averages: Vec<i64>)
    requires
        1 <= period <= values.len(),
        period <= EMA_MAX_PERIOD,
    ensures
        averages.len() == values.len() - period + 1,
        forall|k: int|
            0 <= k < averages.len() ==> (#[trigger] averages[k]) == ema_at(
                signed_values(values@),
                period as int,
                period - 1 + k,
            ),
{
    let ghost ints = signed_values(values@);
    let parts = values_in_parts(values);
    let carried = carried_from_first_window(&parts, period);
    proof {
        assert forall|k: int| 0 <= k < carried.len() implies i64::MIN * EMA_PARTS <= (
        #[trigger] carried[k]) && carried[k] <= i64::MAX * EMA_PARTS by {
            lemma_carried_bounds(ints, period as int, period - 1 + k, i64::MIN as int, i64::MAX as int);
        }
    }
    rounded_to_ticks(&carried)
}

/// A series without values at its first `absent` positions and with the
/// given values after them.
pub(crate) fn series_from(absent: usize, values: &Vec<i64>) -> (series: Vec<Option<i64>>)
    requires
        absent + values.len() <= usize::MAX,
    ensures
        series.len() == absent + values.len(),
        forall|i: int| 0 <= i < absent ==> (#[trigger] series[i]) is None,
        forall|i: int| absent <= i < series.len() ==> (#[trigger] series[i]) == Some(values[i - absent]),
{
    let mut series = absent_series(absent);
    let mut k: usize = 0;
    while k < values.len()
        invariant
            k <= values.len(),
            absent + values.len() <= usize::MAX,
            series.len() == absent + k,
            forall|i: int| 0 <= i < absent ==> (#[trigger] series[i]) is None,
            forall|i: int|
                absent <= i < series.len() ==> (#[trigger] series[i]) == Some(values[i - absent]),
        decreases values.len() - k,
    {
        series.push(Some(values[k]));
        k += 1;
    }
    series
}

/// Computes the exponential moving average of any series of values.
pub fn ema_of_values(values: &Vec<i64>, period: usize) -> (series: Vec<Option<i64>>)
    ensures
        series.len() == values.len(),
        indicator_values(series@) == ema(signed_values(values@), period as int),
{
    let n = values.len();
    let ghost ints = signed_values(values@);
    if period == 0 || period > EMA_MAX_PERIOD || n < period {
        let series = absent_series(n);
        assert(indicator_values(series@) =~= ema(ints, period as int));
        return series;
    }
    let averages = ema_from_first_window(values, period);
    let series = series_from(period - 1, &averages);
    assert(indicator_values(series@) =~= ema(ints, period as int));
    series
}

/// The prices as signed values.
pub fn signed_prices(closes: &Vec<u32>) -> (values: Vec<i64>)
    ensures
        values.len() == closes.len(),
        signed_values(values@) == price_values(closes@),
{
    let mut values: Vec<i64> = Vec::new();
    let mut i: usize = 0;
    while i < closes.len()
        invariant
            i <= closes.len(),
            values.len() == i,
            forall|k: int| 0 <= k < i ==> values@[k] == closes@[k],
        decreases closes.len() - i,
    {
        values.push(closes[i] as i64);
        i += 1;
    }
    assert(signed_values(values@) =~= price_values(closes@));
    values
}

/// Computes the exponential moving average of the closing prices over
/// `period` bars.
pub fn ema_series(closes: &Vec<u32>, period: usize) -> (series: Vec<Option<i64>>)
    ensures
        series.len() == closes.len(),
        indicator_values(series@) == ema(price_values(closes@), period as int),
{
    let values = signed_prices(closes);
    ema_of_values(&values, period)
}

} // verus!
