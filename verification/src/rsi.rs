//! The relative strength index.
//!
//! Each bar after the first has a gain and a loss against the close before
//! it, one of the two being zero. The average gain and the average loss
//! start at position `period` as the means of the first `period` gains and
//! losses and are smoothed from there on, each new average being
//! `(average * (period - 1) + change) / period`.
//!
//! The averages are kept in `AVERAGE_PARTS` parts of a tick and rounded down
//! to a part at every step; they lie less than `period` parts below the
//! exact averages. With `RS = average gain / average loss` the index is
//! `100 - 100 / (1 + RS)`, which is `100 * gain / (gain + loss)`. It is given
//! in `RSI_SCALE` parts of a point and rounded once, to the nearest part.
//! Where the exact average loss is zero, `RS` counts as 100: that is where
//! no bar so far has had a loss, and for a period of 1, which keeps nothing
//! of the bars before, where the bar itself has none.
//!
//! A bar that closes where the bar before it closed takes the same part off
//! both averages and so leaves their quotient as it was: such a bar has the
//! index of the bar before it, however long the averages have been dying
//! away. For periods up to `RSI_EXACT_PERIOD` the index of every bar is
//! therefore the exact index to within one part of a point.

use crate::arith::{
    indicator_values, lemma_quotient_bounds, lemma_sum_bounds, lemma_sum_push,
    lemma_weighted_step_error, price_values, sum, PRICE_MAX,
};
use crate::sma::absent_series;
use vstd::prelude::*;

verus! {

/// The number of parts into which a point of the index is divided.
pub const RSI_SCALE: u64 = 10_000;

/// The value that stands for `RS` where there has been no loss.
pub const RS_WITHOUT_LOSS: u64 = 100;

/// The index where there has been no loss: `100 - 100 / 101` points.
pub const RSI_WITHOUT_LOSS: i64 = 990_099;

/// The number of parts of a tick in which the averages are kept.
pub const AVERAGE_PARTS: u64 = 0x1_0000_0000_0000;

/// The largest average, in parts of a tick.
pub const AVERAGE_MAX: u128 = 0xffff_ffff_0000_0000_0000;

/// The longest period over which the index is computed.
pub const RSI_MAX_PERIOD: usize = 0xffff_ffff;

/// The longest period for which every index is the exact one to within one
/// part of a point.
pub const RSI_EXACT_PERIOD: usize = 8000;

/// The gains of a series: for each bar after the first, how far its value
/// lies above the value before it, or zero.
pub open spec fn gains(values: Seq<int>) -> Seq<int> {
    Seq::new(
        if values.len() > 0 {
            (values.len() - 1) as nat
        } else {
            0
        },
        |j: int|
            if values[j + 1] >= values[j] {
                values[j + 1] - values[j]
            } else {
                0
            },
    )
}

/// The losses of a series: for each bar after the first, how far its value
/// lies below the value before it, or zero.
pub open spec fn losses(values: Seq<int>) -> Seq<int> {
    Seq::new(
        if values.len() > 0 {
            (values.len() - 1) as nat
        } else {
            0
        },
        |j: int|
            if values[j + 1] >= values[j] {
                0
            } else {
                values[j] - values[j + 1]
            },
    )
}

/// Whether none of the first `count` changes is more than zero.
pub open spec fn all_zero(changes: Seq<int>, count: int) -> bool {
    forall|j: int| 0 <= j < count && j < changes.len() ==> (#[trigger] changes[j]) <= 0
}

/// Whether the exact average of the changes at bar `i` is zero: none of the
/// changes so far is more than zero, or, where the period is 1 and the
/// average is the last change alone, that change is not.
pub open spec fn average_is_zero(changes: Seq<int>, period: int, i: int) -> bool {
    if period <= 1 {
        changes[i - 1] <= 0
    } else {
        all_zero(changes, i)
    }
}

/// The mean of the first `period` changes, in parts of a tick.
pub open spec fn first_average(changes: Seq<int>, period: int) -> int {
    (sum(changes.subrange(0, period)) * AVERAGE_PARTS) / period
}

/// The average that follows `previous` when `change` arrives, both averages
/// in parts of a tick.
pub open spec fn wilder(previous: int, change: int, period: int) -> int {
    (previous * (period - 1) + change * AVERAGE_PARTS) / period
}

/// The smoothed average of the changes at bar `i`, for `i >= period`, in
/// parts of a tick: the mean of the first `period` changes at bar `period`,
/// smoothed with the change of each later bar.
pub open spec fn average_at(changes: Seq<int>, period: int, i: int) -> int
    decreases i,
{
    if i <= period || i <= 0 {
        first_average(changes, period)
    } else {
        wilder(average_at(changes, period, i - 1), changes[i - 1], period)
    }
}

/// The exact smoothed average of the changes at bar `i` in ticks, as a
/// numerator and a denominator.
pub open spec fn exact_average_at(changes: Seq<int>, period: int, i: int) -> (int, int)
    decreases i,
{
    if i <= period || i <= 0 {
        (sum(changes.subrange(0, period)), period)
    } else {
        let (n, d) = exact_average_at(changes, period, i - 1);
        (n * (period - 1) + changes[i - 1] * d, d * period)
    }
}

/// The index for an average gain and an average loss, in `RSI_SCALE` parts of
/// a point, to the nearest part. `without_loss` says that the exact average
/// loss is zero.
pub open spec fn rsi_of(gain: int, loss: int, without_loss: bool) -> int {
    if without_loss || gain + loss <= 0 {
        (100 * RSI_SCALE * RS_WITHOUT_LOSS) / (1 + RS_WITHOUT_LOSS)
    } else {
        (2 * (100 * RSI_SCALE * gain) + (gain + loss)) / (2 * (gain + loss))
    }
}

/// Whether bar `i` has the index of the bar before it: it comes after the
/// first bar that has an index, it closes where the bar before it closed,
/// and the period keeps something of the bars before.
pub open spec fn keeps_index(values: Seq<int>, period: int, i: int) -> bool {
    period >= 2 && i > period && values[i] == values[i - 1]
}

/// The index that the averages of bar `i` give.
pub open spec fn rsi_of_averages(values: Seq<int>, period: int, i: int) -> int {
    rsi_of(
        average_at(gains(values), period, i),
        average_at(losses(values), period, i),
        average_is_zero(losses(values), period, i),
    )
}

/// The index at bar `i`.
pub open spec fn rsi_at(values: Seq<int>, period: int, i: int) -> int
    decreases i,
{
    if keeps_index(values, period, i) {
        rsi_at(values, period, i - 1)
    } else {
        rsi_of_averages(values, period, i)
    }
}

/// Whether the exact index lies within one part of a point of `index`, the
/// exact average gain and the exact average loss being given by their
/// numerators over one denominator.
pub open spec fn is_within_a_part(index: int, gain: int, loss: int) -> bool {
    (index - 1) * (gain + loss) <= 100 * RSI_SCALE * gain <= (index + 1) * (gain + loss)
}

/// The index of a series: absent before position `period`, so everywhere in
/// a series of at most `period` values, and for a period that is longer
/// than `RSI_MAX_PERIOD`.
pub open spec fn rsi(values: Seq<int>, period: int) -> Seq<Option<int>> {
    Seq::new(
        values.len(),
        |i: int|
            if 0 < period <= i && period <= RSI_MAX_PERIOD {
                Some(rsi_at(values, period, i))
            } else {
                None
            },
    )
}

/// A smoothed average of changes between zero and a bound lies between zero
/// and the bound, taken in parts of a tick.
pub proof fn lemma_average_bounds(changes: Seq<int>, period: int, i: int, high: int)
    requires
        1 <= period <= i <= changes.len(),
        forall|k: int| 0 <= k < changes.len() ==> 0 <= (#[trigger] changes[k]) && changes[k] <= high,
    ensures
        0 <= average_at(changes, period, i) <= high * AVERAGE_PARTS,
    decreases i,
{
    let parts = AVERAGE_PARTS as int;
    if i <= period {
        let first = changes.subrange(0, period);
        lemma_sum_bounds(first, 0, high);
        assert(period * 0 <= sum(first) * parts <= period * (high * parts)) by (nonlinear_arith)
            requires
                first.len() * 0 <= sum(first) <= first.len() * high,
                first.len() == period,
                parts > 0,
        ;
        lemma_quotient_bounds(sum(first) * parts, period, 0, high * parts);
    } else {
        lemma_average_bounds(changes, period, i - 1, high);
        let previous = average_at(changes, period, i - 1);
        let change = changes[i - 1];
        assert(period * 0 <= previous * (period - 1) + change * parts <= period * (high * parts))
            by (nonlinear_arith)
            requires
                period >= 1,
                0 <= previous <= high * parts,
                0 <= change <= high,
                parts > 0,
        ;
        lemma_quotient_bounds(previous * (period - 1) + change * parts, period, 0, high * parts);
    }
}

/// A smoothed average of changes that are all zero is zero.
pub proof fn lemma_average_of_nothing(changes: Seq<int>, period: int, i: int)
    requires
        1 <= period <= i <= changes.len(),
        forall|k: int| 0 <= k < i ==> (#[trigger] changes[k]) == 0,
    ensures
        average_at(changes, period, i) == 0,
    decreases i,
{
    if i <= period {
        let first = changes.subrange(0, period);
        lemma_sum_bounds(first, 0, 0);
        assert(sum(first) == 0) by (nonlinear_arith)
            requires
                first.len() * 0 <= sum(first) <= first.len() * 0,
        ;
    } else {
        lemma_average_of_nothing(changes, period, i - 1);
    }
}

/// The sum of values that are not negative is not negative, and it is zero
/// only if all of them are.
pub proof fn lemma_sum_is_zero(values: Seq<int>)
    requires
        forall|k: int| 0 <= k < values.len() ==> 0 <= #[trigger] values[k],
    ensures
        0 <= sum(values),
        sum(values) == 0 <==> forall|k: int| 0 <= k < values.len() ==> (#[trigger] values[k]) == 0,
    decreases values.len(),
{
    if values.len() > 0 {
        let before = values.drop_last();
        lemma_sum_is_zero(before);
        if sum(values) == 0 {
            assert forall|k: int| 0 <= k < values.len() implies (#[trigger] values[k]) == 0 by {
                if k < values.len() - 1 {
                    assert(before[k] == values[k]);
                }
            }
        }
        if forall|k: int| 0 <= k < values.len() ==> (#[trigger] values[k]) == 0 {
            assert forall|k: int| 0 <= k < before.len() implies (#[trigger] before[k]) == 0 by {
                assert(before[k] == values[k]);
            }
            assert(values[values.len() - 1] == 0);
        }
    }
}

/// The exact average of changes that are not negative is zero exactly where
/// `average_is_zero` says so.
pub proof fn lemma_exact_average_is_zero(changes: Seq<int>, period: int, i: int)
    requires
        1 <= period <= i <= changes.len(),
        forall|k: int| 0 <= k < changes.len() ==> 0 <= #[trigger] changes[k],
    ensures
        ({
            let (n, d) = exact_average_at(changes, period, i);
            &&& d > 0
            &&& n >= 0
            &&& n == 0 <==> average_is_zero(changes, period, i)
            &&& n == 0 <==> (period == 1 && changes[i - 1] == 0) || (forall|k: int|
                0 <= k < i ==> (#[trigger] changes[k]) == 0)
        }),
    decreases i,
{
    if i <= period {
        let first = changes.subrange(0, period);
        lemma_sum_is_zero(first);
        if sum(first) == 0 {
            assert forall|k: int| 0 <= k < i implies (#[trigger] changes[k]) == 0 by {
                assert(first[k] == changes[k]);
            }
        }
        if average_is_zero(changes, period, i) {
            assert forall|k: int| 0 <= k < first.len() implies (#[trigger] first[k]) == 0 by {
                assert(first[k] == changes[k]);
            }
        }
    } else {
        lemma_exact_average_is_zero(changes, period, i - 1);
        let (n, d) = exact_average_at(changes, period, i - 1);
        let change = changes[i - 1];
        assert(d * period > 0 && n * (period - 1) >= 0 && change * d >= 0 && (change * d == 0
            <==> change == 0) && (n * (period - 1) == 0 <==> n == 0 || period == 1))
            by (nonlinear_arith)
            requires
                d > 0,
                period >= 1,
                n >= 0,
                change >= 0,
        ;
        if period > 1 && n == 0 && change == 0 {
            assert forall|k: int| 0 <= k < i implies (#[trigger] changes[k]) == 0 by {}
        }
    }
}

/// The index lies between 0 and 100 points, and where there has been no
/// loss it has the value that stands for that.
pub proof fn lemma_rsi_range(gain: int, loss: int, without_loss: bool)
    requires
        gain >= 0,
        loss >= 0,
    ensures
        0 <= rsi_of(gain, loss, without_loss) <= 100 * RSI_SCALE,
        without_loss || gain + loss == 0 ==> rsi_of(gain, loss, without_loss) == RSI_WITHOUT_LOSS,
{
    if !(without_loss || gain + loss <= 0) {
        let whole = 100 * RSI_SCALE as int;
        let both = gain + loss;
        assert((2 * both) * 0 <= 2 * (whole * gain) + both <= (2 * both) * whole + (2 * both - 1))
            by (nonlinear_arith)
            requires
                gain >= 0,
                loss >= 0,
                both == gain + loss,
                both > 0,
                whole > 0,
        ;
        let dividend = 2 * (whole * gain) + both;
        vstd::arithmetic::div_mod::lemma_fundamental_div_mod(dividend, 2 * both);
        let q = dividend / (2 * both);
        assert(0 <= q <= whole) by (nonlinear_arith)
            requires
                both > 0,
                dividend == (2 * both) * q + dividend % (2 * both),
                0 <= dividend % (2 * both) < 2 * both,
                0 <= dividend <= (2 * both) * whole + (2 * both - 1),
        ;
    }
}

/// The index is the exact quotient rounded to the nearest part: twice its
/// distance from `100 * gain / (gain + loss)` is at most one part.
pub proof fn lemma_rsi_is_nearest(gain: int, loss: int)
    requires
        gain >= 0,
        loss >= 0,
        gain + loss > 0,
    ensures
        ({
            let index = rsi_of(gain, loss, false);
            let exact = 100 * RSI_SCALE * gain;
            let both = gain + loss;
            2 * (index * both) - both <= 2 * exact < 2 * (index * both) + both
        }),
{
    let both = gain + loss;
    let exact = 100 * RSI_SCALE * gain;
    let dividend = 2 * exact + both;
    vstd::arithmetic::div_mod::lemma_fundamental_div_mod(dividend, 2 * both);
    let q = dividend / (2 * both);
    assert(2 * (q * both) - both <= 2 * exact < 2 * (q * both) + both) by (nonlinear_arith)
        requires
            dividend == 2 * exact + both,
            dividend == (2 * both) * q + dividend % (2 * both),
            0 <= dividend % (2 * both) < 2 * both,
    ;
}

/// The averages lose little to rounding: an average in parts of a tick never
/// lies above the exact average, and it lies less than `period` parts below
/// it.
pub proof fn lemma_average_is_close(changes: Seq<int>, period: int, i: int)
    requires
        1 <= period <= i <= changes.len(),
    ensures
        ({
            let (n, d) = exact_average_at(changes, period, i);
            let average = average_at(changes, period, i);
            &&& d > 0
            &&& 0 <= AVERAGE_PARTS * n - average * d < period * d
        }),
    decreases i,
{
    let parts = AVERAGE_PARTS as int;
    if i <= period {
        let total = sum(changes.subrange(0, period));
        vstd::arithmetic::div_mod::lemma_fundamental_div_mod(total * parts, period);
        let average = first_average(changes, period);
        assert(0 <= parts * total - average * period < period * period) by (nonlinear_arith)
            requires
                period >= 1,
                total * parts == period * average + (total * parts) % period,
                0 <= (total * parts) % period < period,
        ;
    } else {
        lemma_average_is_close(changes, period, i - 1);
        let (n, d) = exact_average_at(changes, period, i - 1);
        let x = average_at(changes, period, i - 1);
        let change = changes[i - 1];
        assert((period - (period - 1)) * (parts * n - x * d) == parts * n - x * d) by (nonlinear_arith);
        lemma_weighted_step_error(x, parts * n, d, period - 1, change * parts, period);
        let next = average_at(changes, period, i);
        let exact = n * (period - 1) + change * d;
        assert(next == (x * (period - 1) + change * parts) / period);
        assert(parts * exact == (parts * n) * (period - 1) + (change * parts) * d)
            by (nonlinear_arith)
            requires
                exact == n * (period - 1) + change * d,
        ;
        let gap = parts * exact - next * (d * period);
        assert((period - (period - 1)) * gap == gap) by (nonlinear_arith);
        assert(d * period > 0) by (nonlinear_arith)
            requires
                d > 0,
                period >= 1,
        ;
        assert(period * (d * period) == period * (d * period));
    }
}

/// The gains and the losses of prices lie between zero and the largest
/// price.
pub proof fn lemma_changes_of_prices(values: Seq<int>)
    requires
        forall|k: int| 0 <= k < values.len() ==> 0 <= (#[trigger] values[k]) && values[k] <= PRICE_MAX,
    ensures
        forall|k: int|
            0 <= k < gains(values).len() ==> 0 <= (#[trigger] gains(values)[k]) && gains(values)[k]
                <= PRICE_MAX,
        forall|k: int|
            0 <= k < losses(values).len() ==> 0 <= (#[trigger] losses(values)[k]) && losses(
                values,
            )[k] <= PRICE_MAX,
{
    assert forall|k: int| 0 <= k < gains(values).len() implies 0 <= (#[trigger] gains(values)[k])
        && gains(values)[k] <= PRICE_MAX by {
        assert(0 <= values[k] <= PRICE_MAX && 0 <= values[k + 1] <= PRICE_MAX);
    }
    assert forall|k: int| 0 <= k < losses(values).len() implies 0 <= (#[trigger] losses(values)[k])
        && losses(values)[k] <= PRICE_MAX by {
        assert(0 <= values[k] <= PRICE_MAX && 0 <= values[k + 1] <= PRICE_MAX);
    }
}

/// The index of a series of prices lies between 0 and 100 points.
pub proof fn lemma_rsi_stays_in_range(values: Seq<int>, period: int, i: int)
    requires
        forall|k: int| 0 <= k < values.len() ==> 0 <= (#[trigger] values[k]) && values[k] <= PRICE_MAX,
        1 <= period <= i < values.len(),
    ensures
        0 <= rsi_at(values, period, i) <= 100 * RSI_SCALE,
    decreases i,
{
    if keeps_index(values, period, i) {
        lemma_rsi_stays_in_range(values, period, i - 1);
    } else {
        lemma_changes_of_prices(values);
        lemma_average_bounds(gains(values), period, i, PRICE_MAX as int);
        lemma_average_bounds(losses(values), period, i, PRICE_MAX as int);
        lemma_rsi_range(
            average_at(gains(values), period, i),
            average_at(losses(values), period, i),
            average_is_zero(losses(values), period, i),
        );
    }
}

/// Where the exact average loss is zero, the index has the value that
/// stands for a series without loss.
pub proof fn lemma_rsi_without_loss(values: Seq<int>, period: int, i: int)
    requires
        1 <= period <= i < values.len(),
    ensures
        ({
            let (n, d) = exact_average_at(losses(values), period, i);
            &&& d > 0
            &&& n >= 0
            &&& n == 0 <==> average_is_zero(losses(values), period, i)
            &&& n == 0 ==> rsi_at(values, period, i) == RSI_WITHOUT_LOSS
        }),
    decreases i,
{
    assert forall|k: int| 0 <= k < losses(values).len() implies 0 <= #[trigger] losses(values)[k] by {}
    lemma_exact_average_is_zero(losses(values), period, i);
    if keeps_index(values, period, i) {
        lemma_rsi_without_loss(values, period, i - 1);
        lemma_exact_average_is_zero(losses(values), period, i - 1);
    }
}

/// The exact averages of two series of changes over the same period have
/// the same denominator at the same bar.
pub proof fn lemma_same_denominator(first: Seq<int>, second: Seq<int>, period: int, i: int)
    ensures
        exact_average_at(first, period, i).1 == exact_average_at(second, period, i).1,
    decreases i,
{
    if !(i <= period || i <= 0) {
        lemma_same_denominator(first, second, period, i - 1);
    }
}

/// Where the two averages together come to `4 * 100 * RSI_SCALE * period`
/// parts of a tick or more, the index that they give lies within one part of
/// a point of the exact index.
pub proof fn lemma_index_is_close(
    gain: int,
    loss: int,
    period: int,
    d: int,
    exact_gain: int,
    exact_loss: int,
)
    requires
        period >= 1,
        d > 0,
        gain >= 0,
        loss >= 0,
        0 <= AVERAGE_PARTS * exact_gain - gain * d < period * d,
        0 <= AVERAGE_PARTS * exact_loss - loss * d < period * d,
        gain + loss >= 4 * (100 * RSI_SCALE) * period,
    ensures
        is_within_a_part(rsi_of(gain, loss, false), exact_gain, exact_loss),
{
    let whole = 100 * RSI_SCALE as int;
    let parts = AVERAGE_PARTS as int;
    let s = gain + loss;
    let q = rsi_of(gain, loss, false);
    let eg = parts * exact_gain - gain * d;
    let el = parts * exact_loss - loss * d;
    assert(s > 0) by (nonlinear_arith)
        requires
            s >= 4 * whole * period,
            period >= 1,
            whole == 1_000_000,
    ;
    lemma_rsi_is_nearest(gain, loss);
    lemma_rsi_range(gain, loss, false);
    let c = s * d;
    let x = (whole * gain) * d;
    let y = (q * s) * d;
    let w = whole * eg;
    let u = whole * (eg + el);
    let v = (q - 1) * (eg + el);
    let z = (q + 1) * (eg + el);
    assert(c >= 4 * whole * (period * d)) by (nonlinear_arith)
        requires
            c == s * d,
            s >= 4 * whole * period,
            d > 0,
            whole == 1_000_000,
    ;
    assert(4 * w <= c && 2 * u <= c && 0 <= w) by (nonlinear_arith)
        requires
            c >= 4 * whole * (period * d),
            w == whole * eg,
            u == whole * (eg + el),
            0 <= eg < period * d,
            0 <= el < period * d,
            whole == 1_000_000,
    ;
    assert(2 * y - c <= 2 * x < 2 * y + c) by (nonlinear_arith)
        requires
            2 * (q * s) - s <= 2 * (whole * gain) < 2 * (q * s) + s,
            d > 0,
            c == s * d,
            x == (whole * gain) * d,
            y == (q * s) * d,
    ;
    assert(v <= u && 0 <= z) by (nonlinear_arith)
        requires
            v == (q - 1) * (eg + el),
            u == whole * (eg + el),
            z == (q + 1) * (eg + el),
            0 <= q <= whole,
            eg + el >= 0,
    ;
    assert(whole * (gain * d + eg) == x + w) by (nonlinear_arith)
        requires
            x == (whole * gain) * d,
            w == whole * eg,
    ;
    assert((q + 1) * (s * d + eg + el) == y + c + z) by (nonlinear_arith)
        requires
            y == (q * s) * d,
            c == s * d,
            z == (q + 1) * (eg + el),
    ;
    assert((q - 1) * (s * d + eg + el) == y - c + v) by (nonlinear_arith)
        requires
            y == (q * s) * d,
            c == s * d,
            v == (q - 1) * (eg + el),
    ;
    assert(whole * (gain * d + eg) <= (q + 1) * (s * d + eg + el));
    assert((q - 1) * (s * d + eg + el) <= whole * (gain * d + eg));
    assert(s * d + eg + el == parts * (exact_gain + exact_loss) && gain * d + eg == parts
        * exact_gain) by (nonlinear_arith)
        requires
            s == gain + loss,
            eg == parts * exact_gain - gain * d,
            el == parts * exact_loss - loss * d,
    ;
    assert((q - 1) * (exact_gain + exact_loss) <= whole * exact_gain) by (nonlinear_arith)
        requires
            (q - 1) * (parts * (exact_gain + exact_loss)) <= whole * (parts * exact_gain),
            parts > 0,
    ;
    assert(whole * exact_gain <= (q + 1) * (exact_gain + exact_loss)) by (nonlinear_arith)
        requires
            whole * (parts * exact_gain) <= (q + 1) * (parts * (exact_gain + exact_loss)),
            parts > 0,
    ;
}

/// An average that has just taken up a change of a tick or more, and the
/// first average of changes that are not all zero, comes to
/// `4 * 100 * RSI_SCALE * period` parts of a tick or more, for a period up to
/// `RSI_EXACT_PERIOD`.
pub proof fn lemma_average_after_a_move(changes: Seq<int>, period: int, i: int)
    requires
        1 <= period <= RSI_EXACT_PERIOD,
        period <= i <= changes.len(),
        forall|k: int| 0 <= k < changes.len() ==> 0 <= (#[trigger] changes[k]) && changes[k]
            <= PRICE_MAX,
        if i == period {
            sum(changes.subrange(0, period)) >= 1
        } else {
            changes[i - 1] >= 1
        },
    ensures
        average_at(changes, period, i) >= 4 * (100 * RSI_SCALE) * period,
{
    let parts = AVERAGE_PARTS as int;
    let whole = 100 * RSI_SCALE as int;
    let dividend = if i == period {
        sum(changes.subrange(0, period)) * parts
    } else {
        average_at(changes, period, i - 1) * (period - 1) + changes[i - 1] * parts
    };
    if i > period {
        lemma_average_bounds(changes, period, i - 1, PRICE_MAX as int);
        assert(dividend >= parts) by (nonlinear_arith)
            requires
                dividend == average_at(changes, period, i - 1) * (period - 1) + changes[i - 1]
                    * parts,
                average_at(changes, period, i - 1) >= 0,
                period >= 1,
                changes[i - 1] >= 1,
                parts > 0,
        ;
    } else {
        assert(dividend >= parts) by (nonlinear_arith)
            requires
                dividend == sum(changes.subrange(0, period)) * parts,
                sum(changes.subrange(0, period)) >= 1,
                parts > 0,
        ;
    }
    let average = average_at(changes, period, i);
    assert(average == dividend / period);
    vstd::arithmetic::div_mod::lemma_fundamental_div_mod(dividend, period);
    assert(average >= 4 * whole * period) by (nonlinear_arith)
        requires
            dividend == period * average + dividend % period,
            0 <= dividend % period < period,
            dividend >= parts,
            parts == 0x1_0000_0000_0000,
            whole == 1_000_000,
            1 <= period <= 8000,
    ;
}

/// The index of every bar of a series of prices is the exact index to within
/// one part of a point, for a period up to `RSI_EXACT_PERIOD`: where the
/// exact average loss is zero, it is the value that stands for a series
/// without loss, and elsewhere it lies within one part of
/// `100 * gain / (gain + loss)` of the exact averages.
pub proof fn lemma_rsi_is_exact(values: Seq<int>, period: int, i: int)
    requires
        forall|k: int| 0 <= k < values.len() ==> 0 <= (#[trigger] values[k]) && values[k] <= PRICE_MAX,
        1 <= period <= RSI_EXACT_PERIOD,
        period <= i < values.len(),
    ensures
        ({
            let (exact_gain, d) = exact_average_at(gains(values), period, i);
            let (exact_loss, same) = exact_average_at(losses(values), period, i);
            &&& d == same
            &&& d > 0
            &&& exact_gain >= 0
            &&& exact_loss >= 0
            &&& if exact_loss == 0 {
                rsi_at(values, period, i) == RSI_WITHOUT_LOSS
            } else {
                is_within_a_part(rsi_at(values, period, i), exact_gain, exact_loss)
            }
        }),
    decreases i,
{
    let ups = gains(values);
    let downs = losses(values);
    let whole = 100 * RSI_SCALE as int;
    lemma_changes_of_prices(values);
    lemma_same_denominator(ups, downs, period, i);
    lemma_exact_average_is_zero(ups, period, i);
    lemma_exact_average_is_zero(downs, period, i);
    lemma_rsi_without_loss(values, period, i);
    let (exact_gain, d) = exact_average_at(ups, period, i);
    let (exact_loss, same) = exact_average_at(downs, period, i);
    if exact_loss != 0 {
        if keeps_index(values, period, i) {
            lemma_rsi_is_exact(values, period, i - 1);
            lemma_same_denominator(ups, downs, period, i - 1);
            let (gain_before, d_before) = exact_average_at(ups, period, i - 1);
            let (loss_before, same_before) = exact_average_at(downs, period, i - 1);
            let q = rsi_at(values, period, i - 1);
            assert(ups[i - 1] == 0 && downs[i - 1] == 0);
            assert(exact_gain == gain_before * (period - 1) && exact_loss == loss_before * (period
                - 1)) by (nonlinear_arith)
                requires
                    exact_gain == gain_before * (period - 1) + ups[i - 1] * d_before,
                    exact_loss == loss_before * (period - 1) + downs[i - 1] * d_before,
                    ups[i - 1] == 0,
                    downs[i - 1] == 0,
            ;
            assert(loss_before != 0) by (nonlinear_arith)
                requires
                    exact_loss == loss_before * (period - 1),
                    exact_loss != 0,
            ;
            assert(is_within_a_part(q, exact_gain, exact_loss)) by (nonlinear_arith)
                requires
                    (q - 1) * (gain_before + loss_before) <= whole * gain_before,
                    whole * gain_before <= (q + 1) * (gain_before + loss_before),
                    exact_gain == gain_before * (period - 1),
                    exact_loss == loss_before * (period - 1),
                    period >= 2,
                    whole == 100 * RSI_SCALE,
            ;
        } else {
            let gain = average_at(ups, period, i);
            let loss = average_at(downs, period, i);
            lemma_average_bounds(ups, period, i, PRICE_MAX as int);
            lemma_average_bounds(downs, period, i, PRICE_MAX as int);
            lemma_average_is_close(ups, period, i);
            lemma_average_is_close(downs, period, i);
            if i == period {
                lemma_sum_is_zero(downs.subrange(0, period));
                lemma_average_after_a_move(downs, period, i);
            } else if values[i] > values[i - 1] {
                assert(ups[i - 1] >= 1);
                lemma_average_after_a_move(ups, period, i);
            } else {
                assert(values[i] < values[i - 1]);
                assert(downs[i - 1] >= 1);
                lemma_average_after_a_move(downs, period, i);
            }
            lemma_index_is_close(gain, loss, period, d, exact_gain, exact_loss);
        }
    }
}

/// The index for an average gain and an average loss, both in parts of a
/// tick; `without_loss` says that the exact average loss is zero.
fn rsi_value(gain: u128, loss: u128, without_loss: bool) -> (index: i64)
    requires
        gain <= AVERAGE_MAX,
        loss <= AVERAGE_MAX,
    ensures
        index == rsi_of(gain as int, loss as int, without_loss),
{
    proof {
        lemma_rsi_range(gain as int, loss as int, without_loss);
    }
    let both: u128 = gain + loss;
    if without_loss || both == 0 {
        RSI_WITHOUT_LOSS
    } else {
        let whole: u128 = 100 * RSI_SCALE as u128;
        assert(whole * gain <= 1_000_000 * 0xffff_ffff_0000_0000_0000) by (nonlinear_arith)
            requires
                whole == 1_000_000,
                0 <= gain <= 0xffff_ffff_0000_0000_0000,
        ;
        ((2 * (whole * gain) + both) / (2 * both)) as i64
    }
}

fn changes_of(closes: &Vec<u32>) -> (changes: (Vec<u32>, Vec<u32>))
    ensures
        price_values(changes.0@) == gains(price_values(closes@)),
        price_values(changes.1@) == losses(price_values(closes@)),
        changes.0.len() == changes.1.len(),
        closes.len() > 0 ==> changes.0.len() == closes.len() - 1,
{
    let mut up: Vec<u32> = Vec::new();
    let mut down: Vec<u32> = Vec::new();
    let ghost values = price_values(closes@);
    let mut i: usize = 1;
    while i < closes.len()
        invariant
            1 <= i,
            i <= closes.len() || closes.len() == 0,
            values == price_values(closes@),
            up.len() == down.len(),
            closes.len() > 0 ==> up.len() == i - 1,
            closes.len() == 0 ==> up.len() == 0,
            forall|j: int| 0 <= j < up.len() ==> up@[j] == gains(values)[j],
            forall|j: int| 0 <= j < down.len() ==> down@[j] == losses(values)[j],
        decreases closes.len() - i,
    {
        if closes[i] >= closes[i - 1] {
            up.push(closes[i] - closes[i - 1]);
            down.push(0);
        } else {
            up.push(0);
            down.push(closes[i - 1] - closes[i]);
        }
        i += 1;
    }
    assert(price_values(up@) =~= gains(values));
    assert(price_values(down@) =~= losses(values));
    (up, down)
}

fn mean_of_first(changes: &Vec<u32>, period: usize) -> (average: u128)
    requires
        1 <= period <= changes.len(),
        period <= RSI_MAX_PERIOD,
    ensures
        average == first_average(price_values(changes@), period as int),
        average <= AVERAGE_MAX,
{
    let ghost values = price_values(changes@);
    let mut total: u128 = 0;
    let mut i: usize = 0;
    while i < period
        invariant
            i <= period <= changes.len(),
            period <= RSI_MAX_PERIOD,
            values == price_values(changes@),
            total == sum(values.subrange(0, i as int)),
            total <= i * PRICE_MAX,
        decreases period - i,
    {
        proof {
            let before = values.subrange(0, i as int);
            assert(values.subrange(0, i + 1) == before.push(values[i as int]));
            lemma_sum_push(before, values[i as int]);
            assert(i * PRICE_MAX <= 0xffff_ffff * PRICE_MAX) by (nonlinear_arith)
                requires
                    0 <= i <= 0xffff_ffff,
            ;
            assert((i + 1) * PRICE_MAX == i * PRICE_MAX + PRICE_MAX) by (nonlinear_arith);
        }
        total = total + changes[i] as u128;
        i += 1;
    }
    proof {
        let parts = AVERAGE_PARTS as int;
        assert(period * 0 <= total * parts <= period * (PRICE_MAX * parts)) by (nonlinear_arith)
            requires
                0 <= total <= period * PRICE_MAX,
                parts > 0,
        ;
        assert(period * (PRICE_MAX * parts) <= 0xffff_ffff * (PRICE_MAX * parts))
            by (nonlinear_arith)
            requires
                0 <= period <= 0xffff_ffff,
                parts == 0x1_0000_0000_0000,
        ;
        lemma_quotient_bounds(total * parts, period as int, 0, PRICE_MAX * parts);
    }
    (total * AVERAGE_PARTS as u128) / (period as u128)
}

fn next_average(previous: u128, change: u32, period: usize) -> (average: u128)
    requires
        1 <= period <= RSI_MAX_PERIOD,
        previous <= AVERAGE_MAX,
    ensures
        average == wilder(previous as int, change as int, period as int),
        average <= AVERAGE_MAX,
{
    proof {
        let p = period as int;
        let parts = AVERAGE_PARTS as int;
        assert(p * 0 <= previous * (p - 1) + change * parts <= p * (PRICE_MAX * parts))
            by (nonlinear_arith)
            requires
                p >= 1,
                0 <= previous <= PRICE_MAX * parts,
                0 <= change <= PRICE_MAX,
                parts > 0,
        ;
        assert(p * (PRICE_MAX * parts) <= 0xffff_ffff * (PRICE_MAX * parts)) by (nonlinear_arith)
            requires
                0 <= p <= 0xffff_ffff,
                parts == 0x1_0000_0000_0000,
        ;
        lemma_quotient_bounds(previous * (p - 1) + change * parts, p, 0, PRICE_MAX * parts);
        assert(0 <= previous * (p - 1)) by (nonlinear_arith)
            requires
                0 <= previous,
                0 <= p - 1,
        ;
        assert(0 <= change * parts) by (nonlinear_arith)
            requires
                0 <= change,
                0 <= parts,
        ;
    }
    let carried: u128 = previous * (period as u128 - 1);
    let arrived: u128 = change as u128 * AVERAGE_PARTS as u128;
    (carried + arrived) / (period as u128)
}

/// Whether none of the first `count` losses is more than zero.
fn no_loss_among(down: &Vec<u32>, count: usize) -> (none: bool)
    requires
        count <= down.len(),
    ensures
        none == all_zero(price_values(down@), count as int),
{
    let mut j: usize = 0;
    while j < count
        invariant
            j <= count <= down.len(),
            all_zero(price_values(down@), j as int),
        decreases count - j,
    {
        if down[j] > 0 {
            assert(price_values(down@)[j as int] > 0);
            return false;
        }
        j += 1;
    }
    true
}

/// Computes the relative strength index of the closing prices over `period`
/// bars.
pub fn rsi_series(closes: &Vec<u32>, period: usize) -> (series: Vec<Option<i64>>)
    ensures
        series.len() == closes.len(),
        indicator_values(series@) == rsi(price_values(closes@), period as int),
{
    let n = closes.len();
    let ghost values = price_values(closes@);
    if period == 0 || period > RSI_MAX_PERIOD || n <= period {
        let series = absent_series(n);
        assert(indicator_values(series@) =~= rsi(values, period as int));
        return series;
    }
    let (up, down) = changes_of(closes);
    let mut series = absent_series(period);
    let mut gain = mean_of_first(&up, period);
    let mut loss = mean_of_first(&down, period);
    let mut without_loss = if period == 1 {
        down[0] == 0
    } else {
        no_loss_among(&down, period)
    };
    assert(price_values(down@)[0] == down@[0]);
    let mut index = rsi_value(gain, loss, without_loss);
    series.push(Some(index));
    let mut i: usize = period + 1;
    while i < n
        invariant
            1 <= period < i <= n,
            period <= RSI_MAX_PERIOD,
            n == closes.len(),
            values == price_values(closes@),
            price_values(up@) == gains(values),
            price_values(down@) == losses(values),
            up.len() == n - 1,
            down.len() == n - 1,
            series.len() == i,
            gain <= AVERAGE_MAX,
            loss <= AVERAGE_MAX,
            gain == average_at(gains(values), period as int, i - 1),
            loss == average_at(losses(values), period as int, i - 1),
            without_loss == average_is_zero(losses(values), period as int, i - 1),
            index == rsi_at(values, period as int, i - 1),
            forall|k: int| 0 <= k < i ==> indicator_values(series@)[k] == rsi(values, period as int)[k],
        decreases n - i,
    {
        assert(price_values(up@)[i - 1] == up@[i - 1]);
        assert(price_values(down@)[i - 1] == down@[i - 1]);
        gain = next_average(gain, up[i - 1], period);
        loss = next_average(loss, down[i - 1], period);
        if period == 1 {
            without_loss = down[i - 1] == 0;
        } else if down[i - 1] > 0 {
            without_loss = false;
        }
        assert(without_loss == average_is_zero(losses(values), period as int, i as int)) by {
            if period == 1 {
            } else if all_zero(losses(values), i - 1) && down[i - 1] == 0 {
                assert forall|j: int| 0 <= j < i && j < losses(values).len() implies (
                #[trigger] losses(values)[j]) <= 0 by {
                    if j < i - 1 {
                        assert(all_zero(losses(values), i - 1));
                    }
                }
            } else if down[i - 1] > 0 {
                assert(losses(values)[i - 1] > 0);
            } else {
                let j = choose|j: int|
                    0 <= j < i - 1 && j < losses(values).len() && !((#[trigger] losses(values)[j])
                        <= 0);
                assert(losses(values)[j] > 0);
            }
        }
        assert(values[i as int] == closes@[i as int] && values[i - 1] == closes@[i - 1]);
        if !(period >= 2 && closes[i] == closes[i - 1]) {
            index = rsi_value(gain, loss, without_loss);
        }
        series.push(Some(index));
        i += 1;
    }
    assert(indicator_values(series@) =~= rsi(values, period as int));
    series
}

} // verus!
