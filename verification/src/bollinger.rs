//! Bollinger bands: the mean of the trailing window of closing prices, and
//! the bands that lie a number of standard deviations above and below it.
//!
//! The middle band is the mean rounded down to a tick. The distance of the
//! outer bands from it is `width` standard deviations of the window, the
//! deviations taken from the exact mean and over all values of the window.
//! Nothing is rounded before the root is taken: the distance is the square
//! root of `width * width * variance`, rounded down to a tick, so it lies
//! less than one tick below the exact distance. The width is given in
//! hundredths of a standard deviation.

use crate::arith::{
    floor_sqrt, indicator_values, integer_sqrt, lemma_floor_sqrt_exists, lemma_mean_bounds,
    lemma_quotient_bounds, lemma_sum_bounds, lemma_sum_push, mean, price_values, sum, PRICE_MAX,
};
use crate::sma::{has_window, window};
use vstd::prelude::*;

verus! {

/// The number of parts of a standard deviation in which a width is given.
pub const WIDTH_PARTS: u64 = 100;

/// The longest window over which the bands are computed.
pub const BOLLINGER_MAX_PERIOD: usize = 0xffff_ffff;

/// The sum of the squares of `scale * value - center` over the values.
pub open spec fn scaled_squares(values: Seq<int>, scale: int, center: int) -> int
    decreases values.len(),
{
    if values.len() == 0 {
        0
    } else {
        scaled_squares(values.drop_last(), scale, center) + (scale * values.last() - center) * (
        scale * values.last() - center)
    }
}

/// The sum of the squares of the values.
pub open spec fn sum_of_squares(values: Seq<int>) -> int
    decreases values.len(),
{
    if values.len() == 0 {
        0
    } else {
        sum_of_squares(values.drop_last()) + values.last() * values.last()
    }
}

/// The spread of `n` values about their exact mean: the sum of the squares
/// of their distances from it, times `n * n`. With the sum `s` of the values
/// the distance of a value `v` from the mean is `(n * v - s) / n`.
pub open spec fn spread(values: Seq<int>) -> int {
    scaled_squares(values, values.len() as int, sum(values))
}

/// The distance of the outer bands from the mean of the values: the square
/// root of `width * width` times the variance, rounded down, the variance
/// being `spread / (n * n * n)` and the width being given in `WIDTH_PARTS`
/// parts of a standard deviation.
pub open spec fn half_width(values: Seq<int>, width: int) -> int {
    let n = values.len() as int;
    floor_sqrt((width * width * spread(values)) / (WIDTH_PARTS * WIDTH_PARTS * (n * n * n)))
}

/// Whether the bands over windows of `period` values have a value at
/// position `i`: from position `period - 1` on, for a period that is not
/// longer than `BOLLINGER_MAX_PERIOD`.
pub open spec fn has_bands(period: int, i: int) -> bool {
    has_window(period, i) && period <= BOLLINGER_MAX_PERIOD
}

/// The middle band at position `i`: the mean of the window.
pub open spec fn middle_at(values: Seq<int>, period: int, i: int) -> int {
    mean(window(values, period, i))
}

/// The distance of the outer bands from the middle band at position `i`.
pub open spec fn half_width_at(values: Seq<int>, period: int, width: int, i: int) -> int {
    half_width(window(values, period, i), width)
}

/// The middle band of a series: absent before position `period - 1`.
pub open spec fn bollinger_middle(values: Seq<int>, period: int) -> Seq<Option<int>> {
    Seq::new(
        values.len(),
        |i: int|
            if has_bands(period, i) {
                Some(middle_at(values, period, i))
            } else {
                None
            },
    )
}

/// The upper band of a series: absent before position `period - 1`.
pub open spec fn bollinger_upper(values: Seq<int>, period: int, width: int) -> Seq<Option<int>> {
    Seq::new(
        values.len(),
        |i: int|
            if has_bands(period, i) {
                Some(middle_at(values, period, i) + half_width_at(values, period, width, i))
            } else {
                None
            },
    )
}

/// The lower band of a series: absent before position `period - 1`.
pub open spec fn bollinger_lower(values: Seq<int>, period: int, width: int) -> Seq<Option<int>> {
    Seq::new(
        values.len(),
        |i: int|
            if has_bands(period, i) {
                Some(middle_at(values, period, i) - half_width_at(values, period, width, i))
            } else {
                None
            },
    )
}

/// The three bands of a series, each as long as the series.
pub struct BollingerSeries {
    pub upper: Vec<Option<i64>>,
    pub middle: Vec<Option<i64>>,
    pub lower: Vec<Option<i64>>,
}

/// A sum of squares is not negative.
pub proof fn lemma_scaled_squares_not_negative(values: Seq<int>, scale: int, center: int)
    ensures
        0 <= scaled_squares(values, scale, center),
    decreases values.len(),
{
    if values.len() > 0 {
        lemma_scaled_squares_not_negative(values.drop_last(), scale, center);
        let d = scale * values.last() - center;
        assert(0 <= d * d) by (nonlinear_arith);
    }
}

/// The squares of `scale * value - center` sum to what the sum of the
/// values and the sum of their squares give.
pub proof fn lemma_scaled_squares_expand(values: Seq<int>, scale: int, center: int)
    ensures
        scaled_squares(values, scale, center) == scale * scale * sum_of_squares(values) - 2 * scale
            * center * sum(values) + values.len() * (center * center),
    decreases values.len(),
{
    if values.len() > 0 {
        let before = values.drop_last();
        let v = values.last();
        lemma_scaled_squares_expand(before, scale, center);
        let q = sum_of_squares(before);
        let s = sum(before);
        let n = before.len() as int;
        assert(scale * scale * q - 2 * scale * center * s + n * (center * center) + (scale * v
            - center) * (scale * v - center) == scale * scale * (q + v * v) - 2 * scale * center * (
        s + v) + (n + 1) * (center * center)) by (nonlinear_arith);
    } else {
        assert(scale * scale * 0 - 2 * scale * center * 0 + 0 * (center * center) == 0)
            by (nonlinear_arith);
    }
}

/// The spread of `n` values is `n` times what remains of `n` times the sum
/// of their squares when the square of their sum is taken away.
pub proof fn lemma_spread_from_sums(values: Seq<int>)
    ensures
        spread(values) == values.len() * (values.len() * sum_of_squares(values) - sum(values) * sum(
            values,
        )),
        0 <= spread(values),
{
    let n = values.len() as int;
    let s = sum(values);
    let q = sum_of_squares(values);
    lemma_scaled_squares_expand(values, n, s);
    lemma_scaled_squares_not_negative(values, n, s);
    assert(n * n * q - 2 * n * s * s + n * (s * s) == n * (n * q - s * s)) by (nonlinear_arith);
}

/// The sum of the squares of prices is at most the square of the largest
/// price for each of them.
proof fn lemma_sum_of_squares_bounds(values: Seq<int>)
    requires
        forall|k: int| 0 <= k < values.len() ==> 0 <= (#[trigger] values[k]) && values[k] <= PRICE_MAX,
    ensures
        0 <= sum_of_squares(values) <= values.len() * (PRICE_MAX * PRICE_MAX),
    decreases values.len(),
{
    let bound = PRICE_MAX * PRICE_MAX;
    if values.len() > 0 {
        lemma_sum_of_squares_bounds(values.drop_last());
        let v = values.last();
        assert(0 <= v * v <= bound) by (nonlinear_arith)
            requires
                0 <= v <= PRICE_MAX,
                bound == PRICE_MAX * PRICE_MAX,
        ;
        assert(values.len() * bound == (values.len() - 1) * bound + bound) by (nonlinear_arith);
    } else {
        assert(values.len() * bound == 0) by (nonlinear_arith)
            requires
                values.len() == 0,
        ;
    }
}

/// The distance of the outer bands is the exact distance rounded down: its
/// square is at most `width * width` times the variance, and the square of
/// the next whole number is more.
pub proof fn lemma_half_width_is_root(values: Seq<int>, width: int)
    requires
        values.len() > 0,
    ensures
        ({
            let n = values.len() as int;
            let half = half_width(values, width);
            let scale = WIDTH_PARTS * WIDTH_PARTS * (n * n * n);
            &&& 0 <= half
            &&& scale > 0
            &&& half * half * scale <= width * width * spread(values)
            &&& width * width * spread(values) < (half + 1) * (half + 1) * scale
        }),
{
    let n = values.len() as int;
    let scale = WIDTH_PARTS * WIDTH_PARTS * (n * n * n);
    let whole = width * width * spread(values);
    lemma_spread_from_sums(values);
    assert(scale > 0) by (nonlinear_arith)
        requires
            n >= 1,
            scale == 10000 * (n * n * n),
    ;
    assert(0 <= whole) by (nonlinear_arith)
        requires
            whole == width * width * spread(values),
            0 <= spread(values),
    ;
    vstd::arithmetic::div_mod::lemma_fundamental_div_mod(whole, scale);
    let under = whole / scale;
    assert(0 <= under && under * scale <= whole < (under + 1) * scale) by (nonlinear_arith)
        requires
            scale > 0,
            0 <= whole,
            whole == scale * under + whole % scale,
            0 <= whole % scale < scale,
    ;
    lemma_floor_sqrt_exists(under);
    let half = floor_sqrt(under);
    assert(half * half * scale <= whole) by (nonlinear_arith)
        requires
            half * half <= under,
            under * scale <= whole,
            scale > 0,
    ;
    assert(whole < (half + 1) * (half + 1) * scale) by (nonlinear_arith)
        requires
            under + 1 <= (half + 1) * (half + 1),
            whole < (under + 1) * scale,
            scale > 0,
    ;
}

/// The mean of the `period` prices that end at position `i`, and the
/// distance of the outer bands from it.
fn window_statistics(closes: &Vec<u32>, period: usize, width: u16, i: usize) -> (statistics: (
    u32,
    u64,
))
    requires
        1 <= period <= i + 1 <= closes.len(),
        period <= BOLLINGER_MAX_PERIOD,
    ensures
        statistics.0 == mean(window(price_values(closes@), period as int, i as int)),
        statistics.1 == half_width(
            window(price_values(closes@), period as int, i as int),
            width as int,
        ),
        statistics.1 <= 0x2_0000_0000_0000,
{
    let ghost values = price_values(closes@);
    let ghost w = window(values, period as int, i as int);
    let first = i + 1 - period;
    let mut total: u128 = 0;
    let mut squares: u128 = 0;
    let mut j: usize = first;
    while j <= i
        invariant
            1 <= period <= i + 1 <= closes.len(),
            period <= BOLLINGER_MAX_PERIOD,
            first == i + 1 - period,
            first <= j <= i + 1,
            values == price_values(closes@),
            w == window(values, period as int, i as int),
            total == sum(w.take(j - first)),
            squares == sum_of_squares(w.take(j - first)),
        decreases i + 1 - j,
    {
        proof {
            let before = w.take(j - first);
            let v = values[j as int];
            assert(w.take(j - first + 1) == before.push(v));
            assert(before.push(v).drop_last() == before);
            lemma_sum_push(before, v);
            lemma_sum_bounds(before, 0, PRICE_MAX as int);
            lemma_sum_of_squares_bounds(before);
            assert(before.len() * PRICE_MAX <= 0xffff_ffff * PRICE_MAX) by (nonlinear_arith)
                requires
                    0 <= before.len() <= 0xffff_ffff,
            ;
            assert(before.len() * (PRICE_MAX * PRICE_MAX) <= 0xffff_ffff * (PRICE_MAX * PRICE_MAX))
                by (nonlinear_arith)
                requires
                    0 <= before.len() <= 0xffff_ffff,
            ;
            assert(v * v <= PRICE_MAX * PRICE_MAX) by (nonlinear_arith)
                requires
                    0 <= v <= PRICE_MAX,
            ;
        }
        let close = closes[j] as u128;
        total = total + close;
        squares = squares + close * close;
        j += 1;
    }
    let n: u128 = period as u128;
    assert(width * width <= 0xffff * 0xffff) by (nonlinear_arith)
        requires
            0 <= width <= 0xffff,
    ;
    let w2: u128 = width as u128 * width as u128;
    proof {
        assert(w.take(period as int) == w);
        lemma_mean_bounds(w, 0, PRICE_MAX as int);
        lemma_sum_bounds(w, 0, PRICE_MAX as int);
        lemma_sum_of_squares_bounds(w);
        lemma_spread_from_sums(w);
        let big = PRICE_MAX * PRICE_MAX;
        assert(n * squares <= n * n * big && n * n * big <= 0xffff_ffff * 0xffff_ffff * big) by (nonlinear_arith)
            requires
                1 <= n <= 0xffff_ffff,
                0 <= squares <= n * big,
                big >= 0,
        ;
        assert(total * total <= n * n * big) by (nonlinear_arith)
            requires
                0 <= total <= n * PRICE_MAX,
                big == PRICE_MAX * PRICE_MAX,
                n >= 1,
        ;
        assert(n * (n * squares - total * total) >= 0 ==> n * squares - total * total >= 0)
            by (nonlinear_arith)
            requires
                n >= 1,
        ;
        assert(n * n <= 0xffff_ffff * 0xffff_ffff) by (nonlinear_arith)
            requires
                1 <= n <= 0xffff_ffff,
        ;
        assert(w2 <= 0xffff * 0xffff) by (nonlinear_arith)
            requires
                w2 == width * width,
                0 <= width <= 0xffff,
        ;
    }
    let center: u32 = (total / n) as u32;
    let rest: u128 = n * squares - total * total;
    let scale: u128 = (WIDTH_PARTS as u128 * WIDTH_PARTS as u128) * (n * n);
    assert(scale >= 10000) by (nonlinear_arith)
        requires
            scale == 10000 * (n * n),
            n >= 1,
    ;
    let whole = rest / scale;
    let part = rest % scale;
    proof {
        let big = PRICE_MAX * PRICE_MAX;
        assert(scale * 0 <= rest <= scale * big) by (nonlinear_arith)
            requires
                0 <= rest <= n * n * big,
                scale == 10000 * (n * n),
                n >= 1,
                big >= 0,
        ;
        lemma_quotient_bounds(rest as int, scale as int, 0, big);
        assert(w2 * whole <= 0xffff * 0xffff * big) by (nonlinear_arith)
            requires
                0 <= w2 <= 0xffff * 0xffff,
                0 <= whole <= big,
        ;
        assert(w2 * part <= 0xffff * 0xffff * scale) by (nonlinear_arith)
            requires
                0 <= w2 <= 0xffff * 0xffff,
                0 <= part < scale,
        ;
        assert(scale <= 10000 * (0xffff_ffff * 0xffff_ffff));
    }
    let under: u128 = w2 * whole + (w2 * part) / scale;
    proof {
        // `under` is `width * width * rest / scale`, which is the quotient
        // under the root.
        vstd::arithmetic::div_mod::lemma_fundamental_div_mod(rest as int, scale as int);
        assert(w2 * rest == (w2 * whole) * scale + w2 * part) by (nonlinear_arith)
            requires
                rest == scale * whole + part,
        ;
        vstd::arithmetic::div_mod::lemma_hoist_over_denominator(
            (w2 * part) as int,
            (w2 * whole) as int,
            scale as nat,
        );
        assert(under == (w2 * rest) / (scale as int));
        assert(width * width * spread(w) == n * (w2 * rest)) by (nonlinear_arith)
            requires
                spread(w) == n * rest,
                w2 == width * width,
        ;
        assert(WIDTH_PARTS * WIDTH_PARTS * (n * n * n) == n * scale) by (nonlinear_arith)
            requires
                scale == 10000 * (n * n),
        ;
        vstd::arithmetic::div_mod::lemma_div_multiples_vanish_quotient(
            n as int,
            (w2 * rest) as int,
            scale as int,
        );
        assert((w2 * part) / (scale as int) <= w2) by {
            assert(scale * 0 <= w2 * part <= scale * w2) by (nonlinear_arith)
                requires
                    0 <= w2,
                    0 <= part < scale,
            ;
            lemma_quotient_bounds((w2 * part) as int, scale as int, 0, w2 as int);
        }
        assert(under < 0x4_0000_0000_0000_0000_0000_0000);
    }
    let half = integer_sqrt(under);
    assert(half <= 0x2_0000_0000_0000) by (nonlinear_arith)
        requires
            0 <= half,
            half * half <= under,
            under < 0x4_0000_0000_0000_0000_0000_0000,
    ;
    (center, half)
}

/// Computes the Bollinger bands of the closing prices over `period` bars,
/// the outer bands `width` hundredths of a standard deviation from the
/// middle one.
pub fn bollinger_series(closes: &Vec<u32>, period: usize, width: u16) -> (series: BollingerSeries)
    ensures
        series.upper.len() == closes.len(),
        series.middle.len() == closes.len(),
        series.lower.len() == closes.len(),
        indicator_values(series.upper@) == bollinger_upper(
            price_values(closes@),
            period as int,
            width as int,
        ),
        indicator_values(series.middle@) == bollinger_middle(price_values(closes@), period as int),
        indicator_values(series.lower@) == bollinger_lower(
            price_values(closes@),
            period as int,
            width as int,
        ),
{
    let n = closes.len();
    let ghost values = price_values(closes@);
    let mut upper: Vec<Option<i64>> = Vec::new();
    let mut middle: Vec<Option<i64>> = Vec::new();
    let mut lower: Vec<Option<i64>> = Vec::new();
    let mut i: usize = 0;
    while i < n
        invariant
            i <= n,
            n == closes.len(),
            values == price_values(closes@),
            upper.len() == i,
            middle.len() == i,
            lower.len() == i,
            forall|k: int|
                0 <= k < i ==> indicator_values(upper@)[k] == (#[trigger] bollinger_upper(
                    values,
                    period as int,
                    width as int,
                )[k]),
            forall|k: int|
                0 <= k < i ==> indicator_values(middle@)[k] == (#[trigger] bollinger_middle(
                    values,
                    period as int,
                )[k]),
            forall|k: int|
                0 <= k < i ==> indicator_values(lower@)[k] == (#[trigger] bollinger_lower(
                    values,
                    period as int,
                    width as int,
                )[k]),
        decreases n - i,
    {
        if period >= 1 && period <= BOLLINGER_MAX_PERIOD && i + 1 >= period {
            let (center, half) = window_statistics(closes, period, width, i);
            upper.push(Some(center as i64 + half as i64));
            middle.push(Some(center as i64));
            lower.push(Some(center as i64 - half as i64));
        } else {
            upper.push(None);
            middle.push(None);
            lower.push(None);
        }
        i += 1;
    }
    assert(indicator_values(upper@) =~= bollinger_upper(values, period as int, width as int));
    assert(indicator_values(middle@) =~= bollinger_middle(values, period as int));
    assert(indicator_values(lower@) =~= bollinger_lower(values, period as int, width as int));
    BollingerSeries { upper, middle, lower }
}

} // verus!
