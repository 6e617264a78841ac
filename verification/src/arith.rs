//! Integer arithmetic that the indicators share: sums and means of
//! sequences, division that rounds down, the integer square root.
//!
//! In what follows `a / b` with a positive `b` is the quotient rounded down
//! to the next integer, for negative `a` too.

use vstd::arithmetic::div_mod::lemma_fundamental_div_mod_converse;
use vstd::prelude::*;

verus! {

/// The largest price, as an integer.
pub const PRICE_MAX: u32 = 0xffff_ffff;

/// The sum of the values.
pub open spec fn sum(values: Seq<int>) -> int
    decreases values.len(),
{
    if values.len() == 0 {
        0
    } else {
        sum(values.drop_last()) + values.last()
    }
}

/// The mean of the values, rounded down.
pub open spec fn mean(values: Seq<int>) -> int {
    sum(values) / (values.len() as int)
}

/// Whether `root` is the square root of `value`, rounded down.
pub open spec fn is_floor_sqrt(value: int, root: int) -> bool {
    0 <= root && root * root <= value < (root + 1) * (root + 1)
}

/// The square root of `value`, rounded down.
pub open spec fn floor_sqrt(value: int) -> int {
    choose|root: int| is_floor_sqrt(value, root)
}

/// What a sequence of prices holds, as integers.
pub open spec fn price_values(prices: Seq<u32>) -> Seq<int> {
    Seq::new(prices.len(), |i: int| prices[i] as int)
}

/// What a sequence of indicator values holds, as integers.
pub open spec fn indicator_values(series: Seq<Option<i64>>) -> Seq<Option<int>> {
    Seq::new(
        series.len(),
        |i: int|
            match series[i] {
                Some(v) => Some(v as int),
                None => None,
            },
    )
}

/// A sum grows by the value that is appended.
pub proof fn lemma_sum_push(values: Seq<int>, value: int)
    ensures
        sum(values.push(value)) == sum(values) + value,
{
    assert(values.push(value).drop_last() == values);
}

/// A sum is its first value plus the sum of the rest.
pub proof fn lemma_sum_drop_first(values: Seq<int>)
    requires
        values.len() > 0,
    ensures
        sum(values) == values[0] + sum(values.drop_first()),
    decreases values.len(),
{
    if values.len() == 1 {
        assert(sum(values.drop_last()) == 0);
        assert(sum(values.drop_first()) == 0);
    } else {
        lemma_sum_drop_first(values.drop_last());
        assert(values.drop_last().drop_first() == values.drop_first().drop_last());
        assert(values.drop_first().last() == values.last());
        assert(values.drop_last()[0] == values[0]);
        assert(sum(values.drop_first()) == sum(values.drop_first().drop_last())
            + values.drop_first().last());
    }
}

/// The sum of values between two bounds lies between the bounds times the
/// number of values.
pub proof fn lemma_sum_bounds(values: Seq<int>, low: int, high: int)
    requires
        forall|i: int| 0 <= i < values.len() ==> low <= (#[trigger] values[i]) && values[i] <= high,
    ensures
        values.len() * low <= sum(values) <= values.len() * high,
    decreases values.len(),
{
    if values.len() > 0 {
        lemma_sum_bounds(values.drop_last(), low, high);
        assert(values.len() * low == (values.len() - 1) * low + low) by (nonlinear_arith);
        assert(values.len() * high == (values.len() - 1) * high + high) by (nonlinear_arith);
    } else {
        assert(values.len() * low == 0) by (nonlinear_arith)
            requires
                values.len() == 0,
        ;
        assert(values.len() * high == 0) by (nonlinear_arith)
            requires
                values.len() == 0,
        ;
    }
}

/// A quotient lies between two bounds if the dividend lies between the
/// bounds times the divisor.
pub proof fn lemma_quotient_bounds(dividend: int, divisor: int, low: int, high: int)
    requires
        divisor > 0,
        divisor * low <= dividend <= divisor * high,
    ensures
        low <= dividend / divisor <= high,
{
    let q = dividend / divisor;
    assert(dividend == q * divisor + dividend % divisor && 0 <= dividend % divisor < divisor) by {
        vstd::arithmetic::div_mod::lemma_fundamental_div_mod(dividend, divisor);
    }
    assert(low <= q) by (nonlinear_arith)
        requires
            divisor > 0,
            divisor * low <= dividend,
            dividend < q * divisor + divisor,
    ;
    assert(q <= high) by (nonlinear_arith)
        requires
            divisor > 0,
            dividend <= divisor * high,
            q * divisor <= dividend,
    ;
}

/// The mean of values between two bounds lies between the bounds.
pub proof fn lemma_mean_bounds(values: Seq<int>, low: int, high: int)
    requires
        values.len() > 0,
        forall|i: int| 0 <= i < values.len() ==> low <= (#[trigger] values[i]) && values[i] <= high,
    ensures
        low <= mean(values) <= high,
{
    lemma_sum_bounds(values, low, high);
    lemma_quotient_bounds(sum(values), values.len() as int, low, high);
}

/// The mean of equal values is that value.
pub proof fn lemma_mean_of_constant(values: Seq<int>, value: int)
    requires
        values.len() > 0,
        forall|i: int| 0 <= i < values.len() ==> (#[trigger] values[i]) == value,
    ensures
        mean(values) == value,
{
    lemma_mean_bounds(values, value, value);
}

/// What rounding down costs a weighted average that is carried from step to
/// step. A value `x` stands for the exact fraction `n / d` and lies below it
/// by less than `m / (m - a)`. The next value is `(x * a + b) / m`, rounded
/// down, for the exact `(n * a + b * d) / (d * m)`. It lies below the exact
/// fraction again, and by less than `m / (m - a)` again.
pub proof fn lemma_weighted_step_error(x: int, n: int, d: int, a: int, b: int, m: int)
    requires
        0 <= a < m,
        d > 0,
        0 <= n - x * d,
        (m - a) * (n - x * d) < m * d,
    ensures
        ({
            let next = (x * a + b) / m;
            let exact = n * a + b * d;
            0 <= exact - next * (d * m) && (m - a) * (exact - next * (d * m)) < m * (d * m)
        }),
{
    let next = (x * a + b) / m;
    let rest = (x * a + b) % m;
    let gap = n - x * d;
    vstd::arithmetic::div_mod::lemma_fundamental_div_mod(x * a + b, m);
    assert(n * a + b * d - next * (d * m) == a * gap + d * rest) by (nonlinear_arith)
        requires
            x * a + b == m * next + rest,
            gap == n - x * d,
    ;
    assert(0 <= a * gap + d * rest) by (nonlinear_arith)
        requires
            0 <= a,
            0 <= gap,
            0 < d,
            0 <= rest,
    ;
    assert((m - a) * (a * gap + d * rest) < m * (d * m)) by (nonlinear_arith)
        requires
            0 <= a < m,
            d > 0,
            0 <= gap,
            (m - a) * gap <= m * d - 1,
            0 <= rest <= m - 1,
    ;
}

/// A number has one square root rounded down.
pub proof fn lemma_floor_sqrt_unique(value: int, first: int, second: int)
    requires
        is_floor_sqrt(value, first),
        is_floor_sqrt(value, second),
    ensures
        first == second,
{
    assert(first == second) by (nonlinear_arith)
        requires
            0 <= first,
            0 <= second,
            first * first <= value < (first + 1) * (first + 1),
            second * second <= value < (second + 1) * (second + 1),
    ;
}

/// A number that is not negative has a square root rounded down.
pub proof fn lemma_floor_sqrt_exists(value: int)
    requires
        value >= 0,
    ensures
        is_floor_sqrt(value, floor_sqrt(value)),
    decreases value,
{
    if value == 0 {
        assert(is_floor_sqrt(0, 0));
    } else {
        lemma_floor_sqrt_exists(value - 1);
        let below = floor_sqrt(value - 1);
        if (below + 1) * (below + 1) <= value {
            assert(is_floor_sqrt(value, below + 1)) by (nonlinear_arith)
                requires
                    0 <= below,
                    value - 1 < (below + 1) * (below + 1),
                    (below + 1) * (below + 1) <= value,
            ;
        } else {
            assert(is_floor_sqrt(value, below));
        }
    }
}

/// Divides and rounds down.
pub(crate) fn div_floor(dividend: i128, divisor: i128) -> (quotient: i128)
    requires
        divisor > 0,
        dividend > i128::MIN,
    ensures
        quotient == dividend / divisor,
{
    if dividend >= 0 {
        dividend / divisor
    } else {
        let magnitude = -dividend;
        let whole = magnitude / divisor;
        let rest = magnitude % divisor;
        proof {
            let d = divisor as int;
            vstd::arithmetic::div_mod::lemma_fundamental_div_mod(magnitude as int, d);
            if rest == 0 {
                assert(dividend == (-whole) * d + 0) by (nonlinear_arith)
                    requires
                        magnitude == d * whole + rest,
                        magnitude == -dividend,
                        rest == 0,
                ;
                lemma_fundamental_div_mod_converse(dividend as int, d, -whole, 0);
            } else {
                assert(dividend == (-whole - 1) * d + (d - rest)) by (nonlinear_arith)
                    requires
                        magnitude == d * whole + rest,
                        magnitude == -dividend,
                ;
                lemma_fundamental_div_mod_converse(dividend as int, d, -whole - 1, d - rest);
            }
        }
        if rest == 0 {
            -whole
        } else {
            -whole - 1
        }
    }
}

/// The square root of `value`, rounded down.
pub fn integer_sqrt(value: u128) -> (root: u64)
    ensures
        is_floor_sqrt(value as int, root as int),
        root == floor_sqrt(value as int),
{
    let mut low: u128 = 0;
    let mut high: u128 = 0x1_0000_0000_0000_0000;
    assert(high * high > value) by (nonlinear_arith)
        requires
            high == 0x1_0000_0000_0000_0000,
            value <= u128::MAX,
    ;
    assert(low * low <= value) by (nonlinear_arith)
        requires
            low == 0,
            value >= 0,
    ;
    while high - low > 1
        invariant
            low < high <= 0x1_0000_0000_0000_0000,
            low * low <= value < high * high,
        decreases high - low,
    {
        let middle = low + (high - low) / 2;
        assert(middle * middle <= 0xffff_ffff_ffff_ffff * 0xffff_ffff_ffff_ffff) by (nonlinear_arith)
            requires
                0 <= middle <= 0xffff_ffff_ffff_ffff,
        ;
        if middle * middle <= value {
            low = middle;
        } else {
            high = middle;
        }
    }
    proof {
        assert(high == low + 1);
        assert(is_floor_sqrt(value as int, low as int));
        lemma_floor_sqrt_unique(value as int, low as int, floor_sqrt(value as int));
    }
    low as u64
}

} // verus!
