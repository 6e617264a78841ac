//! Laws that hold of the resamplings and of the indicators, for every
//! series.

use crate::arith::{lemma_mean_of_constant, mean, sum, PRICE_MAX};
use crate::bollinger::{
    bollinger_lower, bollinger_middle, bollinger_upper, half_width, has_bands,
    lemma_half_width_is_root, spread, BOLLINGER_MAX_PERIOD, WIDTH_PARTS,
};
use crate::date::{
    date_of_label, lemma_date_of_label_wf, lemma_day_numbers_order_dates, lemma_first_dash,
    number_field, read_label, DateKey, DateLabelError,
};
use crate::ema::{
    carried_at, ema, ema_at, exact_of, in_parts, lemma_carried_is_close, lemma_ema_bounds,
    lemma_ema_starts_at_mean, EMA_MAX_PERIOD, EMA_PARTS,
};
use crate::indicators::{
    has_bands_written, has_ema_written, has_rsi_written, has_sma_written, is_enriched,
};
use crate::macd::{
    macd_at, macd_histogram, macd_line, macd_signal, macd_values, signal_at, MACD_FAST,
    MACD_SIGNAL, MACD_SIGNAL_START, MACD_SLOW,
};
use crate::models::{bucket_views, ConsolidatedData, DailyData, HistoricalData, TimeFrame};
use crate::range::{date_label, year_label, zero_padded};
use crate::resample::{
    aggregate, bar_date, bar_dates, buckets_of, dated_bars, day_bucket, grouped_from, highest,
    is_resampling, lowest, run_end, same_bucket, sorted_bars, value_sum, volume_sum, DatedBar,
};
use crate::rsi::{
    average_at, average_is_zero, exact_average_at, gains, lemma_average_is_close,
    lemma_average_of_nothing,
    is_within_a_part, lemma_rsi_is_exact, lemma_rsi_is_nearest, lemma_rsi_stays_in_range,
    lemma_rsi_without_loss, losses, rsi, rsi_of, AVERAGE_PARTS, RSI_EXACT_PERIOD,
    RSI_MAX_PERIOD, RSI_SCALE, RSI_WITHOUT_LOSS,
};
use crate::sma::{has_window, sma, window};
use crate::sorting::{
    in_ascending_order, key_before, lemma_ascending_keys_stay, lemma_keys_compare,
    lemma_stable_order_is_stable, stable_order,
};
use crate::text::{
    all_digits, decimal, digits_value, is_digit, lemma_decimal_writes_the_number,
    lemma_leading_zeros,
};
use vstd::prelude::*;

verus! {

/// The series in ascending order has every bar of the series, and as many.
pub proof fn law_sorting_keeps_the_bars(bars: Seq<DailyData>)
    requires
        bars.len() <= usize::MAX,
    ensures
        sorted_bars(bars).len() == bars.len(),
        forall|i: int| 0 <= i < bars.len() ==> sorted_bars(bars).contains(#[trigger] bars[i]),
        forall|a: int|
            0 <= a < bars.len() ==> bars.contains(#[trigger] sorted_bars(bars)[a]),
{
    let keys = bar_dates(bars);
    let order = stable_order(keys);
    lemma_stable_order_is_stable(keys);
    assert forall|i: int| 0 <= i < bars.len() implies sorted_bars(bars).contains(
        #[trigger] bars[i],
    ) by {
        assert(order.contains(i as usize));
        let a = choose|a: int| 0 <= a < order.len() && order[a] == i as usize;
        assert(sorted_bars(bars)[a] == bars[i]);
    }
    assert forall|a: int| 0 <= a < bars.len() implies bars.contains(
        #[trigger] sorted_bars(bars)[a],
    ) by {
        assert(sorted_bars(bars)[a] == bars[order[a] as int]);
    }
}

/// The sorted series is in ascending order of date: no bar has a date that
/// comes before the date of a bar in front of it, and the bars without a
/// date stand in front of all others.
pub proof fn law_sorted_series_is_ascending(bars: Seq<DailyData>)
    requires
        bars.len() <= usize::MAX,
    ensures
        in_ascending_order(bar_dates(sorted_bars(bars))),
{
    let keys = bar_dates(bars);
    let order = stable_order(keys);
    let sorted = sorted_bars(bars);
    lemma_stable_order_is_stable(keys);
    assert forall|i: int, j: int| 0 <= i < j < sorted.len() implies !key_before(
        bar_dates(sorted)[j],
        bar_dates(sorted)[i],
    ) by {
        assert(sorted[i] == bars[order[i] as int]);
        assert(sorted[j] == bars[order[j] as int]);
        assert(crate::sorting::comes_before(keys, order[i] as int, order[j] as int));
        lemma_keys_compare(keys[order[i] as int], keys[order[j] as int]);
    }
}

/// A series that is in ascending order of date already is its own sorted
/// series.
pub proof fn law_sorted_series_stays(bars: Seq<DailyData>)
    requires
        bars.len() <= usize::MAX,
        in_ascending_order(bar_dates(bars)),
    ensures
        sorted_bars(bars) == bars,
{
    lemma_ascending_keys_stay(bar_dates(bars));
    assert(sorted_bars(bars) =~= bars);
}

/// The daily resampling is the series in ascending order of date, bar by
/// bar: as many buckets as bars, each with the label, the prices, the volume
/// and the value of the bar at its position.
pub proof fn law_daily_resampling_is_identity(source: HistoricalData, out: ConsolidatedData)
    requires
        is_resampling(out, source, TimeFrame::Daily),
    ensures
        out.data.len() == source.data.len(),
        forall|i: int|
            0 <= i < out.data.len() ==> (#[trigger] out.data[i])@ == day_bucket(
                sorted_bars(source.data@)[i],
            ),
{
    assert(source.data@.len() == source.data.len());
    law_sorting_keeps_the_bars(source.data@);
    let sorted = sorted_bars(source.data@);
    assert(bucket_views(out.data@).len() == buckets_of(sorted, TimeFrame::Daily).len());
    assert forall|i: int| 0 <= i < out.data.len() implies (#[trigger] out.data[i])@ == day_bucket(
        sorted[i],
    ) by {
        assert(bucket_views(out.data@)[i] == buckets_of(sorted, TimeFrame::Daily)[i]);
    }
}

/// Resampling the same series twice gives the same buckets, the same range
/// of days and the same labels both times.
pub proof fn law_resampling_is_repeatable(
    source: HistoricalData,
    frame: TimeFrame,
    first: ConsolidatedData,
    second: ConsolidatedData,
)
    requires
        is_resampling(first, source, frame),
        is_resampling(second, source, frame),
    ensures
        first.symbol@ == second.symbol@,
        first.time_frame@ == second.time_frame@,
        first.from_date@ == second.from_date@,
        first.to_date@ == second.to_date@,
        bucket_views(first.data@) == bucket_views(second.data@),
        first.indicators == second.indicators,
{
}

/// The daily resampling of a series that is in ascending order of date
/// already has the bars of the series as its buckets, in their order.
pub proof fn law_daily_resampling_of_sorted_series(source: HistoricalData, out: ConsolidatedData)
    requires
        in_ascending_order(bar_dates(source.data@)),
        is_resampling(out, source, TimeFrame::Daily),
    ensures
        out.data.len() == source.data.len(),
        forall|i: int|
            0 <= i < out.data.len() ==> (#[trigger] out.data[i])@ == day_bucket(source.data[i]),
{
    assert(source.data@.len() == source.data.len());
    law_sorted_series_stays(source.data@);
    law_daily_resampling_is_identity(source, out);
}

/// The positions at which the run of bucket `k` starts and ends, counted
/// from the run that starts at `start`.
pub open spec fn run_bounds(frame: TimeFrame, series: Seq<DatedBar>, start: int, k: int) -> (int, int)
    decreases k,
{
    let end = run_end(frame, series, start, start + 1);
    if k <= 0 {
        (start, end)
    } else {
        run_bounds(frame, series, end, k - 1)
    }
}

/// Bucket `k` of the buckets from `start` on is the bucket of a run of bars
/// that follow each other in the series.
pub proof fn lemma_bucket_of_run(frame: TimeFrame, series: Seq<DatedBar>, start: int, k: int)
    requires
        0 <= start,
        0 <= k < grouped_from(frame, series, start).len(),
    ensures
        ({
            let (first, end) = run_bounds(frame, series, start, k);
            &&& start <= first < end <= series.len()
            &&& end == run_end(frame, series, first, first + 1)
            &&& grouped_from(frame, series, start)[k] == aggregate(
                frame,
                series.subrange(first, end),
            )
        }),
    decreases k,
{
    let end = run_end(frame, series, start, start + 1);
    if k > 0 {
        assert(grouped_from(frame, series, start)[k] == grouped_from(frame, series, end)[k - 1]);
        lemma_bucket_of_run(frame, series, end, k - 1);
    }
}

/// The highest of a run is the high of one of its bars, and no bar's high
/// lies above it.
pub proof fn law_highest_is_maximum(run: Seq<DatedBar>)
    requires
        run.len() > 0,
    ensures
        forall|j: int| 0 <= j < run.len() ==> (#[trigger] run[j]).bar.high <= highest(run),
        exists|j: int| 0 <= j < run.len() && (#[trigger] run[j]).bar.high == highest(run),
    decreases run.len(),
{
    if run.len() > 1 {
        let before = run.drop_last();
        law_highest_is_maximum(before);
        assert forall|j: int| 0 <= j < run.len() implies (#[trigger] run[j]).bar.high <= highest(
            run,
        ) by {
            if j < run.len() - 1 {
                assert(before[j] == run[j]);
            }
        }
        if run.last().bar.high > highest(before) {
            assert(run[run.len() - 1].bar.high == highest(run));
        } else {
            let j = choose|j: int| 0 <= j < before.len() && (#[trigger] before[j]).bar.high
                == highest(before);
            assert(run[j].bar.high == highest(run));
        }
    } else {
        assert(run[0].bar.high == highest(run));
    }
}

/// The lowest of a run is the low of one of its bars, and no bar's low lies
/// below it.
pub proof fn law_lowest_is_minimum(run: Seq<DatedBar>)
    requires
        run.len() > 0,
    ensures
        forall|j: int| 0 <= j < run.len() ==> (#[trigger] run[j]).bar.low >= lowest(run),
        exists|j: int| 0 <= j < run.len() && (#[trigger] run[j]).bar.low == lowest(run),
    decreases run.len(),
{
    if run.len() > 1 {
        let before = run.drop_last();
        law_lowest_is_minimum(before);
        assert forall|j: int| 0 <= j < run.len() implies (#[trigger] run[j]).bar.low >= lowest(
            run,
        ) by {
            if j < run.len() - 1 {
                assert(before[j] == run[j]);
            }
        }
        if run.last().bar.low < lowest(before) {
            assert(run[run.len() - 1].bar.low == lowest(run));
        } else {
            let j = choose|j: int| 0 <= j < before.len() && (#[trigger] before[j]).bar.low
                == lowest(before);
            assert(run[j].bar.low == lowest(run));
        }
    } else {
        assert(run[0].bar.low == lowest(run));
    }
}

/// Every weekly or monthly bucket stands for a run of bars that follow each
/// other in the series of dated bars. It opens at the open of the run's
/// first bar and closes at the close of its last. Its high is the highest
/// high and its low the lowest low of the run's bars, and its volume and its
/// value are the sums of theirs.
pub proof fn law_bucket_aggregates_its_run(frame: TimeFrame, series: Seq<DatedBar>, k: int)
    requires
        0 <= k < grouped_from(frame, series, 0).len(),
    ensures
        ({
            let bucket = grouped_from(frame, series, 0)[k];
            let (first, end) = run_bounds(frame, series, 0, k);
            let run = series.subrange(first, end);
            &&& 0 <= first < end <= series.len()
            &&& bucket.open == series[first].bar.open
            &&& bucket.close == series[end - 1].bar.close
            &&& forall|j: int| first <= j < end ==> (#[trigger] series[j]).bar.high <= bucket.high
            &&& exists|j: int| first <= j < end && (#[trigger] series[j]).bar.high == bucket.high
            &&& forall|j: int| first <= j < end ==> (#[trigger] series[j]).bar.low >= bucket.low
            &&& exists|j: int| first <= j < end && (#[trigger] series[j]).bar.low == bucket.low
            &&& bucket.volume == volume_sum(run)
            &&& bucket.value == value_sum(run)
        }),
{
    lemma_bucket_of_run(frame, series, 0, k);
    let bucket = grouped_from(frame, series, 0)[k];
    let (first, end) = run_bounds(frame, series, 0, k);
    let run = series.subrange(first, end);
    law_highest_is_maximum(run);
    law_lowest_is_minimum(run);
    assert(run[0] == series[first]);
    assert(run.last() == series[end - 1]);
    assert forall|j: int| first <= j < end implies (#[trigger] series[j]).bar.high
        <= bucket.high by {
        assert(run[j - first] == series[j]);
    }
    assert forall|j: int| first <= j < end implies (#[trigger] series[j]).bar.low
        >= bucket.low by {
        assert(run[j - first] == series[j]);
    }
    let h = choose|j: int| 0 <= j < run.len() && (#[trigger] run[j]).bar.high == highest(run);
    assert(series[first + h] == run[h]);
    let l = choose|j: int| 0 <= j < run.len() && (#[trigger] run[j]).bar.low == lowest(run);
    assert(series[first + l] == run[l]);
}

/// A bucket of bars that each open and close between their low and their
/// high opens and closes between its low and its high.
pub proof fn law_bucket_keeps_price_order(frame: TimeFrame, series: Seq<DatedBar>, k: int)
    requires
        0 <= k < grouped_from(frame, series, 0).len(),
        forall|j: int|
            0 <= j < series.len() ==> {
                let bar = (#[trigger] series[j]).bar;
                bar.low <= bar.open <= bar.high && bar.low <= bar.close <= bar.high
            },
    ensures
        ({
            let bucket = grouped_from(frame, series, 0)[k];
            bucket.low <= bucket.open <= bucket.high && bucket.low <= bucket.close <= bucket.high
        }),
{
    law_bucket_aggregates_its_run(frame, series, k);
    let (first, end) = run_bounds(frame, series, 0, k);
    assert(series[first].bar.low <= series[first].bar.open <= series[first].bar.high);
    assert(series[end - 1].bar.low <= series[end - 1].bar.close <= series[end - 1].bar.high);
}

/// Whether the bars of the run of bucket `k` belong together and the bar
/// after them does not: every bar of the run is of the bucket that the
/// run's first bar starts, and the bar that follows the run, if there is
/// one, is not.
pub open spec fn is_whole_run(frame: TimeFrame, series: Seq<DatedBar>, first: int, end: int) -> bool {
    &&& forall|j: int|
        first < j < end ==> same_bucket(frame, series[first].date, (#[trigger] series[j]).date)
    &&& end < series.len() ==> !same_bucket(frame, series[first].date, series[end].date)
}

proof fn lemma_run_is_whole(frame: TimeFrame, series: Seq<DatedBar>, first: int, at: int)
    requires
        0 <= first < at <= series.len(),
        forall|j: int|
            first < j < at ==> same_bucket(frame, series[first].date, (#[trigger] series[j]).date),
    ensures
        is_whole_run(frame, series, first, run_end(frame, series, first, at)),
    decreases series.len() - at,
{
    if at < series.len() && same_bucket(frame, series[first].date, series[at].date) {
        lemma_run_is_whole(frame, series, first, at + 1);
    }
}

/// The run of a bucket holds the bars that belong to the bucket of its first
/// bar, up to the first bar that does not: in a weekly run every bar lies
/// less than seven days after the first, and the bar that follows the run
/// lies seven days or more after it.
pub proof fn law_run_ends_at_first_bar_of_next_bucket(
    frame: TimeFrame,
    series: Seq<DatedBar>,
    k: int,
)
    requires
        0 <= k < grouped_from(frame, series, 0).len(),
    ensures
        ({
            let (first, end) = run_bounds(frame, series, 0, k);
            is_whole_run(frame, series, first, end)
        }),
{
    lemma_bucket_of_run(frame, series, 0, k);
    let (first, end) = run_bounds(frame, series, 0, k);
    lemma_run_is_whole(frame, series, first, first + 1);
}

/// Whether the dates of the bars exist in the calendar and none comes before
/// the date of a bar in front of it.
pub open spec fn dates_ascend(series: Seq<DatedBar>) -> bool {
    &&& forall|j: int| 0 <= j < series.len() ==> (#[trigger] series[j]).date.wf()
    &&& forall|i: int, j: int|
        0 <= i < j < series.len() ==> !(#[trigger] series[j]).date.precedes(
            (#[trigger] series[i]).date,
        )
}

/// The dated bars of a series in ascending order of date have dates that
/// exist in the calendar and ascend.
pub proof fn law_dated_bars_ascend(bars: Seq<DailyData>)
    requires
        in_ascending_order(bar_dates(bars)),
    ensures
        dates_ascend(dated_bars(bars)),
        forall|p: int|
            0 <= p < dated_bars(bars).len() ==> exists|i: int|
                0 <= i < bars.len() && bars[i] == (#[trigger] dated_bars(bars)[p]).bar && bar_date(
                    bars[i],
                ) == Some(dated_bars(bars)[p].date),
    decreases bars.len(),
{
    if bars.len() > 0 {
        let before = bars.drop_last();
        assert forall|i: int, j: int| 0 <= i < j < before.len() implies !key_before(
            bar_dates(before)[j],
            bar_dates(before)[i],
        ) by {
            assert(!key_before(bar_dates(bars)[j], bar_dates(bars)[i]));
        }
        law_dated_bars_ascend(before);
        let dated = dated_bars(bars);
        let earlier = dated_bars(before);
        lemma_date_of_label_wf(bars.last().timestamp@);
        assert forall|p: int| 0 <= p < dated.len() implies exists|i: int|
            0 <= i < bars.len() && bars[i] == (#[trigger] dated[p]).bar && bar_date(bars[i])
                == Some(dated[p].date) by {
            if p < earlier.len() {
                assert(dated[p] == earlier[p]);
                let i = choose|i: int|
                    0 <= i < before.len() && before[i] == earlier[p].bar && bar_date(before[i])
                        == Some(earlier[p].date);
                assert(bars[i] == before[i]);
            } else {
                assert(bars[bars.len() - 1] == dated[p].bar);
            }
        }
        assert forall|i: int, j: int| 0 <= i < j < dated.len() implies !(#[trigger] dated[j]).date.precedes(
            (#[trigger] dated[i]).date,
        ) by {
            assert(dated[i] == earlier[i]);
            if j < earlier.len() {
                assert(dated[j] == earlier[j]);
            } else {
                let k = choose|k: int|
                    0 <= k < before.len() && before[k] == earlier[i].bar && bar_date(before[k])
                        == Some(earlier[i].date);
                assert(bars[k] == before[k]);
                assert(!key_before(bar_dates(bars)[bars.len() - 1], bar_dates(bars)[k]));
            }
        }
        assert forall|j: int| 0 <= j < dated.len() implies (#[trigger] dated[j]).date.wf() by {
            if j < earlier.len() {
                assert(dated[j] == earlier[j]);
            }
        }
    }
}

/// In a series whose dates ascend, every bar of a weekly bucket lies on the
/// day of the bucket's first bar or on one of the six days after it, and
/// the bar that follows the bucket lies seven days or more after that day.
pub proof fn law_weekly_bucket_spans_seven_days(series: Seq<DatedBar>, k: int)
    requires
        dates_ascend(series),
        0 <= k < grouped_from(TimeFrame::Weekly, series, 0).len(),
    ensures
        ({
            let (first, end) = run_bounds(TimeFrame::Weekly, series, 0, k);
            let start = series[first].date.day_number();
            &&& 0 <= first < end <= series.len()
            &&& forall|j: int|
                first <= j < end ==> start <= (#[trigger] series[j]).date.day_number() < start + 7
            &&& end < series.len() ==> series[end].date.day_number() >= start + 7
        }),
{
    let frame = TimeFrame::Weekly;
    lemma_bucket_of_run(frame, series, 0, k);
    law_run_ends_at_first_bar_of_next_bucket(frame, series, k);
    let (first, end) = run_bounds(frame, series, 0, k);
    let start = series[first].date.day_number();
    assert forall|j: int| first <= j < end implies start <= (#[trigger] series[j]).date.day_number()
        < start + 7 by {
        if j > first {
            assert(same_bucket(frame, series[first].date, series[j].date));
            assert(!series[j].date.precedes(series[first].date));
            lemma_day_numbers_order_dates(series[j].date, series[first].date);
        }
    }
}

/// Every bar of a monthly bucket lies in the month and the year of the
/// bucket's first bar, and the bar that follows the bucket does not.
pub proof fn law_monthly_bucket_is_one_month(series: Seq<DatedBar>, k: int)
    requires
        0 <= k < grouped_from(TimeFrame::Monthly, series, 0).len(),
    ensures
        ({
            let (first, end) = run_bounds(TimeFrame::Monthly, series, 0, k);
            let start = series[first].date;
            &&& 0 <= first < end <= series.len()
            &&& forall|j: int|
                first <= j < end ==> (#[trigger] series[j]).date.month == start.month
                    && series[j].date.year == start.year
            &&& end < series.len() ==> series[end].date.month != start.month
                || series[end].date.year != start.year
        }),
{
    let frame = TimeFrame::Monthly;
    lemma_bucket_of_run(frame, series, 0, k);
    law_run_ends_at_first_bar_of_next_bucket(frame, series, k);
    let (first, end) = run_bounds(frame, series, 0, k);
    assert forall|j: int| first <= j < end implies (#[trigger] series[j]).date.month
        == series[first].date.month && series[j].date.year == series[first].date.year by {
        if j > first {
            assert(same_bucket(frame, series[first].date, series[j].date));
        }
    }
}

/// In a series of bars on days that follow each other, the first weekly
/// bucket holds seven bars: the seventh bar still belongs to it, and the
/// eighth starts the next bucket.
pub proof fn law_weekly_bucket_of_consecutive_days(series: Seq<DatedBar>)
    requires
        series.len() >= 8,
        forall|j: int|
            0 <= j < series.len() ==> (#[trigger] series[j]).date.day_number()
                == series[0].date.day_number() + j,
    ensures
        run_end(TimeFrame::Weekly, series, 0, 1) == 7,
        run_bounds(TimeFrame::Weekly, series, 0, 1).0 == 7,
{
    reveal_with_fuel(run_end, 8);
    assert(series[1].date.day_number() == series[0].date.day_number() + 1);
    assert(series[2].date.day_number() == series[0].date.day_number() + 2);
    assert(series[3].date.day_number() == series[0].date.day_number() + 3);
    assert(series[4].date.day_number() == series[0].date.day_number() + 4);
    assert(series[5].date.day_number() == series[0].date.day_number() + 5);
    assert(series[6].date.day_number() == series[0].date.day_number() + 6);
    assert(series[7].date.day_number() == series[0].date.day_number() + 7);
    reveal_with_fuel(run_bounds, 2);
}

/// A number with zeros before it is digits, as many as its width at least,
/// and writes the number.
proof fn lemma_zero_padded_writes_the_number(n: nat, width: nat)
    ensures
        zero_padded(n, width).len() >= 1,
        zero_padded(n, width).len() >= width,
        all_digits(zero_padded(n, width)),
        digits_value(zero_padded(n, width)) == n,
{
    lemma_decimal_writes_the_number(n);
    let digits = decimal(n);
    if digits.len() < width {
        let zeros = (width - digits.len()) as nat;
        lemma_leading_zeros(zeros, digits);
        let padded = Seq::new(zeros, |i: int| '0') + digits;
        assert forall|i: int| 0 <= i < padded.len() implies is_digit(#[trigger] padded[i]) by {
            if i >= zeros {
                assert(padded[i] == digits[i - zeros]);
            }
        }
    }
}

/// The label of a date of year 0 or later spells that date: what
/// `format_date_label` writes, `read_date_label` reads back.
pub proof fn law_label_reads_back(date: DateKey)
    requires
        date.wf(),
        date.year >= 0,
    ensures
        read_label(date_label(date)) == Ok::<DateKey, DateLabelError>(date),
        date_of_label(date_label(date)) == Some(date),
{
    let day = zero_padded(date.day as nat, 2);
    let month = zero_padded(date.month as nat, 2);
    let year = year_label(date.year as int);
    let label = date_label(date);
    lemma_zero_padded_writes_the_number(date.day as nat, 2);
    lemma_zero_padded_writes_the_number(date.month as nat, 2);
    lemma_zero_padded_writes_the_number(date.year as nat, 4);
    lemma_decimal_writes_the_number(date.year as nat);
    let digits = if date.year > 9999 {
        decimal(date.year as nat)
    } else {
        zero_padded(date.year as nat, 4)
    };
    assert(all_digits(digits) && digits.len() >= 1 && digits_value(digits) == date.year);
    if date.year > 9999 {
        assert(year.drop_first() =~= digits);
    } else {
        assert(year == digits);
        assert(is_digit(year[0]));
    }
    assert forall|t: int| 0 <= t < year.len() implies year[t] != '-' by {
        if date.year > 9999 {
            if t > 0 {
                assert(year[t] == digits[t - 1]);
                assert(is_digit(digits[t - 1]));
            }
        } else {
            assert(is_digit(digits[t]));
        }
    }
    let i = day.len() as int;
    assert forall|t: int| 0 <= t < i implies label[t] != '-' by {
        assert(label[t] == day[t]);
        assert(is_digit(day[t]));
    }
    assert(label[i] == '-');
    lemma_first_dash(label, i);
    let rest = label.skip(i + 1);
    assert(rest =~= month + seq!['-'] + year);
    let j = month.len() as int;
    assert forall|t: int| 0 <= t < j implies rest[t] != '-' by {
        assert(rest[t] == month[t]);
        assert(is_digit(month[t]));
    }
    assert(rest[j] == '-');
    lemma_first_dash(rest, j);
    let last = rest.skip(j + 1);
    assert(last =~= year);
    lemma_first_dash(year, year.len() as int);
    assert(label.take(i) =~= day);
    assert(rest.take(j) =~= month);
    assert(is_digit(day[0]) && is_digit(month[0]));
    assert(number_field(day, u32::MAX as int) == Some(date.day as int));
    assert(number_field(month, u32::MAX as int) == Some(date.month as int));
    assert(number_field(year, i32::MAX as int) == Some(date.year as int));
}

/// A mean is the exact mean rounded down: it lies less than one below the
/// sum divided by the number of values.
pub proof fn law_mean_rounds_down(values: Seq<int>)
    requires
        values.len() > 0,
    ensures
        mean(values) * values.len() <= sum(values) < (mean(values) + 1) * values.len(),
{
    let n = values.len() as int;
    vstd::arithmetic::div_mod::lemma_fundamental_div_mod(sum(values), n);
    assert(mean(values) * n <= sum(values) < (mean(values) + 1) * n) by (nonlinear_arith)
        requires
            n > 0,
            sum(values) == n * mean(values) + sum(values) % n,
            0 <= sum(values) % n < n,
    ;
}

/// The exponential moving average is the exact one but for rounding, over
/// the whole series: the average that is carried from bar to bar never lies
/// above the exact average of the values in parts of a tick, which
/// `exact_of` gives as a fraction, and it lies less than `(period + 1) / 2`
/// parts of a tick below it. What is given out is the carried average
/// rounded down to a tick.
pub proof fn law_ema_is_close(values: Seq<int>, period: int, i: int)
    requires
        1 <= period <= i + 1 <= values.len(),
    ensures
        ({
            let (n, d) = exact_of(in_parts(values), period, i);
            let carried = carried_at(values, period, i);
            let average = ema_at(values, period, i);
            &&& d > 0
            &&& 0 <= n - carried * d
            &&& 2 * (n - carried * d) < (period + 1) * d
            &&& average * EMA_PARTS <= carried < (average + 1) * EMA_PARTS
        }),
{
    lemma_carried_is_close(in_parts(values), period, i);
    let carried = carried_at(values, period, i);
    let parts = EMA_PARTS as int;
    vstd::arithmetic::div_mod::lemma_fundamental_div_mod(carried, parts);
    assert((carried / parts) * parts <= carried < (carried / parts + 1) * parts)
        by (nonlinear_arith)
        requires
            parts > 0,
            carried == parts * (carried / parts) + carried % parts,
            0 <= carried % parts < parts,
    ;
}

/// An exponential moving average lies between the lowest and the highest of
/// the values.
pub proof fn law_ema_lies_between_the_values(
    values: Seq<int>,
    period: int,
    i: int,
    low: int,
    high: int,
)
    requires
        1 <= period <= i + 1 <= values.len(),
        forall|k: int| 0 <= k < values.len() ==> low <= (#[trigger] values[k]) && values[k] <= high,
    ensures
        low <= ema_at(values, period, i) <= high,
{
    lemma_ema_bounds(values, period, i, low, high);
}

/// The line of the moving average convergence and divergence is the
/// difference of the two exponential averages as they are given out for the
/// bar, the histogram is the difference of the line and the signal as they
/// are given out, and the signal starts with the mean of the first nine
/// values of the line, rounded down to a tick.
pub proof fn law_macd_relates_what_is_given_out(values: Seq<int>, i: int)
    requires
        MACD_SLOW <= i < values.len(),
    ensures
        ({
            let fast = ema(values, MACD_FAST as int)[i];
            let slow = ema(values, MACD_SLOW as int)[i];
            let line = macd_line(values)[i];
            let signal = macd_signal(values)[i];
            let histogram = macd_histogram(values)[i];
            &&& fast is Some && slow is Some && line is Some
            &&& line->0 == fast->0 - slow->0
            &&& i >= MACD_SIGNAL_START <==> signal is Some
            &&& i >= MACD_SIGNAL_START <==> histogram is Some
            &&& i >= MACD_SIGNAL_START ==> histogram->0 == line->0 - signal->0
            &&& i == MACD_SIGNAL_START ==> signal->0 == mean(
                macd_values(values).subrange(0, MACD_SIGNAL as int),
            )
        }),
{
    if i == MACD_SIGNAL_START {
        lemma_ema_starts_at_mean(macd_values(values), MACD_SIGNAL as int);
    }
}

/// The line lies less than one tick from the exact difference of the two
/// averages as they are carried, in parts of a tick.
pub proof fn law_macd_line_is_close(values: Seq<int>, i: int)
    requires
        MACD_SLOW <= i < values.len(),
    ensures
        ({
            let exact = carried_at(values, MACD_FAST as int, i) - carried_at(
                values,
                MACD_SLOW as int,
                i,
            );
            let line = macd_at(values, i);
            (line - 1) * EMA_PARTS < exact < (line + 1) * EMA_PARTS
        }),
{
    let parts = EMA_PARTS as int;
    let fast = carried_at(values, MACD_FAST as int, i);
    let slow = carried_at(values, MACD_SLOW as int, i);
    vstd::arithmetic::div_mod::lemma_fundamental_div_mod(fast, parts);
    vstd::arithmetic::div_mod::lemma_fundamental_div_mod(slow, parts);
    assert((fast / parts - slow / parts - 1) * parts < fast - slow < (fast / parts - slow / parts
        + 1) * parts) by (nonlinear_arith)
        requires
            parts > 0,
            fast == parts * (fast / parts) + fast % parts,
            slow == parts * (slow / parts) + slow % parts,
            0 <= fast % parts < parts,
            0 <= slow % parts < parts,
    ;
}

/// The signal is the exponential average of the line over the whole series
/// but for rounding: carried in parts of a tick, it never lies above the
/// exact average of the line's values, and less than five parts of a tick
/// below it.
pub proof fn law_signal_is_close(values: Seq<int>, i: int)
    requires
        MACD_SIGNAL_START <= i < values.len(),
    ensures
        ({
            let line = in_parts(macd_values(values));
            let (n, d) = exact_of(line, MACD_SIGNAL as int, i - MACD_SLOW);
            let carried = carried_at(macd_values(values), MACD_SIGNAL as int, i - MACD_SLOW);
            &&& d > 0
            &&& 0 <= n - carried * d
            &&& n - carried * d < 5 * d
            &&& signal_at(values, i) * EMA_PARTS <= carried < (signal_at(values, i) + 1) * EMA_PARTS
        }),
{
    lemma_carried_is_close(in_parts(macd_values(values)), MACD_SIGNAL as int, i - MACD_SLOW);
    let carried = carried_at(macd_values(values), MACD_SIGNAL as int, i - MACD_SLOW);
    let parts = EMA_PARTS as int;
    vstd::arithmetic::div_mod::lemma_fundamental_div_mod(carried, parts);
    assert((carried / parts) * parts <= carried < (carried / parts + 1) * parts)
        by (nonlinear_arith)
        requires
            parts > 0,
            carried == parts * (carried / parts) + carried % parts,
            0 <= carried % parts < parts,
    ;
}

/// Once every indicator has been written onto the bars, a bar that had none
/// before holds the difference of its two exponential averages as its line
/// from position 26 on, and the difference of its line and its signal as
/// its histogram from position 34 on, where the signal starts.
pub proof fn law_macd_written_relates_the_fields(
    after: DailyData,
    before: DailyData,
    closes: Seq<int>,
    i: int,
)
    requires
        0 <= i < closes.len(),
        before.has_no_indicator(),
        is_enriched(after, before, closes, i),
    ensures
        if i >= MACD_SIGNAL_START {
            &&& after.macd == Some((after.ema_12->0 - after.ema_26->0) as i64)
            &&& after.macd_signal is Some
            &&& after.macd_histogram == Some((after.macd->0 - after.macd_signal->0) as i64)
        } else if i >= MACD_SLOW {
            &&& after.macd == Some((after.ema_12->0 - after.ema_26->0) as i64)
            &&& after.macd_signal is None
            &&& after.macd_histogram is None
        } else {
            after.macd is None && after.macd_signal is None && after.macd_histogram is None
        },
{
}

/// The distance of the outer Bollinger bands from the middle one is the
/// exact distance rounded down to a tick. The exact distance is `width`
/// hundredths of the standard deviation of the `n` values about their exact
/// mean, whose square is `width * width * spread / (100 * 100 * n * n * n)`.
pub proof fn law_band_distance_rounds_down(values: Seq<int>, width: int)
    requires
        values.len() > 0,
    ensures
        ({
            let n = values.len() as int;
            let half = half_width(values, width);
            let scale = WIDTH_PARTS * WIDTH_PARTS * (n * n * n);
            &&& 0 <= half
            &&& half * half * scale <= width * width * spread(values)
            &&& width * width * spread(values) < (half + 1) * (half + 1) * scale
        }),
{
    lemma_half_width_is_root(values, width);
}

/// The simple moving average of a series of equal values is that value,
/// wherever it has a value.
pub proof fn law_sma_of_constant_series(values: Seq<int>, value: int, period: int, i: int)
    requires
        forall|k: int| 0 <= k < values.len() ==> (#[trigger] values[k]) == value,
        0 <= i < values.len(),
        has_window(period, i),
    ensures
        sma(values, period)[i] == Some(value),
{
    lemma_mean_of_constant(window(values, period, i), value);
}

/// The exponential moving average starts at position `period - 1` with the
/// mean of the first `period` values.
pub proof fn law_ema_starts_at_mean(values: Seq<int>, period: int)
    requires
        1 <= period <= values.len(),
        period <= EMA_MAX_PERIOD,
    ensures
        ema(values, period)[period - 1] == Some(mean(values.subrange(0, period))),
{
    lemma_ema_starts_at_mean(values, period);
}

/// In a series that never falls, and so in one that rises with every bar,
/// no bar has a loss, the average loss is zero at every bar and the relative
/// strength index has the value that stands for a series without loss,
/// wherever it has a value.
pub proof fn law_rsi_of_rising_series(values: Seq<int>, period: int, i: int)
    requires
        forall|j: int| 0 <= j < values.len() - 1 ==> (#[trigger] values[j]) <= values[j + 1],
        0 < period <= i < values.len(),
        period <= RSI_MAX_PERIOD,
    ensures
        average_is_zero(losses(values), period, i),
        average_at(losses(values), period, i) == 0,
        rsi(values, period)[i] == Some(RSI_WITHOUT_LOSS as int),
{
    assert forall|k: int| 0 <= k < losses(values).len() implies (#[trigger] losses(values)[k])
        == 0 by {
        assert(values[k] <= values[k + 1]);
    }
    lemma_average_of_nothing(losses(values), period, i);
    lemma_rsi_without_loss(values, period, i);
}

/// The relative strength index counts `RS` as 100 exactly where the exact
/// average loss is zero: where no bar so far has had a loss, or, for a
/// period of 1, where the bar itself has none.
pub proof fn law_rsi_without_loss(values: Seq<int>, period: int, i: int)
    requires
        0 < period <= i < values.len(),
        period <= RSI_MAX_PERIOD,
    ensures
        ({
            let (n, d) = exact_average_at(losses(values), period, i);
            &&& d > 0
            &&& n == 0 <==> average_is_zero(losses(values), period, i)
            &&& n == 0 ==> rsi(values, period)[i] == Some(RSI_WITHOUT_LOSS as int)
        }),
{
    lemma_rsi_without_loss(values, period, i);
}

/// The relative strength index of every bar of a series of prices is the
/// exact index to within one part of a point, for every period up to
/// `RSI_EXACT_PERIOD`. Where the exact average loss is zero, it is the value
/// that stands for a series without loss. Elsewhere it lies within one ten
/// thousandth of a point of `100 * gain / (gain + loss)` of the exact average
/// gain and the exact average loss, which `exact_average_at` gives as
/// numerators over one denominator.
pub proof fn law_rsi_is_exact_to_a_part(values: Seq<int>, period: int, i: int)
    requires
        forall|k: int| 0 <= k < values.len() ==> 0 <= (#[trigger] values[k]) && values[k] <= PRICE_MAX,
        1 <= period <= RSI_EXACT_PERIOD,
        period <= i < values.len(),
    ensures
        ({
            let (exact_gain, d) = exact_average_at(gains(values), period, i);
            let (exact_loss, same) = exact_average_at(losses(values), period, i);
            let index = rsi(values, period)[i];
            &&& d == same
            &&& d > 0
            &&& exact_gain >= 0
            &&& exact_loss >= 0
            &&& index is Some
            &&& if exact_loss == 0 {
                index->0 == RSI_WITHOUT_LOSS
            } else {
                is_within_a_part(index->0, exact_gain, exact_loss)
            }
        }),
{
    lemma_rsi_is_exact(values, period, i);
}

/// A bar that closes where the bar before it closed has the index of the
/// bar before it, for a period of two bars or more.
pub proof fn law_rsi_stays_where_the_close_stays(values: Seq<int>, period: int, i: int)
    requires
        2 <= period < i < values.len(),
        period <= RSI_MAX_PERIOD,
        values[i] == values[i - 1],
    ensures
        rsi(values, period)[i] == rsi(values, period)[i - 1],
{
}

/// The relative strength index of a series of prices lies between 0 and 100
/// points, wherever it has a value.
pub proof fn law_rsi_lies_between_0_and_100(values: Seq<int>, period: int, i: int)
    requires
        forall|k: int| 0 <= k < values.len() ==> 0 <= (#[trigger] values[k]) && values[k] <= PRICE_MAX,
        0 < period <= i < values.len(),
        period <= RSI_MAX_PERIOD,
    ensures
        rsi(values, period)[i] matches Some(index) && 0 <= index <= 100 * RSI_SCALE,
{
    assert forall|k: int| 0 <= k < gains(values).len() implies 0 <= (#[trigger] gains(values)[k])
        && gains(values)[k] <= PRICE_MAX by {
        assert(0 <= values[k] <= PRICE_MAX && 0 <= values[k + 1] <= PRICE_MAX);
    }
    assert forall|k: int| 0 <= k < losses(values).len() implies 0 <= (#[trigger] losses(values)[k])
        && losses(values)[k] <= PRICE_MAX by {
        assert(0 <= values[k] <= PRICE_MAX && 0 <= values[k + 1] <= PRICE_MAX);
    }
    lemma_rsi_stays_in_range(values, period, i);
}

/// The relative strength index is the quotient of the averages rounded to
/// the nearest part of a point: twice its distance from
/// `100 * gain / (gain + loss)` is at most one part.
pub proof fn law_rsi_rounds_to_nearest(gain: int, loss: int)
    requires
        gain >= 0,
        loss >= 0,
        gain + loss > 0,
    ensures
        ({
            let index = rsi_of(gain, loss, false);
            let exact = 100 * RSI_SCALE * gain;
            let both = gain + loss;
            2 * (index * both) - both <= 2 * exact < 2 * (index * both) + both
        }),
{
    lemma_rsi_is_nearest(gain, loss);
}

/// The averages behind the relative strength index are the exact averages
/// but for less than `period` parts of a tick: an average never lies above
/// the exact one, which `exact_average_at` gives as a fraction, and it lies
/// less than `period` parts below it.
pub proof fn law_rsi_averages_are_close(changes: Seq<int>, period: int, i: int)
    requires
        1 <= period <= i <= changes.len(),
    ensures
        ({
            let (n, d) = exact_average_at(changes, period, i);
            let average = average_at(changes, period, i);
            &&& d > 0
            &&& 0 <= AVERAGE_PARTS * n - average * d < period * d
        }),
{
    lemma_average_is_close(changes, period, i);
}

/// The upper Bollinger band lies as far above the middle band as the lower
/// band lies below it, whatever the number of standard deviations.
pub proof fn law_bollinger_bands_are_symmetric(values: Seq<int>, period: int, width: int, i: int)
    requires
        0 <= i < values.len(),
        has_bands(period, i),
    ensures
        ({
            let upper = bollinger_upper(values, period, width)[i];
            let middle = bollinger_middle(values, period)[i];
            let lower = bollinger_lower(values, period, width)[i];
            &&& upper is Some
            &&& middle is Some
            &&& lower is Some
            &&& upper->0 - middle->0 == middle->0 - lower->0
        }),
{
}

/// Once the moving average over 20, 50 or 200 bars has been written onto
/// the bars of a series of equal closing prices, a bar that had none before
/// has that price as its average from position `period - 1` on, and still
/// none before that position.
pub proof fn law_sma_written_of_constant_series(
    after: DailyData,
    before: DailyData,
    closes: Seq<int>,
    price: int,
    period: int,
    i: int,
)
    requires
        period == 20 || period == 50 || period == 200,
        0 <= i < closes.len(),
        forall|k: int| 0 <= k < closes.len() ==> (#[trigger] closes[k]) == price,
        before.has_no_indicator(),
        has_sma_written(after, before, period, sma(closes, period)[i]),
    ensures
        ({
            let field = if period == 20 {
                after.sma_20
            } else if period == 50 {
                after.sma_50
            } else {
                after.sma_200
            };
            if i >= period - 1 {
                field matches Some(average) && average == price
            } else {
                field is None
            }
        }),
{
    if i >= period - 1 {
        law_sma_of_constant_series(closes, price, period, i);
    }
}

/// Once the exponential moving average over 12 or 26 bars has been written
/// onto the bars, a bar that had none before has the mean of the first
/// `period` closing prices, rounded down to a tick, at position
/// `period - 1`, and none before that position.
pub proof fn law_ema_written_starts_at_mean(
    after: DailyData,
    before: DailyData,
    closes: Seq<int>,
    period: int,
    i: int,
)
    requires
        period == 12 || period == 26,
        0 <= i < period <= closes.len(),
        before.has_no_indicator(),
        has_ema_written(after, before, period, ema(closes, period)[i]),
    ensures
        ({
            let field = if period == 12 {
                after.ema_12
            } else {
                after.ema_26
            };
            if i == period - 1 {
                field matches Some(average) && average == mean(closes.subrange(0, period))
            } else {
                field is None
            }
        }),
{
    if i == period - 1 {
        law_ema_starts_at_mean(closes, period);
    }
}

/// Once the relative strength index has been written onto the bars of a
/// series that never falls, a bar that had none before has the value that
/// stands for a series without loss from position `period` on, and none
/// before that position.
pub proof fn law_rsi_written_of_rising_series(
    after: DailyData,
    before: DailyData,
    closes: Seq<int>,
    period: int,
    i: int,
)
    requires
        1 <= period <= RSI_MAX_PERIOD,
        0 <= i < closes.len(),
        forall|j: int| 0 <= j < closes.len() - 1 ==> (#[trigger] closes[j]) <= closes[j + 1],
        before.has_no_indicator(),
        has_rsi_written(after, before, rsi(closes, period)[i]),
    ensures
        if i >= period {
            after.rsi == Some(RSI_WITHOUT_LOSS)
        } else {
            after.rsi is None
        },
{
    if i >= period {
        law_rsi_of_rising_series(closes, period, i);
    }
}

/// Once the Bollinger bands have been written onto the bars, a bar that had
/// none before has all three from position `period - 1` on, the middle one
/// being the mean of the window rounded down and the outer ones lying
/// equally far above and below it, and none before that position.
pub proof fn law_bands_written_are_symmetric(
    after: DailyData,
    before: DailyData,
    closes: Seq<int>,
    period: int,
    width: int,
    i: int,
)
    requires
        1 <= period <= BOLLINGER_MAX_PERIOD,
        0 <= i < closes.len(),
        before.has_no_indicator(),
        has_bands_written(
            after,
            before,
            bollinger_upper(closes, period, width)[i],
            bollinger_middle(closes, period)[i],
            bollinger_lower(closes, period, width)[i],
        ),
    ensures
        if i >= period - 1 {
            &&& after.bollinger_upper matches Some(upper)
            &&& after.bollinger_middle matches Some(middle)
            &&& after.bollinger_lower matches Some(lower)
            &&& middle == mean(window(closes, period, i))
            &&& upper - middle == middle - lower
            &&& upper - middle == half_width(window(closes, period, i), width)
        } else {
            after.bollinger_upper is None && after.bollinger_middle is None
                && after.bollinger_lower is None
        },
{
}

/// A series of fewer values than an indicator's period has no value of the
/// indicator at any position. The relative strength index needs one value
/// more than its period, the line of the moving average convergence and
/// divergence 27 values, its signal and its histogram 35.
pub proof fn law_short_series_has_no_value(values: Seq<int>, period: int, width: int, i: int)
    requires
        0 <= i < values.len(),
    ensures
        values.len() < period ==> sma(values, period)[i] is None,
        values.len() < period ==> ema(values, period)[i] is None,
        values.len() < period ==> bollinger_upper(values, period, width)[i] is None,
        values.len() < period ==> bollinger_middle(values, period)[i] is None,
        values.len() < period ==> bollinger_lower(values, period, width)[i] is None,
        values.len() <= period ==> rsi(values, period)[i] is None,
        values.len() <= MACD_SLOW ==> macd_line(values)[i] is None,
        values.len() < MACD_SLOW + MACD_SIGNAL ==> macd_signal(values)[i] is None,
        values.len() < MACD_SLOW + MACD_SIGNAL ==> macd_histogram(values)[i] is None,
{
}

/// A bar that had no indicator value has none after all indicators have been
/// computed for a series of fewer than 20 bars, and in a series of fewer
/// than 200 bars it has no moving average over 200 bars.
pub proof fn law_short_series_stays_bare(
    after: DailyData,
    before: DailyData,
    closes: Seq<int>,
    i: int,
)
    requires
        0 <= i < closes.len(),
        before.has_no_indicator(),
        is_enriched(after, before, closes, i),
    ensures
        closes.len() < 12 ==> after.has_no_indicator(),
        closes.len() < 200 ==> after.sma_200 is None,
        closes.len() < 50 ==> after.sma_50 is None,
        closes.len() < 35 ==> after.macd_signal is None && after.macd_histogram is None,
        closes.len() < 27 ==> after.macd is None,
        closes.len() < 26 ==> after.ema_26 is None,
        closes.len() < 20 ==> after.sma_20 is None && after.bollinger_upper is None
            && after.bollinger_middle is None && after.bollinger_lower is None,
        closes.len() < 15 ==> after.rsi is None,
        closes.len() < 12 ==> after.ema_12 is None,
{
}

} // verus!
