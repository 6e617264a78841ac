//! Resampling of a daily series into daily, weekly or monthly buckets.
//!
//! A series is first put in ascending order of date. The daily resampling
//! copies it bar by bar. The weekly and monthly resamplings leave out the
//! bars whose label spells no date and cut the rest into runs: a weekly run
//! holds the bars that follow less than seven days after its first bar, a
//! monthly run those that follow in the first bar's month. Each run becomes
//! one bucket.

use crate::date::{
    date_of_label, lemma_date_of_label_wf, parse_date_string, whole_days_between, DateKey,
};
use crate::models::{
    bucket_views, Bucket, ConsolidatedData, DailyData, HistoricalData, TimeFrame, TimeFrameData,
};
use crate::sorting::{arranged, sort_order, stable_order};
use crate::text::{decimal, push_decimal, push_signed_decimal, signed_decimal};
use vstd::prelude::*;

verus! {

/// The date that the bar's label spells, if it spells one.
pub open spec fn bar_date(bar: DailyData) -> Option<DateKey> {
    date_of_label(bar.timestamp@)
}

/// The dates of the bars, position by position.
pub open spec fn bar_dates(bars: Seq<DailyData>) -> Seq<Option<DateKey>> {
    Seq::new(bars.len(), |i: int| bar_date(bars[i]))
}

/// The series in ascending order of date: bars without a date first, bars of
/// the same date in the order in which they were given.
pub open spec fn sorted_bars(bars: Seq<DailyData>) -> Seq<DailyData> {
    arranged(bars, stable_order(bar_dates(bars)))
}

/// A bar whose label spells a date, with that date.
pub struct DatedBar {
    pub bar: DailyData,
    pub date: DateKey,
}

/// The bars whose label spells a date, in their order, each with its date.
pub open spec fn dated_bars(bars: Seq<DailyData>) -> Seq<DatedBar>
    decreases bars.len(),
{
    if bars.len() == 0 {
        Seq::empty()
    } else {
        let before = dated_bars(bars.drop_last());
        match bar_date(bars.last()) {
            Some(date) => before.push(DatedBar { bar: bars.last(), date }),
            None => before,
        }
    }
}

/// Whether a bar of the given date belongs to the bucket that a bar of the
/// date `anchor` has started.
pub open spec fn same_bucket(frame: TimeFrame, anchor: DateKey, date: DateKey) -> bool {
    match frame {
        TimeFrame::Daily => false,
        TimeFrame::Weekly => date.day_number() - anchor.day_number() < 7,
        TimeFrame::Monthly => date.month == anchor.month && date.year == anchor.year,
    }
}

/// Where the run that starts at `start` ends, given that it reaches `at`:
/// the first position from `at` on whose bar is not of the bucket, or the
/// end of the series.
pub open spec fn run_end(frame: TimeFrame, series: Seq<DatedBar>, start: int, at: int) -> int
    decreases series.len() - at,
{
    if at < series.len() && same_bucket(frame, series[start].date, series[at].date) {
        run_end(frame, series, start, at + 1)
    } else {
        at
    }
}

/// The highest of the highs of a run.
pub open spec fn highest(run: Seq<DatedBar>) -> int
    decreases run.len(),
{
    if run.len() <= 1 {
        run[0].bar.high as int
    } else {
        let before = highest(run.drop_last());
        if run.last().bar.high > before {
            run.last().bar.high as int
        } else {
            before
        }
    }
}

/// The lowest of the lows of a run.
pub open spec fn lowest(run: Seq<DatedBar>) -> int
    decreases run.len(),
{
    if run.len() <= 1 {
        run[0].bar.low as int
    } else {
        let before = lowest(run.drop_last());
        if run.last().bar.low < before {
            run.last().bar.low as int
        } else {
            before
        }
    }
}

/// The sum of the volumes of a run.
pub open spec fn volume_sum(run: Seq<DatedBar>) -> int
    decreases run.len(),
{
    if run.len() == 0 {
        0
    } else {
        volume_sum(run.drop_last()) + run.last().bar.volume
    }
}

/// The sum of the traded values of a run.
pub open spec fn value_sum(run: Seq<DatedBar>) -> int
    decreases run.len(),
{
    if run.len() == 0 {
        0
    } else {
        value_sum(run.drop_last()) + run.last().bar.value
    }
}

/// The label of the bucket that `first` starts: month and year for a month,
/// the bar's own label otherwise.
pub open spec fn bucket_label(frame: TimeFrame, first: DatedBar) -> Seq<char> {
    match frame {
        TimeFrame::Monthly => decimal(first.date.month as nat) + seq!['-'] + signed_decimal(
            first.date.year as int,
        ),
        _ => first.bar.timestamp@,
    }
}

/// The bucket of a run that is not empty: opened by its first bar, closed by
/// its last, with the extremes and the sums of all its bars.
pub open spec fn aggregate(frame: TimeFrame, run: Seq<DatedBar>) -> Bucket {
    Bucket {
        date: bucket_label(frame, run[0]),
        open: run[0].bar.open as int,
        high: highest(run),
        low: lowest(run),
        close: run.last().bar.close as int,
        volume: volume_sum(run),
        value: value_sum(run),
    }
}

/// The buckets of the series from position `start` on: the bucket of the run
/// that starts there, then those of what follows the run.
pub open spec fn grouped_from(frame: TimeFrame, series: Seq<DatedBar>, start: int) -> Seq<Bucket>
    decreases series.len() - start,
{
    let end = run_end(frame, series, start, start + 1);
    if 0 <= start < end <= series.len() {
        seq![aggregate(frame, series.subrange(start, end))] + grouped_from(frame, series, end)
    } else {
        Seq::empty()
    }
}

/// The bucket that holds a single bar, under the bar's own label.
pub open spec fn day_bucket(bar: DailyData) -> Bucket {
    Bucket {
        date: bar.timestamp@,
        open: bar.open as int,
        high: bar.high as int,
        low: bar.low as int,
        close: bar.close as int,
        volume: bar.volume as int,
        value: bar.value as int,
    }
}

/// The buckets into which a series in ascending order is resampled.
pub open spec fn buckets_of(bars: Seq<DailyData>, frame: TimeFrame) -> Seq<Bucket> {
    match frame {
        TimeFrame::Daily => Seq::new(bars.len(), |i: int| day_bucket(bars[i])),
        _ => grouped_from(frame, dated_bars(bars), 0),
    }
}

/// The label of the first bar, or nothing for a series without bars.
pub open spec fn first_label(bars: Seq<DailyData>) -> Seq<char> {
    if bars.len() == 0 {
        Seq::empty()
    } else {
        bars[0].timestamp@
    }
}

/// The label of the last bar, or nothing for a series without bars.
pub open spec fn last_label(bars: Seq<DailyData>) -> Seq<char> {
    if bars.len() == 0 {
        Seq::empty()
    } else {
        bars.last().timestamp@
    }
}

/// Whether `out` is the resampling of the series `source` at the given
/// granularity.
pub open spec fn is_resampling(
    out: ConsolidatedData,
    source: HistoricalData,
    frame: TimeFrame,
) -> bool {
    let sorted = sorted_bars(source.data@);
    &&& out.symbol@ == source.symbol@
    &&& out.time_frame@ == frame.tag()
    &&& out.from_date@ == first_label(sorted)
    &&& out.to_date@ == last_label(sorted)
    &&& bucket_views(out.data@) == buckets_of(sorted, frame)
    &&& out.indicators is None
}

/// A run ends after its first bar and within the series.
pub proof fn lemma_run_end_bounds(frame: TimeFrame, series: Seq<DatedBar>, start: int, at: int)
    requires
        at <= series.len(),
    ensures
        at <= run_end(frame, series, start, at) <= series.len(),
    decreases series.len() - at,
{
    if at < series.len() && same_bucket(frame, series[start].date, series[at].date) {
        lemma_run_end_bounds(frame, series, start, at + 1);
    }
}

/// The dates of the bars, position by position.
pub fn read_dates(bars: &Vec<DailyData>) -> (dates: Vec<Option<DateKey>>)
    ensures
        dates@ == bar_dates(bars@),
{
    let mut dates: Vec<Option<DateKey>> = Vec::new();
    let mut i: usize = 0;
    while i < bars.len()
        invariant
            i <= bars.len(),
            dates@ == bar_dates(bars@.take(i as int)),
        decreases bars.len() - i,
    {
        let date = match parse_date_string(bars[i].timestamp.as_str()) {
            Ok(date) => Some(date),
            Err(_) => None,
        };
        dates.push(date);
        assert(dates@ =~= bar_dates(bars@.take(i + 1)));
        i += 1;
    }
    assert(bars@.take(bars.len() as int) == bars@);
    dates
}

/// Whether `positions` lists the places in `bars` of the bars of `series`,
/// each with the bar's date.
spec fn lists_dated(
    bars: Seq<DailyData>,
    positions: Seq<(usize, DateKey)>,
    series: Seq<DatedBar>,
) -> bool {
    &&& positions.len() == series.len()
    &&& forall|k: int|
        0 <= k < positions.len() ==> {
            &&& (#[trigger] positions[k]).0 < bars.len()
            &&& series[k].bar == bars[positions[k].0 as int]
            &&& series[k].date == positions[k].1
            &&& series[k].date.wf()
        }
}

fn dated_positions(bars: &Vec<DailyData>, dates: &Vec<Option<DateKey>>) -> (positions: Vec<
    (usize, DateKey),
>)
    requires
        dates@ == bar_dates(bars@),
    ensures
        lists_dated(bars@, positions@, dated_bars(bars@)),
{
    let mut positions: Vec<(usize, DateKey)> = Vec::new();
    let mut i: usize = 0;
    while i < bars.len()
        invariant
            i <= bars.len(),
            dates@ == bar_dates(bars@),
            lists_dated(bars@, positions@, dated_bars(bars@.take(i as int))),
        decreases bars.len() - i,
    {
        proof {
            assert(bars@.take(i + 1).drop_last() == bars@.take(i as int));
            lemma_date_of_label_wf(bars@[i as int].timestamp@);
        }
        match dates[i] {
            Some(date) => {
                positions.push((i, date));
            },
            None => {},
        }
        i += 1;
    }
    assert(bars@.take(bars.len() as int) == bars@);
    positions
}

fn in_same_bucket(frame: TimeFrame, anchor: &DateKey, date: &DateKey) -> (same: bool)
    requires
        anchor.wf(),
        date.wf(),
    ensures
        same == same_bucket(frame, *anchor, *date),
{
    match frame {
        TimeFrame::Daily => false,
        TimeFrame::Weekly => whole_days_between(*date, *anchor) < 7,
        TimeFrame::Monthly => date.month == anchor.month && date.year == anchor.year,
    }
}

fn label_of_bucket(frame: TimeFrame, bar: &DailyData, date: &DateKey) -> (label: String)
    ensures
        label@ == bucket_label(frame, DatedBar { bar: *bar, date: *date }),
{
    match frame {
        TimeFrame::Monthly => {
            let mut label = String::new();
            push_decimal(&mut label, date.month as u64);
            proof {
                reveal_strlit("-");
            }
            label.append("-");
            push_signed_decimal(&mut label, date.year as i64);
            assert(label@ =~= decimal(date.month as nat) + seq!['-'] + signed_decimal(
                date.year as int,
            ));
            label
        },
        _ => bar.timestamp.clone(),
    }
}

/// Cuts the dated bars of a series into the runs of the given granularity
/// and gives the bucket of each run.
fn group_bars(bars: &Vec<DailyData>, dates: &Vec<Option<DateKey>>, frame: TimeFrame) -> (buckets:
    Vec<TimeFrameData>)
    requires
        dates@ == bar_dates(bars@),
    ensures
        bucket_views(buckets@) == grouped_from(frame, dated_bars(bars@), 0),
{
    let positions = dated_positions(bars, dates);
    let ghost series = dated_bars(bars@);
    let count = positions.len();
    let mut buckets: Vec<TimeFrameData> = Vec::new();
    let mut start: usize = 0;
    while start < count
        invariant
            start <= count,
            count == positions.len(),
            lists_dated(bars@, positions@, series),
            bucket_views(buckets@) + grouped_from(frame, series, start as int) == grouped_from(
                frame,
                series,
                0,
            ),
        decreases count - start,
    {
        let first = &bars[positions[start].0];
        let anchor = positions[start].1;
        assert(anchor == series[start as int].date && anchor.wf());
        let mut bucket = TimeFrameData {
            date: label_of_bucket(frame, first, &anchor),
            open: first.open,
            high: first.high,
            low: first.low,
            close: first.close,
            volume: first.volume as u128,
            value: first.value as u128,
        };
        let mut at: usize = start + 1;
        proof {
            reveal_with_fuel(highest, 2);
            reveal_with_fuel(lowest, 2);
            reveal_with_fuel(volume_sum, 2);
            reveal_with_fuel(value_sum, 2);
            let run = series.subrange(start as int, at as int);
            assert(run.drop_last().len() == 0);
            assert(run[0] == series[start as int]);
            assert(bucket@ == aggregate(frame, run));
        }
        loop
            invariant
                start < at <= count,
                count == positions.len(),
                lists_dated(bars@, positions@, series),
                anchor == series[start as int].date,
                anchor.wf(),
                run_end(frame, series, start as int, at as int) == run_end(
                    frame,
                    series,
                    start as int,
                    start + 1,
                ),
                bucket@ == aggregate(frame, series.subrange(start as int, at as int)),
                bucket.volume <= (at - start) * 0xffff_ffff_ffff_ffff,
                bucket.value <= (at - start) * 0xffff_ffff_ffff_ffff,
            ensures
                start < at <= count,
                at == run_end(frame, series, start as int, start + 1),
                bucket@ == aggregate(frame, series.subrange(start as int, at as int)),
            decreases count - at,
        {
            if at >= count {
                break;
            }
            let date = positions[at].1;
            assert(date == series[at as int].date && date.wf());
            if !in_same_bucket(frame, &anchor, &date) {
                break;
            }
            let bar = &bars[positions[at].0];
            proof {
                let run = series.subrange(start as int, at + 1);
                assert(run.drop_last() == series.subrange(start as int, at as int));
                assert(run.last() == series[at as int]);
                assert(run[0] == series[start as int]);
                assert((at - start + 1) * 0xffff_ffff_ffff_ffff <= 0xffff_ffff_ffff_ffff
                    * 0xffff_ffff_ffff_ffff) by (nonlinear_arith)
                    requires
                        0 <= at - start + 1 <= 0xffff_ffff_ffff_ffff,
                ;
            }
            if bar.high > bucket.high {
                bucket.high = bar.high;
            }
            if bar.low < bucket.low {
                bucket.low = bar.low;
            }
            bucket.close = bar.close;
            bucket.volume = bucket.volume + bar.volume as u128;
            bucket.value = bucket.value + bar.value as u128;
            at += 1;
        }
        proof {
            lemma_run_end_bounds(frame, series, start as int, start + 1);
            assert(bucket_views(buckets@.push(bucket)) =~= bucket_views(buckets@).push(bucket@));
            assert(bucket_views(buckets@).push(bucket@) + grouped_from(frame, series, at as int)
                =~= bucket_views(buckets@) + grouped_from(frame, series, start as int));
        }
        buckets.push(bucket);
        start = at;
    }
    assert(bucket_views(buckets@) + Seq::<Bucket>::empty() =~= bucket_views(buckets@));
    buckets
}

/// Copies a series into buckets of one bar each.
pub fn daily_buckets(bars: &Vec<DailyData>) -> (buckets: Vec<TimeFrameData>)
    ensures
        bucket_views(buckets@) == buckets_of(bars@, TimeFrame::Daily),
{
    let mut buckets: Vec<TimeFrameData> = Vec::new();
    let mut i: usize = 0;
    while i < bars.len()
        invariant
            i <= bars.len(),
            buckets.len() == i,
            forall|k: int| 0 <= k < i ==> (#[trigger] buckets@[k])@ == day_bucket(bars@[k]),
        decreases bars.len() - i,
    {
        let bar = &bars[i];
        buckets.push(
            TimeFrameData {
                date: bar.timestamp.clone(),
                open: bar.open,
                high: bar.high,
                low: bar.low,
                close: bar.close,
                volume: bar.volume as u128,
                value: bar.value as u128,
            },
        );
        i += 1;
    }
    assert(bucket_views(buckets@) =~= buckets_of(bars@, TimeFrame::Daily));
    buckets
}

impl HistoricalData {
    /// The bars in ascending order of date, with their dates.
    fn sorted_with_dates(&self) -> (sorted: (Vec<DailyData>, Vec<Option<DateKey>>))
        ensures
            sorted.0.len() == self.data.len(),
            sorted.0@ == sorted_bars(self.data@),
            sorted.1@ == bar_dates(sorted.0@),
    {
        let dates = read_dates(&self.data);
        let order = sort_order(&dates);
        let mut bars: Vec<DailyData> = Vec::new();
        let mut sorted_dates: Vec<Option<DateKey>> = Vec::new();
        let mut a: usize = 0;
        while a < order.len()
            invariant
                a <= order.len(),
                order@ == stable_order(bar_dates(self.data@)),
                crate::sorting::is_stable_order(bar_dates(self.data@), order@),
                dates@ == bar_dates(self.data@),
                bars@ == arranged(self.data@, order@.take(a as int)),
                sorted_dates@ == bar_dates(bars@),
            decreases order.len() - a,
        {
            let from = order[a];
            bars.push(self.data[from].copy());
            sorted_dates.push(dates[from]);
            proof {
                assert(bars@ =~= arranged(self.data@, order@.take(a + 1)));
                assert(sorted_dates@ =~= bar_dates(bars@));
            }
            a += 1;
        }
        assert(order@.take(order.len() as int) == order@);
        (bars, sorted_dates)
    }

    /// The bars in ascending order of date: bars without a date first, bars
    /// of the same date in the order in which they stand.
    pub fn prepare_sorted_data(&self) -> (sorted: Vec<DailyData>)
        ensures
            sorted.len() == self.data.len(),
            sorted@ == sorted_bars(self.data@),
    {
        self.sorted_with_dates().0
    }

    fn resample(&self, frame: TimeFrame) -> (out: ConsolidatedData)
        ensures
            is_resampling(out, *self, frame),
    {
        let (bars, dates) = self.sorted_with_dates();
        let from_date = if bars.len() == 0 {
            String::new()
        } else {
            bars[0].timestamp.clone()
        };
        let to_date = if bars.len() == 0 {
            String::new()
        } else {
            bars[bars.len() - 1].timestamp.clone()
        };
        let data = match frame {
            TimeFrame::Daily => daily_buckets(&bars),
            _ => group_bars(&bars, &dates, frame),
        };
        ConsolidatedData {
            symbol: self.symbol.clone(),
            time_frame: frame.as_str().to_string(),
            from_date,
            to_date,
            data,
            indicators: None,
        }
    }

    /// Resamples the series at the given granularity.
    pub fn to_time_frame(&self, time_frame: TimeFrame) -> (out: ConsolidatedData)
        ensures
            is_resampling(out, *self, time_frame),
    {
        match time_frame {
            TimeFrame::Daily => self.to_daily(),
            TimeFrame::Weekly => self.to_weekly(),
            TimeFrame::Monthly => self.to_monthly(),
        }
    }

    /// The series in ascending order of date, one bucket for each bar.
    pub fn to_daily(&self) -> (out: ConsolidatedData)
        ensures
            is_resampling(out, *self, TimeFrame::Daily),
    {
        self.resample(TimeFrame::Daily)
    }

    /// The series in buckets that each span less than seven days from their
    /// first bar.
    pub fn to_weekly(&self) -> (out: ConsolidatedData)
        ensures
            is_resampling(out, *self, TimeFrame::Weekly),
    {
        self.resample(TimeFrame::Weekly)
    }

    /// The series in buckets of one calendar month each.
    pub fn to_monthly(&self) -> (out: ConsolidatedData)
        ensures
            is_resampling(out, *self, TimeFrame::Monthly),
    {
        self.resample(TimeFrame::Monthly)
    }
}

} // verus!
