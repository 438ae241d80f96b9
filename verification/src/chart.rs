//! The chart of a coin's local price against the published one.

use std::collections::VecDeque;

use vstd::arithmetic::power2::{lemma2_to64, lemma_pow2_adds, lemma_pow2_pos, pow2};
use vstd::prelude::*;

use crate::float::arithmetic::{lemma_size_zero, one_in_units, rounded};
use crate::float::bounds::{
    halves_are_doubles, numbers_are_ordered, rounding_keeps_order, sums_are_exact,
    whole_numbers_are_exact, whole_quotients_are_exact,
};
use crate::float::round::{
    lemma_magnitude_increases, lemma_magnitude_of, lemma_nearest_bound, lemma_powers,
    magnitude, nearest, rounding_keeps_sides, INFINITY_BITS,
};
use crate::float::Binary64;
use crate::lead_lag::PriceSample;
use crate::monitor::{larger, maximum, AssetMetrics, MetricsView};
use crate::time::{Duration, Instant, NANOS_PER_SECOND};

verus! {

/// How far the chart reaches back, in nanoseconds.
pub const CHART_NANOS: u128 = 300_000_000_000;

/// The bits of a billion.
pub const BILLION_BITS: u64 = 0x41cd_cd65_0000_0000;

/// The bits of 300.
pub const WINDOW_BITS: u64 = 0x4072_c000_0000_0000;

/// The bits of 600.
pub const GRID_BITS: u64 = 0x4082_c000_0000_0000;

/// The bits of the double nearest to 0.02.
pub const LEAST_STEP_BITS: u64 = 0x3f94_7ae1_47ae_147b;

/// The bits of the double nearest to 0.1.
pub const TENTH_BITS: u64 = 0x3fb9_9999_9999_999a;

/// The bits of the double nearest to 0.00001.
pub const SLIVER_BITS: u64 = 0x3ee4_f8b5_88e3_68f1;

/// The bits of the smallest positive normal double.
pub const LEAST_NORMAL_BITS: u64 = 0x0010_0000_0000_0000;

/// The bits of 2.
pub const TWO_BITS: u64 = 0x4000_0000_0000_0000;

/// The bits of -1.
pub const MINUS_ONE_BITS: u64 = 0xbff0_0000_0000_0000;

/// The bits of negative infinity.
pub const MINUS_INFINITY_BITS: u64 = 0xfff0_0000_0000_0000;

/// A place on the time axis in seconds, zero being now, and a price.
pub type Point = (Binary64, Binary64);

/// A span in seconds: the whole seconds plus the rest over a billion, each rounded.
pub open spec fn seconds_spec(span: Duration) -> Binary64 {
    let whole = Binary64::whole_spec(span.nanos as nat / NANOS_PER_SECOND as nat);
    let rest = Binary64::whole_spec(span.nanos as nat % NANOS_PER_SECOND as nat);
    whole.plus_spec(rest.over_spec(Binary64 { bits: BILLION_BITS }))
}

fn seconds(span: Duration) -> (result: Binary64)
    requires
        span.nanos <= CHART_NANOS,
    ensures
        result == seconds_spec(span),
{
    let whole: Binary64 = Binary64::from_u64((span.nanos / NANOS_PER_SECOND) as u64);
    let rest: Binary64 = Binary64::from_u64((span.nanos % NANOS_PER_SECOND) as u64);
    whole.plus(rest.over(Binary64 { bits: BILLION_BITS }))
}

/// The points of a history that lie within the chart.
pub open spec fn points_spec(history: Seq<PriceSample>, now: Instant) -> Seq<Point>
    decreases history.len(),
{
    if history.len() == 0 {
        Seq::empty()
    } else {
        let before = points_spec(history.drop_last(), now);
        let span = Duration { nanos: now.nanos_since(history.last().at) as u128 };
        if span.nanos <= CHART_NANOS {
            before.push((seconds_spec(span).negated_spec(), history.last().price))
        } else {
            before
        }
    }
}

/// The points of a history that lie within the chart.
pub fn points(history: &VecDeque<PriceSample>, now: Instant) -> (result: Vec<Point>)
    ensures
        result@ == points_spec(history@, now),
{
    let mut result: Vec<Point> = Vec::new();
    let mut index: usize = 0;
    while index < history.len()
        invariant
            index <= history@.len(),
            result@ == points_spec(history@.take(index as int), now),
        decreases history@.len() - index,
    {
        proof {
            assert(history@.take(index + 1).drop_last() =~= history@.take(index as int));
            assert(history@.take(index + 1).last() == history@[index as int]);
        }
        let sample: PriceSample = history[index];
        let span: Duration = now.saturating_duration_since(sample.at);
        if span.nanos <= CHART_NANOS {
            result.push((seconds(span).negated(), sample.price));
        }
        index = index + 1;
    }
    proof {
        assert(history@.take(index as int) =~= history@);
    }
    result
}

/// The smaller of two numbers; where one is not a number, the other.
pub open spec fn smaller(left: Binary64, right: Binary64) -> Binary64 {
    if left.nan() || right.below(left) {
        right
    } else {
        left
    }
}

fn minimum(left: Binary64, right: Binary64) -> (result: Binary64)
    ensures
        result == smaller(left, right),
{
    if !left.is_at_most(left) || right.is_below(left) {
        right
    } else {
        left
    }
}

/// The number of leading points from `from` on, with those before, that lie at or
/// before a place.
pub open spec fn reached(points: Seq<Point>, x: Binary64, from: int) -> int
    decreases points.len() - from,
{
    if from < points.len() && points[from].0.at_most(x) {
        reached(points, x, from + 1)
    } else {
        from
    }
}

/// The price that holds at a place: that of the last point reached, or the first.
pub open spec fn held(points: Seq<Point>, x: Binary64) -> Binary64 {
    let count = reached(points, x, 0);
    if count > 0 {
        points[count - 1].1
    } else {
        points[0].1
    }
}

/// How far a place lies before now.
pub open spec fn distance(x: Binary64) -> nat {
    if x.units() < 0 {
        (-x.units()) as nat
    } else {
        0
    }
}

/// Every step of the grid from a place to now makes progress.
pub open spec fn advances(x: Binary64, step: Binary64) -> bool
    decreases distance(x),
{
    !x.below(Binary64 { bits: 0 }) || (x.below(x.plus_spec(step)) && advances(
        x.plus_spec(step),
        step,
    ))
}

/// The grid from a place to now, with the price that holds at each place.
pub open spec fn staircase(points: Seq<Point>, step: Binary64, x: Binary64) -> Seq<Point>
    decreases distance(x),
{
    if x.below(Binary64 { bits: 0 }) && x.below(x.plus_spec(step)) {
        seq![(x, held(points, x))] + staircase(points, step, x.plus_spec(step))
    } else {
        Seq::empty()
    }
}

/// The points on a grid from the first of them to now, each price held until the next
/// point, with the last price at now.
pub open spec fn forward_fill_spec(points: Seq<Point>, step: Binary64) -> Seq<Point> {
    if points.len() == 0 {
        Seq::empty()
    } else {
        staircase(points, step, points[0].0).push((Binary64 { bits: 0 }, points.last().1))
    }
}

proof fn lemma_reached(points: Seq<Point>, x: Binary64, from: int, count: int)
    requires
        0 <= from <= count <= points.len(),
        forall|i: int| 0 <= i < count ==> (#[trigger] points[i]).0.at_most(x),
        count < points.len() ==> !points[count].0.at_most(x),
    ensures
        reached(points, x, from) == count,
    decreases count - from,
{
    if from < count {
        assert(points[from].0.at_most(x));
        lemma_reached(points, x, from + 1, count);
    }
}

/// Resamples a chronological series onto a uniform grid, holding the last price
/// forward. The result is a step function: flat between updates, vertical at each
/// change.
pub fn forward_fill(points: &[Point], step: Binary64) -> (out: Vec<Point>)
    requires
        points@.len() > 0 ==> advances(points@[0].0, step),
    ensures
        out@ == forward_fill_spec(points@, step),
{
    let mut out: Vec<Point> = Vec::new();
    if points.len() == 0 {
        return out;
    }
    let zero: Binary64 = Binary64 { bits: 0 };
    let mut index: usize = 0;
    let mut last: Binary64 = points[0].1;
    let mut x: Binary64 = points[0].0;
    let ghost all = staircase(points@, step, x);
    while x.is_below(zero)
        invariant
            zero == (Binary64 { bits: 0 }),
            points@.len() > 0,
            index <= points@.len(),
            advances(x, step),
            forall|i: int| 0 <= i < index ==> (#[trigger] points@[i]).0.at_most(x),
            last == if index > 0 {
                points@[index - 1].1
            } else {
                points@[0].1
            },
            all == out@ + staircase(points@, step, x),
        decreases distance(x),
    {
        while index < points.len() && points[index].0.is_at_most(x)
            invariant
                points@.len() > 0,
                index <= points@.len(),
                forall|i: int| 0 <= i < index ==> (#[trigger] points@[i]).0.at_most(x),
                last == if index > 0 {
                    points@[index - 1].1
                } else {
                    points@[0].1
                },
            decreases points.len() - index,
        {
            last = points[index].1;
            index = index + 1;
        }
        let ghost before = out@;
        let next: Binary64 = x.plus(step);
        proof {
            lemma_reached(points@, x, 0, index as int);
            let rest = staircase(points@, step, next);
            assert(before + (seq![(x, last)] + rest) =~= before.push((x, last)) + rest);
        }
        out.push((x, last));
        x = next;
    }
    out.push((zero, points[points.len() - 1].1));
    proof {
        assert(all =~= out@.drop_last());
    }
    out
}

/// The least of a number and the prices of points.
pub open spec fn least_price(points: Seq<Point>, start: Binary64) -> Binary64
    decreases points.len(),
{
    if points.len() == 0 {
        start
    } else {
        smaller(least_price(points.drop_last(), start), points.last().1)
    }
}

/// The greatest of a number and the prices of points.
pub open spec fn greatest_price(points: Seq<Point>, start: Binary64) -> Binary64
    decreases points.len(),
{
    if points.len() == 0 {
        start
    } else {
        larger(greatest_price(points.drop_last(), start), points.last().1)
    }
}

/// The least of a number and the places of points.
pub open spec fn least_place(points: Seq<Point>, start: Binary64) -> Binary64
    decreases points.len(),
{
    if points.len() == 0 {
        start
    } else {
        smaller(least_place(points.drop_last(), start), points.last().0)
    }
}

fn extremes(points: &[Point], low: Binary64, high: Binary64, left: Binary64) -> (result: (
    Binary64,
    Binary64,
    Binary64,
))
    ensures
        result.0 == least_price(points@, low),
        result.1 == greatest_price(points@, high),
        result.2 == least_place(points@, left),
{
    let mut lowest: Binary64 = low;
    let mut highest: Binary64 = high;
    let mut leftmost: Binary64 = left;
    let mut index: usize = 0;
    while index < points.len()
        invariant
            index <= points@.len(),
            lowest == least_price(points@.take(index as int), low),
            highest == greatest_price(points@.take(index as int), high),
            leftmost == least_place(points@.take(index as int), left),
        decreases points.len() - index,
    {
        proof {
            assert(points@.take(index + 1).drop_last() =~= points@.take(index as int));
            assert(points@.take(index + 1).last() == points@[index as int]);
        }
        let point: Point = points[index];
        lowest = minimum(lowest, point.1);
        highest = maximum(highest, point.1);
        leftmost = minimum(leftmost, point.0);
        index = index + 1;
    }
    proof {
        assert(points@.take(index as int) =~= points@);
    }
    (lowest, highest, leftmost)
}

/// What a chart shows.
#[derive(Clone, Debug)]
pub struct Chart {
    /// The local price.
    pub local: Vec<Point>,
    /// The published price.
    pub official: Vec<Point>,
    /// Where the time axis begins.
    pub x_min: Binary64,
    /// Where the price axis begins.
    pub y_min: Binary64,
    /// Where the price axis ends.
    pub y_max: Binary64,
}

/// What a chart shows, with its lines as sequences.
#[verifier::ext_equal]
pub struct ChartView {
    /// The local price.
    pub local: Seq<Point>,
    /// The published price.
    pub official: Seq<Point>,
    /// Where the time axis begins.
    pub x_min: Binary64,
    /// Where the price axis begins.
    pub y_min: Binary64,
    /// Where the price axis ends.
    pub y_max: Binary64,
}

impl View for Chart {
    type V = ChartView;

    open spec fn view(&self) -> ChartView {
        ChartView {
            local: self.local@,
            official: self.official@,
            x_min: self.x_min,
            y_min: self.y_min,
            y_max: self.y_max,
        }
    }
}

/// The space above and below the lines: a tenth of their height, but not too little.
pub open spec fn padding(low: Binary64, high: Binary64) -> Binary64 {
    larger(
        larger(
            high.minus_spec(low).times_spec(Binary64 { bits: TENTH_BITS }),
            high.absolute_spec().times_spec(Binary64 { bits: SLIVER_BITS }),
        ),
        Binary64 { bits: LEAST_NORMAL_BITS },
    )
}

/// The leftmost place before now, one second before now if there is none.
pub open spec fn axis_start(leftmost: Binary64) -> Binary64 {
    if leftmost.below(Binary64 { bits: 0 }) {
        leftmost
    } else {
        Binary64 { bits: MINUS_ONE_BITS }
    }
}

/// The spacing of the grid: a six-hundredth of the axis, but at least 0.02.
pub open spec fn grid_step(x_min: Binary64) -> Binary64 {
    larger(
        x_min.negated_spec().over_spec(Binary64 { bits: GRID_BITS }),
        Binary64 { bits: LEAST_STEP_BITS },
    )
}

/// The chart of two series.
pub open spec fn chart_of(local: Seq<Point>, official: Seq<Point>) -> ChartView {
    let low = least_price(official, least_price(local, Binary64 { bits: INFINITY_BITS }));
    let high = greatest_price(
        official,
        greatest_price(local, Binary64 { bits: MINUS_INFINITY_BITS }),
    );
    let x_min = axis_start(least_place(official, least_place(local, Binary64 { bits: 0 })));
    let step = grid_step(x_min);
    ChartView {
        local: forward_fill_spec(local, step),
        official: forward_fill_spec(official, step),
        x_min,
        y_min: low.minus_spec(padding(low, high)),
        y_max: high.plus_spec(padding(low, high)),
    }
}

/// The chart of a coin, `None` before there is any price to show.
pub open spec fn chart_spec(metrics: MetricsView, now: Instant) -> Option<ChartView> {
    let local = points_spec(metrics.local, now);
    let official = points_spec(metrics.official, now);
    if local.len() == 0 && official.len() == 0 {
        None
    } else {
        Some(chart_of(local, official))
    }
}

/// Some magnitudes.
proof fn lemma_magnitudes()
    ensures
        magnitude(BILLION_BITS as nat) == 1_000_000_000 * pow2(1074),
        magnitude(WINDOW_BITS as nat) == 300 * pow2(1074),
        magnitude(0x4072_b000_0000_0000) == 299 * pow2(1074),
        magnitude(0x3ff0_0000_0000_0000) == pow2(1074),
        magnitude(0) == 0,
        magnitude(LEAST_STEP_BITS as nat) >= pow2(1030),
{
    lemma_powers();
    vstd::arithmetic::power2::lemma2_to64();
    vstd::arithmetic::power2::lemma2_to64_rest();
    lemma_pow2_adds(44, 1030);
    lemma_pow2_adds(23, 1051);
    lemma_pow2_adds(52, 1022);
    lemma_magnitude_of(1030, 300 * 0x1000_0000_0000);
    lemma_magnitude_of(1030, 299 * 0x1000_0000_0000);
    lemma_magnitude_of(1051, 1_000_000_000 * 0x80_0000);
    lemma_magnitude_of(1022, 0x0010_0000_0000_0000);
    assert(300 * 0x1000_0000_0000 * pow2(1030) == 300 * (0x1000_0000_0000 * pow2(1030)))
        by (nonlinear_arith);
    assert(299 * 0x1000_0000_0000 * pow2(1030) == 299 * (0x1000_0000_0000 * pow2(1030)))
        by (nonlinear_arith);
    assert(1_000_000_000 * 0x80_0000 * pow2(1051) == 1_000_000_000 * (0x80_0000 * pow2(1051)))
        by (nonlinear_arith);
    assert(pow2(44) == 0x1000_0000_0000);
    assert(pow2(23) == 0x80_0000);
    assert(BILLION_BITS == 1051 * 0x0010_0000_0000_0000 + 1_000_000_000 * 0x80_0000);
    assert(WINDOW_BITS == 1030 * 0x0010_0000_0000_0000 + 300 * 0x1000_0000_0000);
    let base: nat = 1016 * 0x0010_0000_0000_0000 + 0x0010_0000_0000_0000;
    lemma_magnitude_of(1016, 0x0010_0000_0000_0000);
    lemma_pow2_adds(52, 1016);
    lemma_pow2_adds(38, 1030);
    lemma_pow2_pos(38);
    assert(pow2(1068) >= pow2(1030)) by (nonlinear_arith)
        requires
            pow2(1068) == pow2(38) * pow2(1030),
            pow2(38) >= 1,
    ;
    lemma_magnitude_increases(base, LEAST_STEP_BITS as nat);
}

/// A span within the chart is at most 300 seconds, also rounded.
proof fn lemma_seconds(span: Duration)
    requires
        span.nanos <= CHART_NANOS,
    ensures
        !seconds_spec(span).negative(),
        seconds_spec(span).magnitude_bits() <= WINDOW_BITS,
{
    lemma_magnitudes();
    lemma_pow2_pos(1074);
    let one = pow2(1074);
    let secs = span.nanos as nat / NANOS_PER_SECOND as nat;
    let nanos = span.nanos as nat % NANOS_PER_SECOND as nat;
    let whole = Binary64::whole_spec(secs);
    let rest = Binary64::whole_spec(nanos);
    let billion = Binary64 { bits: BILLION_BITS };
    let fraction = rest.over_spec(billion);
    assert(nanos * one <= 1_000_000_000 * one) by (nonlinear_arith)
        requires
            nanos <= 1_000_000_000,
    ;
    rounding_keeps_sides(nanos * one, 1, BILLION_BITS as nat);
    lemma_magnitude_increases(rest.magnitude_bits(), BILLION_BITS as nat);
    assert(rest.size() * one <= billion.size() * one) by (nonlinear_arith)
        requires
            rest.size() <= billion.size(),
    ;
    assert(billion.size() > 0) by (nonlinear_arith)
        requires
            billion.size() == 1_000_000_000 * one,
            one > 0,
    ;
    rounding_keeps_sides(rest.size() * one, billion.size(), 0x3ff0_0000_0000_0000);
    lemma_magnitude_increases(fraction.magnitude_bits(), 0x3ff0_0000_0000_0000);
    assert(fraction.size() <= one);
    if secs <= 299 {
        assert(secs * one <= 299 * one) by (nonlinear_arith)
            requires
                secs <= 299,
        ;
        rounding_keeps_sides(secs * one, 1, 0x4072_b000_0000_0000);
        lemma_magnitude_increases(whole.magnitude_bits(), 0x4072_b000_0000_0000);
        assert(whole.size() + fraction.size() <= 300 * one);
    } else {
        assert(secs == 300 && nanos == 0);
        rounding_keeps_sides(secs * one, 1, WINDOW_BITS as nat);
        lemma_magnitude_increases(whole.magnitude_bits(), WINDOW_BITS as nat);
        assert(nanos * one == 0) by (nonlinear_arith)
            requires
                nanos == 0,
        ;
        rounding_keeps_sides(0, 1, 0);
        assert(rest.size() == 0);
        assert(rest.size() * one == 0) by (nonlinear_arith)
            requires
                rest.size() == 0,
        ;
        assert(billion.size() * magnitude(0) == 0) by (nonlinear_arith)
            requires
                magnitude(0) == 0,
        ;
        rounding_keeps_sides(0, billion.size(), 0);
        assert(fraction.size() == 0);
    }
    let sum = whole.size() + fraction.size();
    assert(sum <= 300 * one);
    rounding_keeps_sides(sum, 1, WINDOW_BITS as nat);
}

/// Every point lies at or before now, at most 300 seconds.
proof fn lemma_points(history: Seq<PriceSample>, now: Instant, index: int)
    requires
        0 <= index < points_spec(history, now).len(),
    ensures
        points_spec(history, now)[index].0.negative(),
        points_spec(history, now)[index].0.magnitude_bits() <= WINDOW_BITS,
    decreases history.len(),
{
    let before = points_spec(history.drop_last(), now);
    if index < before.len() {
        lemma_points(history.drop_last(), now, index);
    } else {
        let span = Duration { nanos: now.nanos_since(history.last().at) as u128 };
        lemma_seconds(span);
    }
}

/// Doubles up to 300 lie at most 2^-44 apart.
proof fn lemma_spacing(bits: nat)
    requires
        0 < bits <= WINDOW_BITS,
    ensures
        magnitude(bits) - magnitude((bits - 1) as nat) <= pow2(1030),
{
    let below = (bits - 1) as nat;
    let exponent = below / 0x0010_0000_0000_0000;
    let shift: nat = if exponent == 0 { 0 } else { (exponent - 1) as nat };
    let significand: nat = (below - shift * 0x0010_0000_0000_0000) as nat;
    assert(below == shift * 0x0010_0000_0000_0000 + significand);
    assert(shift <= 1030);
    lemma_magnitude_of(shift, significand);
    lemma_magnitude_of(shift, significand + 1);
    assert((significand + 1) * pow2(shift) - significand * pow2(shift) == pow2(shift))
        by (nonlinear_arith);
    lemma_pow2_adds(shift, (1030 - shift) as nat);
    lemma_pow2_pos((1030 - shift) as nat);
    assert(pow2(shift) <= pow2(1030)) by (nonlinear_arith)
        requires
            pow2(1030) == pow2(shift) * pow2((1030 - shift) as nat),
            pow2((1030 - shift) as nat) >= 1,
    ;
}

/// From a place at most 300 seconds before now, steps of at least 0.02 seconds make
/// progress until now.
proof fn lemma_advances(x: Binary64, step: Binary64)
    requires
        !x.negative() || x.magnitude_bits() <= WINDOW_BITS,
        LEAST_STEP_BITS <= step.bits < INFINITY_BITS,
    ensures
        advances(x, step),
    decreases distance(x),
{
    let zero = Binary64 { bits: 0 };
    lemma_magnitudes();
    lemma_size_zero(x.magnitude_bits());
    if x.below(zero) {
        let bits = x.magnitude_bits();
        let next = x.plus_spec(step);
        lemma_spacing(bits);
        lemma_magnitude_increases(LEAST_STEP_BITS as nat, step.bits as nat);
        let sum = x.units() + step.units();
        if sum < 0 {
            let size = (-sum) as nat;
            rounding_keeps_sides(size, 1, (bits - 1) as nat);
            assert(next.magnitude_bits() <= bits - 1);
            assert(next.negative());
            lemma_magnitude_increases(next.magnitude_bits(), (bits - 1) as nat);
            lemma_magnitude_increases((bits - 1) as nat, bits);
        } else if sum > 0 {
            lemma_rounded_up(sum as nat);
        }
        lemma_advances(next, step);
    }
}

/// A positive value rounds to a number that is not negative.
proof fn lemma_rounded_up(value: nat)
    requires
        value > 0,
    ensures
        rounded(value as int, false).units() >= 0,
        !rounded(value as int, false).negative(),
        !rounded(value as int, false).nan(),
{
    lemma_nearest_bound(value, 1);
}

/// Zero, or a place at most 300 seconds before now.
spec fn within_window(x: Binary64) -> bool {
    x.bits == 0 || (x.negative() && x.magnitude_bits() <= WINDOW_BITS)
}

proof fn lemma_least_place(points: Seq<Point>, start: Binary64)
    requires
        within_window(start),
        forall|i: int| 0 <= i < points.len() ==> within_window((#[trigger] points[i]).0),
    ensures
        within_window(least_place(points, start)),
    decreases points.len(),
{
    if points.len() > 0 {
        let before = points.drop_last();
        assert forall|i: int| 0 <= i < before.len() implies within_window(
            (#[trigger] before[i]).0,
        ) by {
            assert(within_window(points[i].0));
        }
        lemma_least_place(before, start);
        assert(within_window(points[points.len() - 1].0));
    }
}

/// The grid's spacing lies between 0.02 and 300 seconds.
proof fn lemma_grid_step(x_min: Binary64)
    requires
        x_min.negative(),
        x_min.magnitude_bits() <= WINDOW_BITS,
    ensures
        LEAST_STEP_BITS <= grid_step(x_min).bits < INFINITY_BITS,
{
    let grid = Binary64 { bits: GRID_BITS };
    let quotient = x_min.negated_spec().over_spec(grid);
    let size = x_min.size();
    let one = pow2(1074);
    lemma_magnitudes();
    lemma_pow2_pos(1074);
    lemma_magnitude_increases(0x3ff0_0000_0000_0000, GRID_BITS as nat);
    lemma_magnitude_increases(x_min.magnitude_bits(), WINDOW_BITS as nat);
    assert(size * one <= grid.size() * magnitude(WINDOW_BITS as nat)) by (nonlinear_arith)
        requires
            size <= magnitude(WINDOW_BITS as nat),
            one <= grid.size(),
    ;
    rounding_keeps_sides(size * one, grid.size(), WINDOW_BITS as nat);
    if quotient.bits < LEAST_STEP_BITS {
        lemma_magnitude_increases(quotient.bits as nat, LEAST_STEP_BITS as nat);
    }
}

/// The chart of a coin over the last five minutes, `None` before there is any price to
/// show.
pub fn chart(metrics: &AssetMetrics, now: Instant) -> (result: Option<Chart>)
    ensures
        match result {
            Some(chart) => chart_spec(metrics@, now) == Some(chart@),
            None => chart_spec(metrics@, now) is None,
        },
{
    let local: Vec<Point> = points(&metrics.local_history, now);
    let official: Vec<Point> = points(&metrics.official_history, now);
    if local.len() == 0 && official.len() == 0 {
        return None;
    }
    let zero: Binary64 = Binary64 { bits: 0 };
    let infinity: Binary64 = Binary64 { bits: INFINITY_BITS };
    let minus_infinity: Binary64 = Binary64 { bits: MINUS_INFINITY_BITS };
    let (low, high, left): (Binary64, Binary64, Binary64) = extremes(
        &local,
        infinity,
        minus_infinity,
        zero,
    );
    let (low, high, left): (Binary64, Binary64, Binary64) = extremes(&official, low, high, left);
    let height: Binary64 = high.minus(low).times(Binary64 { bits: TENTH_BITS });
    let sliver: Binary64 = high.absolute().times(Binary64 { bits: SLIVER_BITS });
    let pad: Binary64 = maximum(maximum(height, sliver), Binary64 { bits: LEAST_NORMAL_BITS });
    let x_min: Binary64 = if left.is_below(zero) {
        left
    } else {
        Binary64 { bits: MINUS_ONE_BITS }
    };
    let step: Binary64 = maximum(
        x_min.negated().over(Binary64 { bits: GRID_BITS }),
        Binary64 { bits: LEAST_STEP_BITS },
    );
    proof {
        assert forall|i: int| 0 <= i < local@.len() implies within_window(
            (#[trigger] local@[i]).0,
        ) by {
            lemma_points(metrics@.local, now, i);
        }
        assert forall|i: int| 0 <= i < official@.len() implies within_window(
            (#[trigger] official@[i]).0,
        ) by {
            lemma_points(metrics@.official, now, i);
        }
        lemma_least_place(local@, zero);
        lemma_least_place(official@, least_place(local@, zero));
        lemma_grid_step(x_min);
        if local@.len() > 0 {
            assert(within_window(local@[0].0));
            lemma_advances(local@[0].0, step);
        }
        if official@.len() > 0 {
            assert(within_window(official@[0].0));
            lemma_advances(official@[0].0, step);
        }
    }
    Some(
        Chart {
            local: forward_fill(&local, step),
            official: forward_fill(&official, step),
            x_min,
            y_min: low.minus(pad),
            y_max: high.plus(pad),
        },
    )
}

/// The middle between the ends of an axis, as its labels show it.
pub fn axis_middle(low: Binary64, high: Binary64) -> (middle: Binary64)
    ensures
        middle == low.plus_spec(high).over_spec(Binary64 { bits: TWO_BITS }),
{
    low.plus(high).over(Binary64 { bits: TWO_BITS })
}

proof fn lemma_reached_bounds(points: Seq<Point>, x: Binary64, from: int)
    requires
        0 <= from <= points.len(),
    ensures
        from <= reached(points, x, from) <= points.len(),
    decreases points.len() - from,
{
    if from < points.len() && points[from].0.at_most(x) {
        lemma_reached_bounds(points, x, from + 1);
    }
}

proof fn lemma_staircase_prices(points: Seq<Point>, step: Binary64, x: Binary64, index: int)
    requires
        points.len() > 0,
        0 <= index < staircase(points, step, x).len(),
    ensures
        exists|k: int|
            0 <= k < points.len() && (#[trigger] points[k]).1 == staircase(
                points,
                step,
                x,
            )[index].1,
    decreases distance(x),
{
    let rest = staircase(points, step, x.plus_spec(step));
    assert(staircase(points, step, x) == seq![(x, held(points, x))] + rest);
    if index == 0 {
        lemma_reached_bounds(points, x, 0);
        let count = reached(points, x, 0);
        if count > 0 {
            assert(points[count - 1].1 == held(points, x));
        } else {
            assert(points[0].1 == held(points, x));
        }
    } else {
        assert(staircase(points, step, x)[index] == rest[index - 1]);
        lemma_staircase_prices(points, step, x.plus_spec(step), index - 1);
    }
}

/// A line shows observed prices only: each of its prices is that of a point.
pub proof fn lines_show_observed_prices(points: Seq<Point>, step: Binary64, index: int)
    requires
        0 <= index < forward_fill_spec(points, step).len(),
    ensures
        exists|k: int|
            0 <= k < points.len() && (#[trigger] points[k]).1 == forward_fill_spec(
                points,
                step,
            )[index].1,
{
    let line = staircase(points, step, points[0].0);
    if index < line.len() {
        lemma_staircase_prices(points, step, points[0].0, index);
        assert(forward_fill_spec(points, step)[index] == line[index]);
    } else {
        assert(points[points.len() - 1].1 == forward_fill_spec(points, step)[index].1);
    }
}

/// A line ends at now, with the last price.
pub proof fn lines_end_now(points: Seq<Point>, step: Binary64)
    requires
        points.len() > 0,
    ensures
        forward_fill_spec(points, step).last() == (Binary64 { bits: 0 }, points.last().1),
{
}

/// The prices of points are numbers.
pub open spec fn all_numbers(points: Seq<Point>) -> bool {
    forall|i: int| 0 <= i < points.len() ==> !(#[trigger] points[i]).1.nan()
}

/// The least and the greatest price of points and a number are one of those, and no price
/// of a point lies below the least or above the greatest.
pub proof fn extremes_bound_every_price(points: Seq<Point>, start: Binary64)
    requires
        all_numbers(points),
        !start.nan(),
    ensures
        ({
            let low = least_price(points, start);
            let high = greatest_price(points, start);
            &&& !low.nan() && !high.nan()
            &&& low.at_most(start) && start.at_most(high)
            &&& forall|i: int|
                0 <= i < points.len() ==> low.at_most((#[trigger] points[i]).1)
                    && points[i].1.at_most(high)
            &&& low == start || exists|i: int|
                0 <= i < points.len() && (#[trigger] points[i]).1 == low
            &&& high == start || exists|i: int|
                0 <= i < points.len() && (#[trigger] points[i]).1 == high
        }),
    decreases points.len(),
{
    if points.len() > 0 {
        let before = points.drop_last();
        assert forall|i: int| 0 <= i < before.len() implies !(#[trigger] before[i]).1.nan() by {
            assert(!points[i].1.nan());
        }
        extremes_bound_every_price(before, start);
        assert(points[points.len() - 1] == points.last());
        assert(!points[points.len() - 1].1.nan());
        let low = least_price(points, start);
        let high = greatest_price(points, start);
        assert forall|i: int| 0 <= i < points.len() implies low.at_most((#[trigger] points[i]).1)
            && points[i].1.at_most(high) by {
            if i < before.len() {
                assert(before[i] == points[i]);
            }
        }
        if low != start && low != points.last().1 {
            let i = choose|i: int| 0 <= i < before.len() && (#[trigger] before[i]).1 == low;
            assert(points[i].1 == low);
        }
        if high != start && high != points.last().1 {
            let i = choose|i: int| 0 <= i < before.len() && (#[trigger] before[i]).1 == high;
            assert(points[i].1 == high);
        }
    }
}

/// Moving a positive finite number down or up by what is not negative does not bring it
/// to the other side.
proof fn lemma_moved(value: Binary64, pad: Binary64)
    requires
        value.positive_finite(),
        !pad.nan(),
        pad.units() >= 0,
    ensures
        value.minus_spec(pad).at_most(value),
        value.at_most(value.plus_spec(pad)),
{
    let bits = value.magnitude_bits();
    lemma_size_zero(bits);
    lemma_size_zero(pad.magnitude_bits());
    if pad.finite() {
        let sum = (value.units() + pad.units()) as nat;
        rounding_keeps_sides(sum, 1, bits);
        lemma_nearest_bound(sum, 1);
        lemma_magnitude_increases(bits, crate::float::round::nearest(sum, 1));
        let difference = value.units() - pad.units();
        if difference > 0 {
            rounding_keeps_sides(difference as nat, 1, bits);
            lemma_nearest_bound(difference as nat, 1);
            lemma_magnitude_increases(crate::float::round::nearest(difference as nat, 1), bits);
        } else if difference < 0 {
            lemma_nearest_bound((-difference) as nat, 1);
        }
    } else {
        lemma_magnitude_increases(bits, INFINITY_BITS as nat);
    }
}

/// All prices of points are positive and finite.
pub open spec fn all_prices(points: Seq<Point>) -> bool {
    forall|i: int| 0 <= i < points.len() ==> (#[trigger] points[i]).1.positive_finite()
}

/// Some point of one of two lines has this price.
pub open spec fn has_price(local: Seq<Point>, official: Seq<Point>, price: Binary64) -> bool {
    ||| exists|i: int| 0 <= i < local.len() && (#[trigger] local[i]).1 == price
    ||| exists|i: int| 0 <= i < official.len() && (#[trigger] official[i]).1 == price
}

/// The price axis reaches from below the lowest to above the highest price of all points,
/// with the same space at both ends.
pub proof fn axis_surrounds_every_price(local: Seq<Point>, official: Seq<Point>)
    requires
        all_prices(local),
        all_prices(official),
        local.len() > 0 || official.len() > 0,
    ensures
        ({
            let chart = chart_of(local, official);
            &&& forall|i: int|
                0 <= i < local.len() ==> chart.y_min.at_most((#[trigger] local[i]).1)
                    && local[i].1.at_most(chart.y_max)
            &&& forall|i: int|
                0 <= i < official.len() ==> chart.y_min.at_most((#[trigger] official[i]).1)
                    && official[i].1.at_most(chart.y_max)
            &&& exists|low: Binary64, high: Binary64|
                #![trigger has_price(local, official, low), has_price(local, official, high)]
                {
                    &&& has_price(local, official, low) && has_price(local, official, high)
                    &&& forall|i: int|
                        0 <= i < local.len() ==> low.at_most((#[trigger] local[i]).1)
                            && local[i].1.at_most(high)
                    &&& forall|i: int|
                        0 <= i < official.len() ==> low.at_most((#[trigger] official[i]).1)
                            && official[i].1.at_most(high)
                    &&& chart.y_min == low.minus_spec(padding(low, high))
                    &&& chart.y_max == high.plus_spec(padding(low, high))
                }
        }),
{
    let top = Binary64 { bits: INFINITY_BITS };
    let bottom = Binary64 { bits: MINUS_INFINITY_BITS };
    lemma_numbers(local);
    lemma_numbers(official);
    extremes_bound_every_price(local, top);
    extremes_bound_every_price(local, bottom);
    let low_local = least_price(local, top);
    let high_local = greatest_price(local, bottom);
    extremes_bound_every_price(official, low_local);
    extremes_bound_every_price(official, high_local);
    let low = least_price(official, low_local);
    let high = greatest_price(official, high_local);
    let some = if local.len() > 0 { local[0].1 } else { official[0].1 };
    assert(some.positive_finite());
    if local.len() > 0 {
        assert(low.at_most(local[0].1) && local[0].1.at_most(high));
    } else {
        assert(low.at_most(official[0].1) && official[0].1.at_most(high));
    }
    lemma_magnitude_increases(some.magnitude_bits(), (INFINITY_BITS - 1) as nat);
    lemma_magnitude_increases((INFINITY_BITS - 1) as nat, INFINITY_BITS as nat);
    lemma_size_zero(some.magnitude_bits());
    assert(low != top);
    assert(high != bottom);
    assert(has_price(local, official, low));
    assert(has_price(local, official, high));
    lemma_priced(local, official, low);
    lemma_priced(local, official, high);
    lemma_padding(low, high);
    lemma_moved(low, padding(low, high));
    lemma_moved(high, padding(low, high));
}

proof fn lemma_numbers(points: Seq<Point>)
    requires
        all_prices(points),
    ensures
        all_numbers(points),
{
    assert forall|i: int| 0 <= i < points.len() implies !(#[trigger] points[i]).1.nan() by {
        assert(points[i].1.positive_finite());
    }
}

proof fn lemma_priced(local: Seq<Point>, official: Seq<Point>, price: Binary64)
    requires
        all_prices(local),
        all_prices(official),
        has_price(local, official, price),
    ensures
        price.positive_finite(),
{
}

/// The space is a number and not negative.
proof fn lemma_padding(low: Binary64, high: Binary64)
    ensures
        !padding(low, high).nan(),
        padding(low, high).units() >= 0,
{
    lemma_size_zero(LEAST_NORMAL_BITS as nat);
}

/// The space above and below is not less than a tenth of the height, than a hundred
/// thousandth of the highest price, and than the least normal double, and it is one of
/// these.
pub proof fn padding_is_the_largest_of_three(low: Binary64, high: Binary64)
    requires
        low.positive_finite(),
        high.positive_finite(),
    ensures
        ({
            let pad = padding(low, high);
            let height = high.minus_spec(low).times_spec(Binary64 { bits: 0x3fb9_9999_9999_999a });
            let sliver = high.times_spec(Binary64 { bits: 0x3ee4_f8b5_88e3_68f1 });
            let least = Binary64 { bits: 0x0010_0000_0000_0000 };
            &&& pad == height || pad == sliver || pad == least
            &&& height.nan() || height.at_most(pad)
            &&& sliver.nan() || sliver.at_most(pad)
            &&& least.at_most(pad)
        }),
{
    assert(high.absolute_spec() == high);
}

/// Every price that a chart shows lies on its price axis.
pub proof fn charts_show_every_price(metrics: MetricsView, now: Instant, index: int)
    requires
        forall|i: int|
            0 <= i < metrics.local.len() ==> (#[trigger] metrics.local[i]).price.positive_finite(),
        forall|i: int|
            0 <= i < metrics.official.len() ==> (
            #[trigger] metrics.official[i]).price.positive_finite(),
    ensures
        chart_spec(metrics, now) matches Some(chart) ==> {
            &&& 0 <= index < chart.local.len() ==> chart.y_min.at_most(chart.local[index].1)
                && chart.local[index].1.at_most(chart.y_max)
            &&& 0 <= index < chart.official.len() ==> chart.y_min.at_most(chart.official[index].1)
                && chart.official[index].1.at_most(chart.y_max)
        },
{
    if let Some(chart) = chart_spec(metrics, now) {
        let local = points_spec(metrics.local, now);
        let official = points_spec(metrics.official, now);
        lemma_points_priced(metrics.local, now);
        lemma_points_priced(metrics.official, now);
        axis_surrounds_every_price(local, official);
        let step = grid_step(chart.x_min);
        if 0 <= index < chart.local.len() {
            lines_show_observed_prices(local, step, index);
        }
        if 0 <= index < chart.official.len() {
            lines_show_observed_prices(official, step, index);
        }
    }
}

proof fn lemma_points_priced(history: Seq<PriceSample>, now: Instant)
    requires
        forall|i: int| 0 <= i < history.len() ==> (#[trigger] history[i]).price.positive_finite(),
    ensures
        all_prices(points_spec(history, now)),
    decreases history.len(),
{
    if history.len() > 0 {
        let earlier = history.drop_last();
        assert forall|i: int| 0 <= i < earlier.len() implies (
        #[trigger] earlier[i]).price.positive_finite() by {
            assert(earlier[i] == history[i]);
        }
        lemma_points_priced(earlier, now);
        assert(history[history.len() - 1].price.positive_finite());
    }
}

/// A chart's points are, in order, all samples of the last five minutes, each with its
/// own price.
pub proof fn points_are_the_last_five_minutes(history: Seq<PriceSample>, now: Instant)
    ensures
        points_spec(history, now) == history.filter(
            |sample: PriceSample| now.nanos - sample.at.nanos <= 300_000_000_000,
        ).map_values(
            |sample: PriceSample|
                (
                    seconds_spec(
                        Duration { nanos: now.nanos_since(sample.at) as u128 },
                    ).negated_spec(),
                    sample.price,
                ),
        ),
    decreases history.len(),
{
    let recent = |sample: PriceSample| now.nanos - sample.at.nanos <= 300_000_000_000;
    let point = |sample: PriceSample|
        (
            seconds_spec(Duration { nanos: now.nanos_since(sample.at) as u128 }).negated_spec(),
            sample.price,
        );
    reveal(Seq::filter);
    if history.len() > 0 {
        points_are_the_last_five_minutes(history.drop_last(), now);
        let before = history.drop_last().filter(recent);
        assert(before.push(history.last()).map_values(point) =~= before.map_values(point).push(
            point(history.last()),
        ));
        assert(points_spec(history, now) =~= history.filter(recent).map_values(point));
    } else {
        assert(history.filter(recent).map_values(point) =~= points_spec(history, now));
    }
}

/// There is a chart exactly if some price was seen within the last five minutes.
pub proof fn charts_need_a_recent_price(metrics: MetricsView, now: Instant)
    ensures
        chart_spec(metrics, now) is None <==> {
            &&& forall|i: int|
                0 <= i < metrics.local.len() ==> now.nanos - (#[trigger] metrics.local[i]).at.nanos
                    > 300_000_000_000
            &&& forall|i: int|
                0 <= i < metrics.official.len() ==> now.nanos - (
                #[trigger] metrics.official[i]).at.nanos > 300_000_000_000
        },
{
    lemma_no_points(metrics.local, now);
    lemma_no_points(metrics.official, now);
}

proof fn lemma_no_points(history: Seq<PriceSample>, now: Instant)
    ensures
        points_spec(history, now).len() == 0 <==> forall|i: int|
            0 <= i < history.len() ==> now.nanos - (#[trigger] history[i]).at.nanos
                > 300_000_000_000,
    decreases history.len(),
{
    if history.len() > 0 {
        let earlier = history.drop_last();
        lemma_no_points(earlier, now);
        assert(history[history.len() - 1] == history.last());
        if points_spec(history, now).len() == 0 {
            assert forall|i: int| 0 <= i < history.len() implies now.nanos - (
            #[trigger] history[i]).at.nanos > 300_000_000_000 by {
                if i < earlier.len() {
                    assert(earlier[i] == history[i]);
                }
            }
        } else if points_spec(earlier, now).len() > 0 {
            let i = choose|i: int|
                0 <= i < earlier.len() && now.nanos - (#[trigger] earlier[i]).at.nanos
                    <= 300_000_000_000;
            assert(history[i] == earlier[i]);
        }
    }
}

/// A line begins at its first point, goes on in equal steps until now, and holds at each
/// place the price of a point at or before it that no later point has replaced.
pub proof fn lines_hold_the_last_price(points: Seq<Point>, step: Binary64, index: int)
    requires
        points.len() > 0,
        !points[0].0.nan(),
        points[0].0.below(Binary64 { bits: 0 }),
        advances(points[0].0, step),
        0 <= index < forward_fill_spec(points, step).len() - 1,
    ensures
        ({
            let line = forward_fill_spec(points, step);
            let x = line[index].0;
            &&& line[0].0 == points[0].0
            &&& x.below(Binary64 { bits: 0 })
            &&& index + 2 < line.len() ==> line[index + 1].0 == x.plus_spec(step)
            &&& index + 2 == line.len() ==> !x.plus_spec(step).below(Binary64 { bits: 0 })
            &&& exists|k: int|
                0 <= k < points.len() && (#[trigger] points[k]).0.at_most(x) && (k + 1
                    < points.len() ==> !points[k + 1].0.at_most(x)) && line[index].1 == points[k].1
        }),
{
    let stairs = staircase(points, step, points[0].0);
    let line = forward_fill_spec(points, step);
    assert(line.drop_last() =~= stairs);
    assert(line[index] == stairs[index]);
    lemma_stairs(points, step, points[0].0, index);
    lemma_stairs(points, step, points[0].0, 0);
    assert(stairs[0] == line[0]);
    if index + 2 < line.len() {
        assert(line[index + 1] == stairs[index + 1]);
    }
}

proof fn lemma_stairs(points: Seq<Point>, step: Binary64, x: Binary64, index: int)
    requires
        points.len() > 0,
        points[0].0.at_most(x),
        advances(x, step),
        0 <= index < staircase(points, step, x).len(),
    ensures
        ({
            let stairs = staircase(points, step, x);
            let place = stairs[index].0;
            &&& stairs[0].0 == x
            &&& place.below(Binary64 { bits: 0 })
            &&& index + 1 < stairs.len() ==> stairs[index + 1].0 == place.plus_spec(step)
            &&& index + 1 == stairs.len() ==> !place.plus_spec(step).below(Binary64 { bits: 0 })
            &&& exists|k: int|
                0 <= k < points.len() && (#[trigger] points[k]).0.at_most(place) && (k + 1
                    < points.len() ==> !points[k + 1].0.at_most(place)) && stairs[index].1
                    == points[k].1
        }),
    decreases distance(x),
{
    let next = x.plus_spec(step);
    let stairs = staircase(points, step, x);
    let rest = staircase(points, step, next);
    assert(stairs == seq![(x, held(points, x))] + rest);
    if index > 0 {
        assert(stairs[index] == rest[index - 1]);
        lemma_stairs(points, step, next, index - 1);
        if index + 1 < stairs.len() {
            assert(stairs[index + 1] == rest[index]);
        }
    } else {
        let count = reached(points, x, 0);
        lemma_reached_stops(points, x, 0);
        assert(count > 0);
        assert(points[count - 1].0.at_most(x));
        assert(stairs[0].1 == points[count - 1].1);
        assert(advances(next, step));
        if next.below(Binary64 { bits: 0 }) {
            assert(next.below(next.plus_spec(step)));
            assert(rest == seq![(next, held(points, next))] + staircase(
                points,
                step,
                next.plus_spec(step),
            ));
            assert(stairs[1] == rest[0]);
        } else {
            assert(rest.len() == 0);
        }
    }
}

proof fn lemma_reached_stops(points: Seq<Point>, x: Binary64, from: int)
    requires
        0 <= from <= points.len(),
    ensures
        ({
            let count = reached(points, x, from);
            &&& from <= count <= points.len()
            &&& forall|i: int| from <= i < count ==> (#[trigger] points[i]).0.at_most(x)
            &&& count < points.len() ==> !points[count].0.at_most(x)
        }),
    decreases points.len() - from,
{
    if from < points.len() && points[from].0.at_most(x) {
        lemma_reached_stops(points, x, from + 1);
    }
}

/// The time axis begins at the leftmost point before now; with none before now it begins
/// a second before.
pub proof fn axis_begins_at_the_oldest_point(local: Seq<Point>, official: Seq<Point>)
    requires
        forall|i: int| 0 <= i < local.len() ==> !(#[trigger] local[i]).0.nan(),
        forall|i: int| 0 <= i < official.len() ==> !(#[trigger] official[i]).0.nan(),
    ensures
        ({
            let x_min = chart_of(local, official).x_min;
            let zero = Binary64 { bits: 0 };
            &&& x_min.below(zero)
            &&& forall|i: int|
                0 <= i < local.len() && (#[trigger] local[i]).0.below(zero) ==> x_min.at_most(
                    local[i].0,
                )
            &&& forall|i: int|
                0 <= i < official.len() && (#[trigger] official[i]).0.below(zero)
                    ==> x_min.at_most(official[i].0)
            &&& x_min == (Binary64 { bits: 0xbff0_0000_0000_0000 }) || (exists|i: int|
                0 <= i < local.len() && (#[trigger] local[i]).0 == x_min) || (exists|i: int|
                0 <= i < official.len() && (#[trigger] official[i]).0 == x_min)
            &&& (exists|i: int| 0 <= i < local.len() && (#[trigger] local[i]).0.below(zero)) || (
            exists|i: int| 0 <= i < official.len() && (#[trigger] official[i]).0.below(zero))
                ==> (exists|i: int| 0 <= i < local.len() && (#[trigger] local[i]).0 == x_min) || (
            exists|i: int| 0 <= i < official.len() && (#[trigger] official[i]).0 == x_min)
        }),
{
    let zero = Binary64 { bits: 0 };
    lemma_least_bound(local, zero);
    lemma_least_bound(official, least_place(local, zero));
    lemma_size_zero(0x3ff0_0000_0000_0000);
    lemma_size_zero(0);
}

proof fn lemma_least_bound(points: Seq<Point>, start: Binary64)
    requires
        !start.nan(),
        forall|i: int| 0 <= i < points.len() ==> !(#[trigger] points[i]).0.nan(),
    ensures
        ({
            let least = least_place(points, start);
            &&& !least.nan()
            &&& least.at_most(start)
            &&& forall|i: int|
                0 <= i < points.len() ==> least.at_most((#[trigger] points[i]).0)
            &&& least == start || exists|i: int|
                0 <= i < points.len() && (#[trigger] points[i]).0 == least
        }),
    decreases points.len(),
{
    if points.len() > 0 {
        let before = points.drop_last();
        assert forall|i: int| 0 <= i < before.len() implies !(#[trigger] before[i]).0.nan() by {
            assert(!points[i].0.nan());
        }
        lemma_least_bound(before, start);
        assert(points[points.len() - 1] == points.last());
        assert(!points[points.len() - 1].0.nan());
        let least = least_place(points, start);
        assert forall|i: int| 0 <= i < points.len() implies least.at_most(
            (#[trigger] points[i]).0,
        ) by {
            if i < before.len() {
                assert(before[i] == points[i]);
            }
        }
        if least != start && least != points.last().0 {
            let i = choose|i: int| 0 <= i < before.len() && (#[trigger] before[i]).0 == least;
            assert(points[i].0 == least);
        }
    }
}

/// The grid has a step of a six-hundredth of the time axis, but not less than 0.02.
pub proof fn grids_have_at_most_six_hundred_steps(x_min: Binary64)
    requires
        x_min.negative(),
        x_min.magnitude_bits() <= WINDOW_BITS,
    ensures
        ({
            let step = grid_step(x_min);
            let sixth = x_min.negated_spec().over_spec(Binary64 { bits: 0x4082_c000_0000_0000 });
            let least = Binary64 { bits: 0x3f94_7ae1_47ae_147b };
            &&& step == sixth || step == least
            &&& sixth.at_most(step)
            &&& least.at_most(step)
        }),
{
    lemma_grid_step(x_min);
    let grid = Binary64 { bits: GRID_BITS };
    lemma_size_zero(GRID_BITS as nat);
    lemma_nearest_bound(x_min.size() * crate::float::arithmetic::one_in_units(), grid.size());
}

/// Each line of a chart is drawn from its own points: it ends at now with their last
/// price, begins at their first, and is empty only without them.
pub proof fn charts_draw_both_lines(local: Seq<Point>, official: Seq<Point>)
    ensures
        ({
            let chart = chart_of(local, official);
            let zero = Binary64 { bits: 0 };
            &&& chart.local.len() == 0 <==> local.len() == 0
            &&& chart.official.len() == 0 <==> official.len() == 0
            &&& local.len() > 0 ==> chart.local.last() == (zero, local.last().1)
            &&& official.len() > 0 ==> chart.official.last() == (zero, official.last().1)
            &&& chart.local == forward_fill_spec(local, grid_step(chart.x_min))
            &&& chart.official == forward_fill_spec(official, grid_step(chart.x_min))
        }),
{
}

/// A chart's local line is that of the local history, its published one that of the
/// published history: where the latest sample is not older than five minutes, its price
/// is the line's last.
pub proof fn charts_end_with_the_latest_prices(metrics: MetricsView, now: Instant)
    ensures
        chart_spec(metrics, now) matches Some(chart) ==> {
            &&& metrics.local.len() > 0 && now.nanos - metrics.local.last().at.nanos
                <= 300_000_000_000 ==> chart.local.len() > 0 && chart.local.last().1
                == metrics.local.last().price
            &&& metrics.official.len() > 0 && now.nanos - metrics.official.last().at.nanos
                <= 300_000_000_000 ==> chart.official.len() > 0 && chart.official.last().1
                == metrics.official.last().price
            &&& metrics.local.len() == 0 ==> chart.local.len() == 0
            &&& metrics.official.len() == 0 ==> chart.official.len() == 0
        },
{
    charts_draw_both_lines(points_spec(metrics.local, now), points_spec(metrics.official, now));
}

/// The views of charts show their fields.
pub proof fn charts_show_their_fields(chart: Chart)
    ensures
        chart@.local == chart.local@ && chart@.official == chart.official@,
        chart@.x_min == chart.x_min && chart@.y_min == chart.y_min && chart@.y_max == chart.y_max,
{
}

proof fn lemma_fraction(nanos: nat)
    requires
        nanos < 1_000_000_000,
    ensures
        ({
            let rest = Binary64::whole_spec(nanos);
            let billion = Binary64 { bits: BILLION_BITS };
            let fraction = rest.over_spec(billion);
            &&& billion == Binary64::whole_spec(1_000_000_000)
            &&& rest.finite() && !rest.negative()
            &&& rest.units() == nanos * one_in_units()
            &&& billion.size() == 1_000_000_000 * one_in_units()
            &&& fraction.finite() && !fraction.negative()
            &&& fraction.magnitude_bits() == nearest(
                rest.size() * one_in_units(),
                billion.size(),
            )
            &&& 0 <= fraction.units() <= one_in_units()
        }),
{
    let one = one_in_units();
    let rest = Binary64::whole_spec(nanos);
    let billion = Binary64 { bits: BILLION_BITS };
    lemma_magnitudes();
    lemma_pow2_pos(1074);
    whole_numbers_are_exact(nanos);
    whole_numbers_are_exact(1_000_000_000);
    numbers_are_ordered(billion, Binary64::whole_spec(1_000_000_000));
    assert(billion.size() > 0) by (nonlinear_arith)
        requires
            billion.size() == 1_000_000_000 * one,
            one > 0,
    ;
    assert(rest.size() * one <= billion.size() * one) by (nonlinear_arith)
        requires
            rest.size() == nanos * one,
            billion.size() == 1_000_000_000 * one,
            nanos <= 1_000_000_000,
            one > 0,
    ;
    rounding_keeps_sides(rest.size() * one, billion.size(), 0x3ff0_0000_0000_0000);
    lemma_magnitude_increases(
        rest.over_spec(billion).magnitude_bits(),
        0x3ff0_0000_0000_0000,
    );
}

/// Of two spans the longer is not shown as shorter, and spans of whole 512ths of a second
/// are shown exactly.
pub proof fn places_follow_the_clock(shorter: Duration, longer: Duration, parts: nat)
    requires
        shorter.nanos <= longer.nanos <= CHART_NANOS,
    ensures
        0 <= seconds_spec(shorter).units() <= seconds_spec(longer).units(),
        shorter.nanos == parts * 1_953_125 ==> 512 * seconds_spec(shorter).units() == parts
            * one_in_units(),
{
    let one = one_in_units();
    let first = shorter.nanos as nat / NANOS_PER_SECOND as nat;
    let second = longer.nanos as nat / NANOS_PER_SECOND as nat;
    let left = shorter.nanos as nat % NANOS_PER_SECOND as nat;
    let right = longer.nanos as nat % NANOS_PER_SECOND as nat;
    let billion = Binary64 { bits: BILLION_BITS };
    let fraction = Binary64::whole_spec(left).over_spec(billion);
    let other = Binary64::whole_spec(right).over_spec(billion);
    lemma_pow2_pos(1074);
    lemma_fraction(left);
    lemma_fraction(right);
    whole_numbers_are_exact(first);
    whole_numbers_are_exact(second);
    let low = first * one + fraction.units();
    let high = second * one + other.units();
    if first == second {
        let small = Binary64::whole_spec(left).size() * one;
        let large = Binary64::whole_spec(right).size() * one;
        assert(small <= large) by (nonlinear_arith)
            requires
                small == (left * one) * one,
                large == (right * one) * one,
                left <= right,
                one > 0,
        ;
        rounding_keeps_order(small, large, billion.size());
        if fraction.magnitude_bits() < other.magnitude_bits() {
            lemma_magnitude_increases(fraction.magnitude_bits(), other.magnitude_bits());
        }
    } else {
        assert(first * one + one <= second * one) by (nonlinear_arith)
            requires
                first + 1 <= second,
                one > 0,
        ;
    }
    assert(0 <= low <= high) by {
        assert(first * one >= 0) by (nonlinear_arith);
    }
    rounding_keeps_order(low as nat, high as nat, 1);
    lemma_nearest_bound(low as nat, 1);
    lemma_nearest_bound(high as nat, 1);
    lemma_size_zero(0);
    let shown = nearest(low as nat, 1);
    let far = nearest(high as nat, 1);
    if shown < far {
        lemma_magnitude_increases(shown, far);
    }
    if shorter.nanos == parts * 1_953_125 {
        let rest = (parts % 512) as nat;
        assert(shorter.nanos == first * 1_000_000_000 + left);
        assert(parts == first * 512 + rest && left == rest * 1_953_125);
        lemma_pow2_adds(9, 1065);
        lemma2_to64();
        let unit = pow2(1065);
        assert(one == 512 * unit);
        let quotient = halves_are_doubles(rest, 9);
        assert(left * one == 1_000_000_000 * (rest * unit)) by (nonlinear_arith)
            requires
                left == rest * 1_953_125,
                one == 512 * unit,
        ;
        whole_quotients_are_exact(Binary64::whole_spec(left), 1_000_000_000, quotient);
        let sum = halves_are_doubles(parts, 9);
        assert(parts * unit == first * one + rest * unit) by (nonlinear_arith)
            requires
                parts == first * 512 + rest,
                one == 512 * unit,
        ;
        sums_are_exact(Binary64::whole_spec(first), fraction, sum);
        assert(512 * (parts * unit) == parts * one) by (nonlinear_arith)
            requires
                one == 512 * unit,
        ;
    }
}

} // verus!
