//! A rolling cross-correlation between the published oracle's returns and the local
//! ones.

use vstd::arithmetic::power2::{lemma2_to64, lemma2_to64_rest, lemma_pow2_adds, pow2};
use vstd::prelude::*;

use crate::float::arithmetic::{lemma_size_zero, one_in_units};
use crate::float::bounds::{
    differences_stay_within, gap, is_whole, lemma_power, lemma_quotient_not_finite,
    numbers_are_ordered, order_does_not_matter, power_bits, products_are_nearest,
    products_stay_within, quotients_are_numbers, quotients_stay_within, sums_stay_within,
    whole_arithmetic_is_exact, whole_numbers_are_doubles, whole_numbers_are_exact,
    whole_quotients_are_exact,
};
use crate::float::root::{roots_are_nearest, roots_undo_squares};
use crate::float::round::{lemma_magnitude_increases, lemma_magnitude_of, lemma_powers};
use crate::float::Binary64;
use crate::time::{Duration, Instant, NANOS_PER_MILLI, NANOS_PER_SECOND};

verus! {

/// The bits of 2^-52, the gap between one and the next double.
pub const EPSILON_BITS: u64 = 0x3cb0_0000_0000_0000;

/// The bits of the double nearest to 0.30.
pub const MINIMUM_CORRELATION_BITS: u64 = 0x3fd3_3333_3333_3333;

/// The bits of the double nearest to 0.05.
pub const MINIMUM_GAIN_BITS: u64 = 0x3fa9_9999_9999_999a;

/// The bits of 1024, which no logarithm of a positive double reaches in size.
pub const LOGARITHM_LIMIT_BITS: u64 = 0x4090_0000_0000_0000;

/// A price and when it was seen.
#[derive(Clone, Copy, Debug, PartialEq, Eq, Structural)]
pub struct PriceSample {
    /// When it was seen.
    pub at: Instant,
    /// The price.
    pub price: Binary64,
}

/// What can be said of a lead.
#[derive(Clone, Copy, Debug, PartialEq, Eq, Structural)]
pub enum LeadStatus {
    /// The oracle's history is still too short.
    Insufficient,
    /// No lead stands out.
    Weak,
    /// A lead stands out.
    Candidate,
}

/// An estimate of how far the local price leads the published one.
#[derive(Clone, Copy, Debug)]
pub struct LeadLag {
    /// The lag with the highest correlation, in milliseconds; positive if the local
    /// price moves first.
    pub lead_ms: i64,
    /// The highest correlation.
    pub peak_correlation: Binary64,
    /// The correlation without a lag, if there is one.
    pub zero_lag_correlation: Option<Binary64>,
    /// The highest correlation minus the one without a lag.
    pub correlation_gain: Option<Binary64>,
    /// The number of intervals behind the highest correlation.
    pub samples: usize,
    /// The time that the oracle's history spans.
    pub coverage: Duration,
    /// What can be said of the lead.
    pub status: LeadStatus,
}

/// The estimate before there is any history.
pub open spec fn no_estimate() -> LeadLag {
    LeadLag {
        lead_ms: 0,
        peak_correlation: Binary64 { bits: 0 },
        zero_lag_correlation: None,
        correlation_gain: None,
        samples: 0,
        coverage: Duration { nanos: 0 },
        status: LeadStatus::Insufficient,
    }
}

impl Default for LeadLag {
    fn default() -> (estimate: LeadLag)
        ensures
            estimate == no_estimate(),
    {
        LeadLag {
            lead_ms: 0,
            peak_correlation: Binary64 { bits: 0 },
            zero_lag_correlation: None,
            correlation_gain: None,
            samples: 0,
            coverage: Duration { nanos: 0 },
            status: LeadStatus::Insufficient,
        }
    }
}

/// How to estimate a lead.
#[derive(Clone, Copy, Debug, PartialEq, Eq, Structural)]
pub struct LeadLagConfig {
    /// How much of the oracle's history is used.
    pub window: Duration,
    /// How old a local price may be.
    pub max_quote_age: Duration,
    /// How far back the scan begins: the first lag is minus this.
    pub minimum_lag: Duration,
    /// The last lag.
    pub maximum_lag: Duration,
    /// The distance between two lags.
    pub step: Duration,
    /// The lowest correlation of a candidate.
    pub minimum_correlation: Binary64,
    /// The lowest gain over the correlation without a lag of a candidate.
    pub minimum_gain: Binary64,
}

/// The 64-bit number that the low 64 bits of a number write in two's complement.
pub open spec fn wrapped(value: nat) -> int {
    let low = value % 0x1_0000_0000_0000_0000;
    if low < 0x8000_0000_0000_0000 {
        low as int
    } else {
        low - 0x1_0000_0000_0000_0000
    }
}

impl LeadLagConfig {
    /// How long the oracle's history must be, in seconds.
    pub const MINIMUM_HISTORY_SECS: u64 = 120;

    /// How long the oracle's history must be.
    pub fn minimum_history() -> (span: Duration)
        ensures
            span.nanos == Self::MINIMUM_HISTORY_SECS * NANOS_PER_SECOND,
    {
        Duration::from_secs(Self::MINIMUM_HISTORY_SECS)
    }

    /// Lags from -3 s to 6 s in steps of 100 ms over five minutes; a candidate has a
    /// correlation of at least 0.30 and a gain of at least 0.05.
    pub fn market_making(max_quote_age: Duration) -> (config: LeadLagConfig)
        ensures
            config == Self::market_making_spec(max_quote_age),
            config.sound(),
    {
        proof {
            assert(wrapped(100) == 100);
            assert(wrapped(3_000) == 3_000);
        }
        LeadLagConfig {
            window: Duration::from_secs(300),
            max_quote_age,
            minimum_lag: Duration::from_secs(3),
            maximum_lag: Duration::from_secs(6),
            step: Duration::from_millis(100),
            minimum_correlation: Binary64 { bits: MINIMUM_CORRELATION_BITS },
            minimum_gain: Binary64 { bits: MINIMUM_GAIN_BITS },
        }
    }

    /// Lags from -3 s to 6 s in steps of 100 ms over five minutes; a candidate has a
    /// correlation of at least 0.30 and a gain of at least 0.05.
    pub open spec fn market_making_spec(max_quote_age: Duration) -> LeadLagConfig {
        LeadLagConfig {
            window: Duration { nanos: 300_000_000_000 },
            max_quote_age,
            minimum_lag: Duration { nanos: 3_000_000_000 },
            maximum_lag: Duration { nanos: 6_000_000_000 },
            step: Duration { nanos: 100_000_000 },
            minimum_correlation: Binary64 { bits: MINIMUM_CORRELATION_BITS },
            minimum_gain: Binary64 { bits: MINIMUM_GAIN_BITS },
        }
    }

    /// The first lag in milliseconds.
    pub open spec fn first_lag(self) -> int {
        -wrapped((self.minimum_lag.nanos / NANOS_PER_MILLI) as nat)
    }

    /// The last lag in milliseconds.
    pub open spec fn last_lag(self) -> int {
        wrapped((self.maximum_lag.nanos / NANOS_PER_MILLI) as nat)
    }

    /// The distance between two lags in milliseconds.
    pub open spec fn lag_step(self) -> int {
        ((self.step.nanos / NANOS_PER_MILLI) as nat % 0x1_0000_0000_0000_0000) as int
    }

    /// There is no step, or it is at least a millisecond and the first lag is a 64-bit
    /// number.
    pub open spec fn sound(self) -> bool {
        self.step.nanos == 0 || (self.lag_step() != 0 && self.first_lag() <= i64::MAX)
    }

    /// Whether there is no step, or it is at least a millisecond and the first lag is
    /// a 64-bit number.
    pub fn is_sound(&self) -> (result: bool)
        ensures
            result == self.sound(),
    {
        self.step.nanos == 0 || (low_bits(self.step) != 0 && signed_millis(self.minimum_lag)
            != i64::MIN)
    }
}

fn low_bits(span: Duration) -> (low: u64)
    ensures
        low == (span.nanos / NANOS_PER_MILLI) as nat % 0x1_0000_0000_0000_0000,
{
    (span.as_millis() % 0x1_0000_0000_0000_0000) as u64
}

fn signed_millis(span: Duration) -> (millis: i64)
    ensures
        millis == wrapped((span.nanos / NANOS_PER_MILLI) as nat),
{
    let low: u64 = low_bits(span);
    if low < 0x8000_0000_0000_0000 {
        low as i64
    } else {
        (low as i128 - 0x1_0000_0000_0000_0000) as i64
    }
}

/// The number of leading samples from `from` on, with those before, that were seen
/// before `limit`.
pub open spec fn leading(samples: Seq<PriceSample>, limit: int, from: int) -> int
    decreases samples.len() - from,
{
    if from < samples.len() && samples[from].at.nanos < limit {
        leading(samples, limit, from + 1)
    } else {
        from
    }
}

/// The samples stand in the order in which they were seen.
pub open spec fn chronological(samples: Seq<PriceSample>) -> bool {
    forall|i: int, j: int|
        0 <= i <= j < samples.len() ==> (#[trigger] samples[i]).at.nanos <= (
        #[trigger] samples[j]).at.nanos
}

/// Where all samples before `count` were seen before `limit`, and the next was not,
/// `count` of them lead.
proof fn lemma_leading(samples: Seq<PriceSample>, limit: int, from: int, count: int)
    requires
        0 <= from <= count <= samples.len(),
        forall|i: int| 0 <= i < count ==> (#[trigger] samples[i]).at.nanos < limit,
        count < samples.len() ==> samples[count].at.nanos >= limit,
    ensures
        leading(samples, limit, from) == count,
    decreases count - from,
{
    if from < count {
        assert(samples[from].at.nanos < limit);
        lemma_leading(samples, limit, from + 1, count);
    }
}

/// What leads, and what stops it.
proof fn lemma_leading_holds(samples: Seq<PriceSample>, limit: int, from: int)
    requires
        0 <= from <= samples.len(),
    ensures
        from <= leading(samples, limit, from) <= samples.len(),
        forall|i: int|
            from <= i < leading(samples, limit, from) ==> (#[trigger] samples[i]).at.nanos < limit,
        leading(samples, limit, from) < samples.len() ==> samples[leading(
            samples,
            limit,
            from,
        )].at.nanos >= limit,
    decreases samples.len() - from,
{
    if from < samples.len() && samples[from].at.nanos < limit {
        lemma_leading_holds(samples, limit, from + 1);
    }
}

fn is_chronological(samples: &[PriceSample]) -> (result: bool)
    ensures
        result == chronological(samples@),
{
    let mut index: usize = 1;
    while index < samples.len()
        invariant
            1 <= index,
            samples@.len() > 0 ==> index <= samples@.len(),
            forall|i: int, j: int|
                0 <= i <= j < index && j < samples@.len() ==> (#[trigger] samples@[i]).at.nanos <= (
                #[trigger] samples@[j]).at.nanos,
        decreases samples.len() - index,
    {
        if samples[index - 1].at.nanos > samples[index].at.nanos {
            return false;
        }
        index = index + 1;
    }
    true
}

fn is_before(sample: PriceSample, at: Instant, inclusive: bool) -> (result: bool)
    ensures
        result == (sample.at.nanos < at.nanos + if inclusive {
            1int
        } else {
            0
        }),
{
    sample.at.nanos < at.nanos || (inclusive && sample.at.nanos == at.nanos)
}

/// The number of leading samples seen before `at`, or at it where `inclusive`.
/// `sorted` says that the samples stand in order, which shortens the search.
fn count_before(samples: &[PriceSample], sorted: bool, at: Instant, inclusive: bool) -> (count:
    usize)
    requires
        sorted ==> chronological(samples@),
    ensures
        count == leading(
            samples@,
            at.nanos + if inclusive {
                1int
            } else {
                0
            },
            0,
        ),
        count <= samples@.len(),
{
    let ghost limit = at.nanos + if inclusive {
        1int
    } else {
        0
    };
    let mut low: usize = 0;
    if sorted {
        let mut high: usize = samples.len();
        while low < high
            invariant
                low <= high <= samples@.len(),
                chronological(samples@),
                limit == at.nanos + if inclusive {
                    1int
                } else {
                    0
                },
                forall|i: int| 0 <= i < low ==> (#[trigger] samples@[i]).at.nanos < limit,
                forall|i: int|
                    high <= i < samples@.len() ==> (#[trigger] samples@[i]).at.nanos >= limit,
            decreases high - low,
        {
            let middle: usize = low + (high - low) / 2;
            if is_before(samples[middle], at, inclusive) {
                low = middle + 1;
            } else {
                high = middle;
            }
        }
    } else {
        while low < samples.len() && is_before(samples[low], at, inclusive)
            invariant
                low <= samples@.len(),
                limit == at.nanos + if inclusive {
                    1int
                } else {
                    0
                },
                forall|i: int| 0 <= i < low ==> (#[trigger] samples@[i]).at.nanos < limit,
            decreases samples.len() - low,
        {
            low = low + 1;
        }
    }
    proof {
        lemma_leading(samples@, limit, 0, low as int);
    }
    low
}

/// Where the oracle's history begins: `window` before now, or now if the clock does not
/// reach back so far.
pub open spec fn window_start(now: Instant, window: Duration) -> int {
    if window.nanos <= now.nanos {
        now.nanos - window.nanos
    } else {
        now.nanos as int
    }
}

/// The samples of the window: all from the first that was not seen before its start.
pub open spec fn official_window_spec(
    samples: Seq<PriceSample>,
    now: Instant,
    window: Duration,
) -> Seq<PriceSample> {
    samples.subrange(leading(samples, window_start(now, window), 0), samples.len() as int)
}

/// The samples of the window: all from the first that was not seen before its start.
pub fn official_window<'a>(
    samples: &'a [PriceSample],
    now: Instant,
    window: Duration,
) -> (result: &'a [PriceSample])
    ensures
        result@ == official_window_spec(samples@, now, window),
{
    let start: Instant = match now.checked_sub(window) {
        Some(start) => start,
        None => now,
    };
    let first: usize = count_before(samples, is_chronological(samples), start, false);
    vstd::slice::slice_subrange(samples, first, samples.len())
}

/// A point in time moved back by a lead, or forward by a negative one.
pub open spec fn shift_spec(at: Instant, lead_ms: i64) -> Option<Instant> {
    let moved = at.nanos - lead_ms * NANOS_PER_MILLI;
    if 0 <= moved <= u128::MAX {
        Some(Instant { nanos: moved as u128 })
    } else {
        None
    }
}

/// A point in time moved back by a lead, or forward by a negative one.
pub fn shift(at: Instant, lead_ms: i64) -> (result: Option<Instant>)
    ensures
        result == shift_spec(at, lead_ms),
{
    if lead_ms >= 0 {
        at.checked_sub(Duration::from_millis(lead_ms as u64))
    } else {
        let back: i128 = -(lead_ms as i128);
        at.checked_add(Duration::from_millis(back as u64))
    }
}

/// The last leading sample seen by a point in time, if it is not too old.
pub open spec fn local_at_spec(
    samples: Seq<PriceSample>,
    at: Instant,
    max_quote_age: Duration,
) -> Option<PriceSample> {
    let count = leading(samples, at.nanos + 1, 0);
    if count > 0 && at.nanos_since(samples[count - 1].at) <= max_quote_age.nanos {
        Some(samples[count - 1])
    } else {
        None
    }
}

fn local_at(samples: &[PriceSample], sorted: bool, at: Instant, max_quote_age: Duration) -> (result:
    Option<PriceSample>)
    requires
        sorted ==> chronological(samples@),
    ensures
        result == local_at_spec(samples@, at, max_quote_age),
{
    let count: usize = count_before(samples, sorted, at, true);
    if count == 0 {
        return None;
    }
    let sample: PriceSample = samples[count - 1];
    if at.saturating_duration_since(sample.at).nanos <= max_quote_age.nanos {
        Some(sample)
    } else {
        None
    }
}

/// The quotient of two prices, if both are positive and finite.
pub open spec fn price_ratio_spec(previous: Binary64, current: Binary64) -> Option<Binary64> {
    if previous.positive_finite() && current.positive_finite() {
        Some(current.over_spec(previous))
    } else {
        None
    }
}

/// The quotient of two prices, if both are positive and finite. Its logarithm is the
/// return from the first to the second.
pub fn price_ratio(previous: Binary64, current: Binary64) -> (result: Option<Binary64>)
    ensures
        result == price_ratio_spec(previous, current),
{
    if previous.is_positive_finite() && current.is_positive_finite() {
        Some(current.over(previous))
    } else {
        None
    }
}

/// The local and the published quotient of an interval between two oracle samples,
/// the local one over the interval moved back by the lead.
pub open spec fn interval_ratios_spec(
    local: Seq<PriceSample>,
    previous: PriceSample,
    current: PriceSample,
    lead_ms: i64,
    max_quote_age: Duration,
) -> Option<(Binary64, Binary64)> {
    match (shift_spec(previous.at, lead_ms), shift_spec(current.at, lead_ms)) {
        (Some(from), Some(to)) => match (
            local_at_spec(local, from, max_quote_age),
            local_at_spec(local, to, max_quote_age),
        ) {
            (Some(local_previous), Some(local_current)) => match (
                price_ratio_spec(local_previous.price, local_current.price),
                price_ratio_spec(previous.price, current.price),
            ) {
                (Some(ratio), Some(official)) => Some((ratio, official)),
                _ => None,
            },
            _ => None,
        },
        _ => None,
    }
}

fn interval_ratios(
    local: &[PriceSample],
    sorted: bool,
    previous: PriceSample,
    current: PriceSample,
    lead_ms: i64,
    max_quote_age: Duration,
) -> (result: Option<(Binary64, Binary64)>)
    requires
        sorted ==> chronological(local@),
    ensures
        result == interval_ratios_spec(local@, previous, current, lead_ms, max_quote_age),
{
    match (shift(previous.at, lead_ms), shift(current.at, lead_ms)) {
        (Some(from), Some(to)) => match (
            local_at(local, sorted, from, max_quote_age),
            local_at(local, sorted, to, max_quote_age),
        ) {
            (Some(local_previous), Some(local_current)) => match (
                price_ratio(local_previous.price, local_current.price),
                price_ratio(previous.price, current.price),
            ) {
                (Some(ratio), Some(official)) => Some((ratio, official)),
                _ => None,
            },
            _ => None,
        },
        _ => None,
    }
}

/// The quotients of the first `count` intervals that have them, at one lead.
pub open spec fn ratios_up_to(
    local: Seq<PriceSample>,
    official: Seq<PriceSample>,
    lead_ms: i64,
    max_quote_age: Duration,
    count: nat,
) -> Seq<(Binary64, Binary64)>
    decreases count,
{
    if count == 0 {
        Seq::empty()
    } else {
        let before = ratios_up_to(local, official, lead_ms, max_quote_age, (count - 1) as nat);
        match interval_ratios_spec(
            local,
            official[count - 1],
            official[count as int],
            lead_ms,
            max_quote_age,
        ) {
            Some(ratios) => before.push(ratios),
            None => before,
        }
    }
}

/// The quotients of all intervals that have them, at one lead.
pub open spec fn ratios_at(
    local: Seq<PriceSample>,
    official: Seq<PriceSample>,
    lead_ms: i64,
    max_quote_age: Duration,
) -> Seq<(Binary64, Binary64)> {
    ratios_up_to(local, official, lead_ms, max_quote_age, (official.len() - 1) as nat)
}

fn collect_ratios(
    local: &[PriceSample],
    sorted: bool,
    official: &[PriceSample],
    lead_ms: i64,
    max_quote_age: Duration,
) -> (ratios: Vec<(Binary64, Binary64)>)
    requires
        sorted ==> chronological(local@),
        official@.len() >= 1,
    ensures
        ratios@ == ratios_at(local@, official@, lead_ms, max_quote_age),
{
    let mut ratios: Vec<(Binary64, Binary64)> = Vec::new();
    let mut index: usize = 1;
    while index < official.len()
        invariant
            1 <= index <= official@.len(),
            sorted ==> chronological(local@),
            ratios@ == ratios_up_to(
                local@,
                official@,
                lead_ms,
                max_quote_age,
                (index - 1) as nat,
            ),
        decreases official.len() - index,
    {
        match interval_ratios(
            local,
            sorted,
            official[index - 1],
            official[index],
            lead_ms,
            max_quote_age,
        ) {
            Some(pair) => {
                ratios.push(pair);
            },
            None => {},
        }
        index = index + 1;
    }
    ratios
}

/// The quotients at all leads from `lag` on, one lead after the other.
pub open spec fn ratios_from(
    local: Seq<PriceSample>,
    official: Seq<PriceSample>,
    config: LeadLagConfig,
    lag: int,
) -> Seq<(Binary64, Binary64)>
    decreases if lag > config.last_lag() { 0 } else { config.last_lag() - lag + 1 },
{
    if lag > config.last_lag() || config.lag_step() <= 0 {
        Seq::empty()
    } else {
        ratios_at(local, official, lag as i64, config.max_quote_age) + ratios_from(
            local,
            official,
            config,
            lag + config.lag_step(),
        )
    }
}

/// There is history to compare and a step to scan with.
pub open spec fn comparable(official: Seq<PriceSample>, config: LeadLagConfig) -> bool {
    official.len() >= 2 && config.step.nanos != 0
}

/// The quotients whose logarithms an estimate needs, each pair local first.
pub open spec fn log_arguments_spec(
    local: Seq<PriceSample>,
    official: Seq<PriceSample>,
    now: Instant,
    config: LeadLagConfig,
) -> Seq<(Binary64, Binary64)> {
    let window = official_window_spec(official, now, config.window);
    if comparable(window, config) {
        ratios_from(local, window, config, config.first_lag())
    } else {
        Seq::empty()
    }
}

/// The quotients whose logarithms an estimate needs, each pair local first.
pub fn log_arguments(
    local: &[PriceSample],
    official: &[PriceSample],
    now: Instant,
    config: LeadLagConfig,
) -> (arguments: Vec<(Binary64, Binary64)>)
    requires
        comparable(official_window_spec(official@, now, config.window), config) ==> config.sound(),
    ensures
        arguments@ == log_arguments_spec(local@, official@, now, config),
{
    let mut arguments: Vec<(Binary64, Binary64)> = Vec::new();
    let window: &[PriceSample] = official_window(official, now, config.window);
    if window.len() < 2 || config.step.nanos == 0 {
        return arguments;
    }
    let sorted: bool = is_chronological(local);
    let last: i128 = signed_millis(config.maximum_lag) as i128;
    let step: i128 = low_bits(config.step) as i128;
    let mut lag: i128 = -(signed_millis(config.minimum_lag) as i128);
    let ghost all = ratios_from(local@, window@, config, lag as int);
    while lag <= last
        invariant
            sorted ==> chronological(local@),
            window@.len() >= 2,
            last == config.last_lag(),
            step == config.lag_step(),
            0 < step <= u64::MAX,
            i64::MIN <= lag <= 0x1_0000_0000_0000_0000 + i64::MAX,
            last <= i64::MAX,
            all == arguments@ + ratios_from(local@, window@, config, lag as int),
        decreases if lag > last { 0 } else { last - lag + 1 },
    {
        let mut ratios: Vec<(Binary64, Binary64)> = collect_ratios(
            local,
            sorted,
            window,
            lag as i64,
            config.max_quote_age,
        );
        let ghost before = arguments@;
        let ghost here = ratios@;
        arguments.append(&mut ratios);
        proof {
            let rest = ratios_from(local@, window@, config, lag + step);
            assert(before + (here + rest) =~= (before + here) + rest);
        }
        lag = lag + step;
    }
    proof {
        assert(arguments@ + ratios_from(local@, window@, config, lag as int) =~= arguments@);
    }
    arguments
}

/// The pairs of returns whose published one differs from zero by more than 2^-52.
pub open spec fn moving(logs: Seq<(Binary64, Binary64)>) -> Seq<(Binary64, Binary64)>
    decreases logs.len(),
{
    if logs.len() == 0 {
        Seq::empty()
    } else {
        let before = moving(logs.drop_last());
        if (Binary64 { bits: EPSILON_BITS }).below(logs.last().1.absolute_spec()) {
            before.push(logs.last())
        } else {
            before
        }
    }
}

fn collect_moving(logs: &[(Binary64, Binary64)], from: usize, to: usize) -> (pairs: Vec<
    (Binary64, Binary64),
>)
    requires
        from <= to <= logs@.len(),
    ensures
        pairs@ == moving(logs@.subrange(from as int, to as int)),
        pairs@.len() <= to - from,
{
    let mut pairs: Vec<(Binary64, Binary64)> = Vec::new();
    let mut index: usize = from;
    while index < to
        invariant
            from <= index <= to <= logs@.len(),
            pairs@ == moving(logs@.subrange(from as int, index as int)),
            pairs@.len() <= index - from,
        decreases to - index,
    {
        proof {
            let more = logs@.subrange(from as int, index + 1);
            assert(more.drop_last() =~= logs@.subrange(from as int, index as int));
            assert(more.last() == logs@[index as int]);
        }
        let pair: (Binary64, Binary64) = logs[index];
        let epsilon: Binary64 = Binary64 { bits: EPSILON_BITS };
        if epsilon.is_below(pair.1.absolute()) {
            pairs.push(pair);
        }
        index = index + 1;
    }
    pairs
}

/// The sums of the first and of the second members, added one after the other.
pub open spec fn sums(pairs: Seq<(Binary64, Binary64)>) -> (Binary64, Binary64)
    decreases pairs.len(),
{
    if pairs.len() == 0 {
        (Binary64 { bits: 0 }, Binary64 { bits: 0 })
    } else {
        let before = sums(pairs.drop_last());
        (before.0.plus_spec(pairs.last().0), before.1.plus_spec(pairs.last().1))
    }
}

/// The sums of the products and of the squares of the distances from the means: the
/// covariance and both variances, times the number of pairs.
pub open spec fn moments(
    pairs: Seq<(Binary64, Binary64)>,
    mean_x: Binary64,
    mean_y: Binary64,
) -> (Binary64, Binary64, Binary64)
    decreases pairs.len(),
{
    if pairs.len() == 0 {
        (Binary64 { bits: 0 }, Binary64 { bits: 0 }, Binary64 { bits: 0 })
    } else {
        let before = moments(pairs.drop_last(), mean_x, mean_y);
        let dx = pairs.last().0.minus_spec(mean_x);
        let dy = pairs.last().1.minus_spec(mean_y);
        (
            before.0.plus_spec(dx.times_spec(dy)),
            before.1.plus_spec(dx.times_spec(dx)),
            before.2.plus_spec(dy.times_spec(dy)),
        )
    }
}

/// Pearson's correlation of at least two pairs, in rounded arithmetic, if they vary.
pub open spec fn correlation_spec(pairs: Seq<(Binary64, Binary64)>) -> Option<Binary64> {
    let count = Binary64::whole_spec(pairs.len());
    let (sum_x, sum_y) = sums(pairs);
    let (covariance, variance_x, variance_y) = moments(
        pairs,
        sum_x.over_spec(count),
        sum_y.over_spec(count),
    );
    let denominator = variance_x.times_spec(variance_y).root_spec();
    if pairs.len() >= 2 && (Binary64 { bits: EPSILON_BITS }).below(denominator) {
        Some(covariance.over_spec(denominator))
    } else {
        None
    }
}

fn add_up(pairs: &[(Binary64, Binary64)]) -> (result: (Binary64, Binary64))
    ensures
        result == sums(pairs@),
{
    let mut sum_x: Binary64 = Binary64 { bits: 0 };
    let mut sum_y: Binary64 = Binary64 { bits: 0 };
    let mut index: usize = 0;
    while index < pairs.len()
        invariant
            index <= pairs@.len(),
            (sum_x, sum_y) == sums(pairs@.take(index as int)),
        decreases pairs.len() - index,
    {
        proof {
            assert(pairs@.take(index + 1).drop_last() =~= pairs@.take(index as int));
            assert(pairs@.take(index + 1).last() == pairs@[index as int]);
        }
        let pair: (Binary64, Binary64) = pairs[index];
        sum_x = sum_x.plus(pair.0);
        sum_y = sum_y.plus(pair.1);
        index = index + 1;
    }
    proof {
        assert(pairs@.take(index as int) =~= pairs@);
    }
    (sum_x, sum_y)
}

fn add_moments(pairs: &[(Binary64, Binary64)], mean_x: Binary64, mean_y: Binary64) -> (result: (
    Binary64,
    Binary64,
    Binary64,
))
    ensures
        result == moments(pairs@, mean_x, mean_y),
{
    let mut covariance: Binary64 = Binary64 { bits: 0 };
    let mut variance_x: Binary64 = Binary64 { bits: 0 };
    let mut variance_y: Binary64 = Binary64 { bits: 0 };
    let mut index: usize = 0;
    while index < pairs.len()
        invariant
            index <= pairs@.len(),
            (covariance, variance_x, variance_y) == moments(
                pairs@.take(index as int),
                mean_x,
                mean_y,
            ),
        decreases pairs.len() - index,
    {
        proof {
            assert(pairs@.take(index + 1).drop_last() =~= pairs@.take(index as int));
            assert(pairs@.take(index + 1).last() == pairs@[index as int]);
        }
        let pair: (Binary64, Binary64) = pairs[index];
        let dx: Binary64 = pair.0.minus(mean_x);
        let dy: Binary64 = pair.1.minus(mean_y);
        covariance = covariance.plus(dx.times(dy));
        variance_x = variance_x.plus(dx.times(dx));
        variance_y = variance_y.plus(dy.times(dy));
        index = index + 1;
    }
    proof {
        assert(pairs@.take(index as int) =~= pairs@);
    }
    (covariance, variance_x, variance_y)
}

/// Pearson's correlation of at least two pairs, in rounded arithmetic, if they vary.
pub fn correlation(pairs: &[(Binary64, Binary64)]) -> (result: Option<Binary64>)
    ensures
        result == correlation_spec(pairs@),
{
    if pairs.len() < 2 {
        return None;
    }
    let count: Binary64 = Binary64::from_u64(pairs.len() as u64);
    let (sum_x, sum_y): (Binary64, Binary64) = add_up(pairs);
    let (covariance, variance_x, variance_y): (Binary64, Binary64, Binary64) = add_moments(
        pairs,
        sum_x.over(count),
        sum_y.over(count),
    );
    let denominator: Binary64 = variance_x.times(variance_y).root();
    let epsilon: Binary64 = Binary64 { bits: EPSILON_BITS };
    if epsilon.is_below(denominator) {
        Some(covariance.over(denominator))
    } else {
        None
    }
}

/// The double can be a logarithm of one: it is not finite, or at most 1024 in size.
pub open spec fn logarithmic(value: Binary64) -> bool {
    value.finite() ==> value.magnitude_bits() <= LOGARITHM_LIMIT_BITS
}

/// All members of all pairs can be logarithms.
pub open spec fn all_logarithmic(pairs: Seq<(Binary64, Binary64)>) -> bool {
    forall|i: int|
        0 <= i < pairs.len() ==> logarithmic((#[trigger] pairs[i]).0) && logarithmic(pairs[i].1)
}

/// The second or the first member of a pair.
spec fn member(pair: (Binary64, Binary64), second: bool) -> Binary64 {
    if second {
        pair.1
    } else {
        pair.0
    }
}

spec fn sum_of(pairs: Seq<(Binary64, Binary64)>, second: bool) -> Binary64 {
    member(sums(pairs), second)
}

spec fn variance_of(
    pairs: Seq<(Binary64, Binary64)>,
    mean_x: Binary64,
    mean_y: Binary64,
    second: bool,
) -> Binary64 {
    let found = moments(pairs, mean_x, mean_y);
    member((found.1, found.2), second)
}

/// The members of all pairs are finite.
spec fn all_finite(pairs: Seq<(Binary64, Binary64)>, second: bool) -> bool {
    forall|i: int| 0 <= i < pairs.len() ==> member(#[trigger] pairs[i], second).finite()
}

/// A sum of finite logarithms is bounded. With one that is not finite, the sum is not a
/// number, or it is an infinity and all that are not finite are the same.
proof fn lemma_sum(pairs: Seq<(Binary64, Binary64)>, second: bool)
    requires
        all_logarithmic(pairs),
    ensures
        ({
            let sum = sum_of(pairs, second);
            if all_finite(pairs, second) {
                sum.magnitude_bits() <= power_bits(64)
            } else {
                sum.nan() || (sum.infinite() && forall|i: int|
                    0 <= i < pairs.len() && !member(#[trigger] pairs[i], second).finite() ==> {
                        let value = member(pairs[i], second);
                        value.infinite() && value.negative() == sum.negative()
                    })
            }
        }),
    decreases pairs.len(),
{
    if pairs.len() > 0 {
        let earlier = pairs.drop_last();
        let before = sum_of(earlier, second);
        let term = member(pairs.last(), second);
        let sum = sum_of(pairs, second);
        assert forall|i: int| 0 <= i < earlier.len() implies logarithmic(
            (#[trigger] earlier[i]).0,
        ) && logarithmic(earlier[i].1) by {
            assert(earlier[i] == pairs[i]);
        }
        lemma_sum(earlier, second);
        assert(pairs[pairs.len() - 1] == pairs.last());
        assert(sum == before.plus_spec(term));
        assert(logarithmic(term));
        if all_finite(pairs, second) {
            assert forall|i: int| 0 <= i < earlier.len() implies member(
                #[trigger] earlier[i],
                second,
            ).finite() by {
                assert(earlier[i] == pairs[i]);
            }
            sums_stay_within(before, term, 64);
        } else {
            if all_finite(earlier, second) {
                assert forall|i: int| 0 <= i < earlier.len() implies member(
                    #[trigger] pairs[i],
                    second,
                ).finite() by {
                    assert(earlier[i] == pairs[i]);
                }
                assert(!term.finite());
            }
            assert forall|i: int|
                0 <= i < earlier.len() && !member(#[trigger] pairs[i], second).finite()
                    && before.infinite() implies {
                let value = member(pairs[i], second);
                value.infinite() && value.negative() == before.negative()
            } by {
                assert(earlier[i] == pairs[i]);
            }
        }
    }
}

/// Where one distance from the mean is not a number, neither is the variance.
proof fn lemma_variance_not_a_number(
    pairs: Seq<(Binary64, Binary64)>,
    mean_x: Binary64,
    mean_y: Binary64,
    second: bool,
    index: int,
)
    requires
        0 <= index < pairs.len(),
        member(pairs[index], second).minus_spec(member((mean_x, mean_y), second)).nan(),
    ensures
        variance_of(pairs, mean_x, mean_y, second).nan(),
    decreases pairs.len(),
{
    if index < pairs.len() - 1 {
        lemma_variance_not_a_number(pairs.drop_last(), mean_x, mean_y, second, index);
    }
}

/// With a logarithm that is not finite, the variance is not a number.
proof fn lemma_not_finite(pairs: Seq<(Binary64, Binary64)>, second: bool)
    requires
        all_logarithmic(pairs),
        !all_finite(pairs, second),
    ensures
        ({
            let count = Binary64::whole_spec(pairs.len());
            let (sum_x, sum_y) = sums(pairs);
            variance_of(pairs, sum_x.over_spec(count), sum_y.over_spec(count), second).nan()
        }),
{
    let count = Binary64::whole_spec(pairs.len());
    let (sum_x, sum_y) = sums(pairs);
    let index = choose|i: int|
        0 <= i < pairs.len() && !member(#[trigger] pairs[i], second).finite();
    lemma_sum(pairs, second);
    lemma_quotient_not_finite(sum_of(pairs, second), pairs.len());
    lemma_variance_not_a_number(
        pairs,
        sum_x.over_spec(count),
        sum_y.over_spec(count),
        second,
        index,
    );
}

/// The covariance of bounded pairs is bounded.
proof fn lemma_covariance(
    pairs: Seq<(Binary64, Binary64)>,
    mean_x: Binary64,
    mean_y: Binary64,
)
    requires
        all_logarithmic(pairs),
        all_finite(pairs, false),
        all_finite(pairs, true),
        mean_x.magnitude_bits() <= power_bits(64),
        mean_y.magnitude_bits() <= power_bits(64),
    ensures
        moments(pairs, mean_x, mean_y).0.magnitude_bits() <= power_bits(184),
    decreases pairs.len(),
{
    if pairs.len() > 0 {
        let earlier = pairs.drop_last();
        assert forall|i: int| 0 <= i < earlier.len() implies logarithmic(
            (#[trigger] earlier[i]).0,
        ) && logarithmic(earlier[i].1) && earlier[i].0.finite() && earlier[i].1.finite() by {
            assert(earlier[i] == pairs[i]);
            assert(member(pairs[i], false).finite() && member(pairs[i], true).finite());
        }
        lemma_covariance(earlier, mean_x, mean_y);
        let (x, y) = pairs.last();
        assert(pairs[pairs.len() - 1] == (x, y));
        assert(member(pairs[pairs.len() - 1], false).finite());
        assert(member(pairs[pairs.len() - 1], true).finite());
        let dx = x.minus_spec(mean_x);
        let dy = y.minus_spec(mean_y);
        differences_stay_within(x, mean_x, 10, 64);
        differences_stay_within(y, mean_y, 10, 64);
        products_stay_within(dx, dy, 65);
        sums_stay_within(moments(earlier, mean_x, mean_y).0, dx.times_spec(dy), 184);
    }
}

/// A correlation of logarithms is a number: where a logarithm is infinite or not a number,
/// there is no correlation.
pub proof fn correlations_are_numbers(pairs: Seq<(Binary64, Binary64)>)
    requires
        all_logarithmic(pairs),
    ensures
        correlation_spec(pairs) matches Some(correlation) ==> !correlation.nan(),
{
    let count = Binary64::whole_spec(pairs.len());
    let (sum_x, sum_y) = sums(pairs);
    let mean_x = sum_x.over_spec(count);
    let mean_y = sum_y.over_spec(count);
    let (covariance, variance_x, variance_y) = moments(pairs, mean_x, mean_y);
    if correlation_spec(pairs) is Some {
        if !all_finite(pairs, false) {
            lemma_not_finite(pairs, false);
        }
        if !all_finite(pairs, true) {
            lemma_not_finite(pairs, true);
        }
        lemma_sum(pairs, false);
        lemma_sum(pairs, true);
        quotients_stay_within(sum_x, pairs.len(), power_bits(64));
        quotients_stay_within(sum_y, pairs.len(), power_bits(64));
        lemma_covariance(pairs, mean_x, mean_y);
        quotients_are_numbers(covariance, variance_x.times_spec(variance_y).root_spec());
    }
}

/// A lag and the correlation at it.
#[derive(Clone, Copy, Debug, PartialEq, Eq, Structural)]
pub struct Peak {
    /// The lag in milliseconds.
    pub lag_ms: i64,
    /// The correlation.
    pub correlation: Binary64,
    /// The number of intervals behind it.
    pub samples: usize,
}

/// What a scan over lags has found.
#[derive(Clone, Copy, Debug, PartialEq, Eq, Structural)]
pub struct Scan {
    /// The highest correlation; of equal ones that at the smallest lag.
    pub best: Option<Peak>,
    /// The correlation without a lag.
    pub zero: Option<Binary64>,
}

/// The size of a number.
pub open spec fn size(value: int) -> int {
    if value < 0 {
        -value
    } else {
        value
    }
}

/// A peak stands above another: it is higher, or as high at a smaller lag.
pub open spec fn stands_above(candidate: Peak, current: Peak) -> bool {
    current.correlation.below(candidate.correlation) || (candidate.correlation.equals(
        current.correlation,
    ) && size(candidate.lag_ms as int) < size(current.lag_ms as int))
}

fn is_above(candidate: Peak, current: Peak) -> (result: bool)
    ensures
        result == stands_above(candidate, current),
{
    if current.correlation.is_below(candidate.correlation) {
        return true;
    }
    let new: i128 = candidate.lag_ms as i128;
    let old: i128 = current.lag_ms as i128;
    let new_size: i128 = if new < 0 { -new } else { new };
    let old_size: i128 = if old < 0 { -old } else { old };
    candidate.correlation.is_equal(current.correlation) && new_size < old_size
}

/// What a scan has found after one more lag with these pairs of returns.
pub open spec fn after_lag(scan: Scan, lag_ms: i64, pairs: Seq<(Binary64, Binary64)>) -> Scan {
    match correlation_spec(pairs) {
        None => scan,
        Some(correlation) => {
            let candidate = Peak { lag_ms, correlation, samples: pairs.len() as usize };
            Scan {
                best: match scan.best {
                    Some(current) => if stands_above(candidate, current) {
                        Some(candidate)
                    } else {
                        Some(current)
                    },
                    None => Some(candidate),
                },
                zero: if lag_ms == 0 {
                    Some(correlation)
                } else {
                    scan.zero
                },
            }
        },
    }
}

fn scan_lag(scan: Scan, lag_ms: i64, pairs: &[(Binary64, Binary64)]) -> (result: Scan)
    ensures
        result == after_lag(scan, lag_ms, pairs@),
{
    match correlation(pairs) {
        None => scan,
        Some(correlation) => {
            let candidate: Peak = Peak { lag_ms, correlation, samples: pairs.len() };
            let best: Peak = match scan.best {
                Some(current) => if is_above(candidate, current) {
                    candidate
                } else {
                    current
                },
                None => candidate,
            };
            let zero: Option<Binary64> = if lag_ms == 0 { Some(correlation) } else { scan.zero };
            Scan { best: Some(best), zero }
        },
    }
}

/// What a scan finds over all lags from `lag` on, given the logarithms of their
/// quotients.
pub open spec fn scan_from(
    local: Seq<PriceSample>,
    official: Seq<PriceSample>,
    config: LeadLagConfig,
    logs: Seq<(Binary64, Binary64)>,
    lag: int,
    scan: Scan,
) -> Scan
    decreases if lag > config.last_lag() { 0 } else { config.last_lag() - lag + 1 },
{
    if lag > config.last_lag() || config.lag_step() <= 0 {
        scan
    } else {
        let count = ratios_at(local, official, lag as i64, config.max_quote_age).len() as int;
        scan_from(
            local,
            official,
            config,
            logs.subrange(count, logs.len() as int),
            lag + config.lag_step(),
            after_lag(scan, lag as i64, moving(logs.subrange(0, count))),
        )
    }
}

/// A scan that has found nothing yet.
pub open spec fn empty_scan() -> Scan {
    Scan { best: None, zero: None }
}

fn scan_lags(
    local: &[PriceSample],
    official: &[PriceSample],
    config: LeadLagConfig,
    logs: &[(Binary64, Binary64)],
) -> (result: Scan)
    requires
        official@.len() >= 2,
        config.step.nanos != 0,
        config.sound(),
        logs@.len() == ratios_from(local@, official@, config, config.first_lag()).len(),
    ensures
        result == scan_from(local@, official@, config, logs@, config.first_lag(), empty_scan()),
{
    let sorted: bool = is_chronological(local);
    let last: i128 = signed_millis(config.maximum_lag) as i128;
    let step: i128 = low_bits(config.step) as i128;
    let mut lag: i128 = -(signed_millis(config.minimum_lag) as i128);
    let total: usize = logs.len();
    let mut position: usize = 0;
    let mut scan: Scan = Scan { best: None, zero: None };
    let ghost all = scan_from(local@, official@, config, logs@, lag as int, empty_scan());
    proof {
        assert(logs@.subrange(0, logs@.len() as int) =~= logs@);
    }
    while lag <= last
        invariant
            sorted ==> chronological(local@),
            official@.len() >= 2,
            last == config.last_lag(),
            step == config.lag_step(),
            0 < step <= u64::MAX,
            i64::MIN <= lag <= 0x1_0000_0000_0000_0000 + i64::MAX,
            last <= i64::MAX,
            total == logs@.len(),
            position + ratios_from(local@, official@, config, lag as int).len() == total,
            all == scan_from(
                local@,
                official@,
                config,
                logs@.subrange(position as int, logs@.len() as int),
                lag as int,
                scan,
            ),
        decreases if lag > last { 0 } else { last - lag + 1 },
    {
        let count: usize = collect_ratios(
            local,
            sorted,
            official,
            lag as i64,
            config.max_quote_age,
        ).len();
        proof {
            assert(ratios_from(local@, official@, config, lag as int).len() == count + ratios_from(
                local@,
                official@,
                config,
                lag + step,
            ).len());
        }
        let end: usize = position + count;
        let pairs: Vec<(Binary64, Binary64)> = collect_moving(logs, position, end);
        proof {
            let rest = logs@.subrange(position as int, logs@.len() as int);
            assert(rest.subrange(0, count as int) =~= logs@.subrange(position as int, end as int));
            assert(rest.subrange(count as int, rest.len() as int) =~= logs@.subrange(
                end as int,
                logs@.len() as int,
            ));
        }
        scan = scan_lag(scan, lag as i64, &pairs);
        position = end;
        lag = lag + step;
    }
    scan
}

/// The time from the first to the last sample.
pub open spec fn coverage_spec(samples: Seq<PriceSample>) -> Duration {
    if samples.len() == 0 {
        Duration { nanos: 0 }
    } else {
        Duration { nanos: samples.last().at.nanos_since(samples[0].at) as u128 }
    }
}

/// What can be said of a peak: nothing while the history is too short; a candidate
/// leads, correlates and gains enough.
pub open spec fn status_spec(
    best: Option<Peak>,
    gain: Option<Binary64>,
    coverage: Duration,
    config: LeadLagConfig,
) -> LeadStatus {
    if coverage.nanos < LeadLagConfig::MINIMUM_HISTORY_SECS * NANOS_PER_SECOND {
        LeadStatus::Insufficient
    } else {
        match (best, gain) {
            (Some(peak), Some(gain)) => if peak.lag_ms > 0 && config.minimum_correlation.at_most(
                peak.correlation,
            ) && config.minimum_gain.at_most(gain) {
                LeadStatus::Candidate
            } else {
                LeadStatus::Weak
            },
            _ => LeadStatus::Weak,
        }
    }
}

fn judge(
    best: Option<Peak>,
    gain: Option<Binary64>,
    coverage: Duration,
    config: LeadLagConfig,
) -> (status: LeadStatus)
    ensures
        status == status_spec(best, gain, coverage, config),
{
    if coverage.nanos < LeadLagConfig::minimum_history().nanos {
        return LeadStatus::Insufficient;
    }
    match (best, gain) {
        (Some(peak), Some(gain)) => if peak.lag_ms > 0 && config.minimum_correlation.is_at_most(
            peak.correlation,
        ) && config.minimum_gain.is_at_most(gain) {
            LeadStatus::Candidate
        } else {
            LeadStatus::Weak
        },
        _ => LeadStatus::Weak,
    }
}

/// The estimate that a scan's findings give.
pub open spec fn conclusion(scan: Scan, coverage: Duration, config: LeadLagConfig) -> LeadLag {
    match scan.best {
        None => LeadLag {
            coverage,
            status: status_spec(None, None, coverage, config),
            ..no_estimate()
        },
        Some(peak) => {
            let gain = match scan.zero {
                Some(zero) => Some(peak.correlation.minus_spec(zero)),
                None => None,
            };
            LeadLag {
                lead_ms: peak.lag_ms,
                peak_correlation: peak.correlation,
                zero_lag_correlation: scan.zero,
                correlation_gain: gain,
                samples: peak.samples,
                coverage,
                status: status_spec(scan.best, gain, coverage, config),
            }
        },
    }
}

fn conclude(scan: Scan, coverage: Duration, config: LeadLagConfig) -> (result: LeadLag)
    ensures
        result == conclusion(scan, coverage, config),
{
    match scan.best {
        None => {
            let status: LeadStatus = judge(None, None, coverage, config);
            LeadLag {
                lead_ms: 0,
                peak_correlation: Binary64 { bits: 0 },
                zero_lag_correlation: None,
                correlation_gain: None,
                samples: 0,
                coverage,
                status,
            }
        },
        Some(peak) => {
            let gain: Option<Binary64> = match scan.zero {
                Some(zero) => Some(peak.correlation.minus(zero)),
                None => None,
            };
            let status: LeadStatus = judge(scan.best, gain, coverage, config);
            LeadLag {
                lead_ms: peak.lag_ms,
                peak_correlation: peak.correlation,
                zero_lag_correlation: scan.zero,
                correlation_gain: gain,
                samples: peak.samples,
                coverage,
                status,
            }
        },
    }
}

/// The estimate of the local price's lead, given the logarithms of the quotients in
/// `log_arguments_spec`.
pub open spec fn estimate_spec(
    local: Seq<PriceSample>,
    official: Seq<PriceSample>,
    now: Instant,
    config: LeadLagConfig,
    logs: Seq<(Binary64, Binary64)>,
) -> LeadLag {
    let window = official_window_spec(official, now, config.window);
    if comparable(window, config) {
        conclusion(
            scan_from(local, window, config, logs, config.first_lag(), empty_scan()),
            coverage_spec(window),
            config,
        )
    } else {
        no_estimate()
    }
}

/// The estimate of the local price's lead, given the logarithms of the quotients that
/// `log_arguments` returns.
pub fn estimate(
    local: &[PriceSample],
    official: &[PriceSample],
    now: Instant,
    config: LeadLagConfig,
    logs: &[(Binary64, Binary64)],
) -> (result: LeadLag)
    requires
        comparable(official_window_spec(official@, now, config.window), config) ==> config.sound(),
        logs@.len() == log_arguments_spec(local@, official@, now, config).len(),
    ensures
        result == estimate_spec(local@, official@, now, config, logs@),
{
    let window: &[PriceSample] = official_window(official, now, config.window);
    if window.len() < 2 || config.step.nanos == 0 {
        return LeadLag::default();
    }
    let scan: Scan = scan_lags(local, window, config, logs);
    let coverage: Duration = window[window.len() - 1].at.saturating_duration_since(window[0].at);
    conclude(scan, coverage, config)
}

/// Of chronological samples, those from the window's start on are in the window, and
/// no others.
pub proof fn window_holds_recent_samples(
    samples: Seq<PriceSample>,
    now: Instant,
    window: Duration,
    index: int,
)
    requires
        chronological(samples),
        0 <= index < samples.len(),
    ensures
        ({
            let kept = official_window_spec(samples, now, window);
            let dropped = samples.len() - kept.len();
            if samples[index].at.nanos >= window_start(now, window) {
                dropped <= index && kept[index - dropped] == samples[index]
            } else {
                index < dropped
            }
        }),
{
    let start = window_start(now, window);
    lemma_leading_holds(samples, start, 0);
    let first = leading(samples, start, 0);
    if first < samples.len() {
        assert(samples[first].at.nanos >= start);
    }
}

/// Of chronological local samples, the one taken for a point in time was seen by then,
/// is not too old, and no later one was seen by then.
pub proof fn local_price_is_latest(
    samples: Seq<PriceSample>,
    at: Instant,
    max_quote_age: Duration,
    other: int,
)
    requires
        chronological(samples),
        0 <= other < samples.len(),
        samples[other].at.nanos <= at.nanos,
    ensures
        local_at_spec(samples, at, max_quote_age) matches Some(sample) ==> {
            &&& samples.contains(sample)
            &&& samples[other].at.nanos <= sample.at.nanos <= at.nanos
            &&& at.nanos - sample.at.nanos <= max_quote_age.nanos
        },
        at.nanos - samples[other].at.nanos <= max_quote_age.nanos ==> local_at_spec(
            samples,
            at,
            max_quote_age,
        ) is Some,
{
    lemma_leading_holds(samples, at.nanos + 1, 0);
    let count = leading(samples, at.nanos + 1, 0);
    if count <= other {
        assert(samples[count].at.nanos <= samples[other].at.nanos);
    }
    assert(samples[count - 1].at.nanos < at.nanos + 1);
    assert(samples[other].at.nanos <= samples[count - 1].at.nanos);
    assert(samples.contains(samples[count - 1]));
}

/// The lag after `index` steps.
pub open spec fn lag_at(config: LeadLagConfig, from: int, index: nat) -> int {
    from + index * config.lag_step()
}

/// The pairs of returns at the lag `index` steps after `lag`.
pub open spec fn pairs_at(
    local: Seq<PriceSample>,
    official: Seq<PriceSample>,
    config: LeadLagConfig,
    logs: Seq<(Binary64, Binary64)>,
    lag: int,
    index: nat,
) -> Seq<(Binary64, Binary64)>
    decreases index,
{
    let count = ratios_at(local, official, lag as i64, config.max_quote_age).len() as int;
    if index == 0 {
        moving(logs.subrange(0, count))
    } else {
        pairs_at(
            local,
            official,
            config,
            logs.subrange(count, logs.len() as int),
            lag + config.lag_step(),
            (index - 1) as nat,
        )
    }
}

/// A peak is what the scan finds at the lag `index` steps after `lag`.
pub open spec fn found_at(
    local: Seq<PriceSample>,
    official: Seq<PriceSample>,
    config: LeadLagConfig,
    logs: Seq<(Binary64, Binary64)>,
    lag: int,
    index: nat,
    peak: Peak,
) -> bool {
    let pairs = pairs_at(local, official, config, logs, lag, index);
    &&& lag_at(config, lag, index) <= config.last_lag()
    &&& peak.lag_ms == lag_at(config, lag, index)
    &&& correlation_spec(pairs) == Some(peak.correlation)
    &&& peak.samples == pairs.len()
}

/// The scan has a step, its lags from `lag` on are 64-bit numbers, and there is a pair
/// of logarithms for each quotient.
spec fn scannable(
    local: Seq<PriceSample>,
    official: Seq<PriceSample>,
    config: LeadLagConfig,
    logs: Seq<(Binary64, Binary64)>,
    lag: int,
) -> bool {
    &&& config.lag_step() > 0
    &&& i64::MIN <= lag
    &&& config.last_lag() <= i64::MAX
    &&& logs.len() == ratios_from(local, official, config, lag).len()
    &&& logs.len() <= usize::MAX
}

proof fn lemma_moving_length(logs: Seq<(Binary64, Binary64)>)
    ensures
        moving(logs).len() <= logs.len(),
    decreases logs.len(),
{
    if logs.len() > 0 {
        lemma_moving_length(logs.drop_last());
    }
}

/// What does not stand above a peak does not stand above one that stands above it.
proof fn lemma_above(other: Peak, candidate: Peak, current: Peak)
    requires
        !stands_above(other, current),
        stands_above(candidate, current),
    ensures
        !stands_above(other, candidate),
{
}

proof fn lemma_first_index(config: LeadLagConfig, lag: int)
    ensures
        lag_at(config, lag, 0) == lag,
{
    let step = config.lag_step();
    assert(0 * step == 0) by (nonlinear_arith);
}

/// Where `index` is not zero, what stands there is what stands one step earlier in the
/// rest of the scan.
proof fn lemma_next_index(config: LeadLagConfig, lag: int, index: nat)
    requires
        index > 0,
        config.lag_step() > 0,
    ensures
        lag_at(config, lag, index) == lag_at(config, lag + config.lag_step(), (index - 1) as nat),
        lag < lag_at(config, lag, index),
{
    let step = config.lag_step();
    assert(index * step == (index - 1) * step + step) by (nonlinear_arith);
    assert((index - 1) * step >= 0) by (nonlinear_arith)
        requires
            index > 0,
            step > 0,
    ;
}

proof fn lemma_scannable_rest(
    local: Seq<PriceSample>,
    official: Seq<PriceSample>,
    config: LeadLagConfig,
    logs: Seq<(Binary64, Binary64)>,
    lag: int,
)
    requires
        scannable(local, official, config, logs, lag),
        lag <= config.last_lag(),
    ensures
        ({
            let count = ratios_at(local, official, lag as i64, config.max_quote_age).len() as int;
            &&& count <= logs.len()
            &&& moving(logs.subrange(0, count)).len() <= usize::MAX
            &&& scannable(
                local,
                official,
                config,
                logs.subrange(count, logs.len() as int),
                lag + config.lag_step(),
            )
        }),
{
    let count = ratios_at(local, official, lag as i64, config.max_quote_age).len() as int;
    lemma_moving_length(logs.subrange(0, count));
}

/// A found peak is only replaced by one that stands above it.
proof fn lemma_scan_rises(
    local: Seq<PriceSample>,
    official: Seq<PriceSample>,
    config: LeadLagConfig,
    logs: Seq<(Binary64, Binary64)>,
    lag: int,
    scan: Scan,
    other: Peak,
)
    requires
        scan.best is Some,
        !stands_above(other, scan.best->Some_0),
    ensures
        ({
            let found = scan_from(local, official, config, logs, lag, scan);
            found.best is Some && !stands_above(other, found.best->Some_0)
        }),
    decreases if lag > config.last_lag() { 0 } else { config.last_lag() - lag + 1 },
{
    if lag <= config.last_lag() && config.lag_step() > 0 {
        let count = ratios_at(local, official, lag as i64, config.max_quote_age).len() as int;
        let next = after_lag(scan, lag as i64, moving(logs.subrange(0, count)));
        if next.best != scan.best {
            lemma_above(other, next.best->Some_0, scan.best->Some_0);
        }
        lemma_scan_rises(
            local,
            official,
            config,
            logs.subrange(count, logs.len() as int),
            lag + config.lag_step(),
            next,
            other,
        );
    }
}

proof fn lemma_scan_beats(
    local: Seq<PriceSample>,
    official: Seq<PriceSample>,
    config: LeadLagConfig,
    logs: Seq<(Binary64, Binary64)>,
    lag: int,
    scan: Scan,
    index: nat,
    other: Peak,
)
    requires
        scannable(local, official, config, logs, lag),
        found_at(local, official, config, logs, lag, index, other),
    ensures
        ({
            let found = scan_from(local, official, config, logs, lag, scan);
            found.best is Some && !stands_above(other, found.best->Some_0)
        }),
    decreases index,
{
    let step = config.lag_step();
    if index > 0 {
        lemma_next_index(config, lag, index);
    }
    lemma_scannable_rest(local, official, config, logs, lag);
    let count = ratios_at(local, official, lag as i64, config.max_quote_age).len() as int;
    let rest = logs.subrange(count, logs.len() as int);
    let next = after_lag(scan, lag as i64, moving(logs.subrange(0, count)));
    if index == 0 {
        lemma_first_index(config, lag);
        assert(!stands_above(other, next.best->Some_0));
        lemma_scan_rises(local, official, config, rest, lag + step, next, other);
    } else {
        lemma_scan_beats(
            local,
            official,
            config,
            rest,
            lag + step,
            next,
            (index - 1) as nat,
            other,
        );
    }
}

/// What a scan reports it had before or finds at one of its lags.
proof fn lemma_scan_origin(
    local: Seq<PriceSample>,
    official: Seq<PriceSample>,
    config: LeadLagConfig,
    logs: Seq<(Binary64, Binary64)>,
    lag: int,
    scan: Scan,
) -> (index: nat)
    requires
        scannable(local, official, config, logs, lag),
    ensures
        ({
            let found = scan_from(local, official, config, logs, lag, scan);
            found.best == scan.best || (found.best is Some && found_at(
                local,
                official,
                config,
                logs,
                lag,
                index,
                found.best->Some_0,
            ))
        }),
    decreases if lag > config.last_lag() { 0 } else { config.last_lag() - lag + 1 },
{
    if lag > config.last_lag() {
        0
    } else {
        let step = config.lag_step();
        lemma_scannable_rest(local, official, config, logs, lag);
        let count = ratios_at(local, official, lag as i64, config.max_quote_age).len() as int;
        let rest = logs.subrange(count, logs.len() as int);
        let next = after_lag(scan, lag as i64, moving(logs.subrange(0, count)));
        let found = scan_from(local, official, config, logs, lag, scan);
        let after = lemma_scan_origin(local, official, config, rest, lag + step, next);
        lemma_first_index(config, lag);
        if found.best == next.best {
            0
        } else {
            lemma_next_index(config, lag, after + 1);
            after + 1
        }
    }
}

/// The correlation without a lag is that at lag zero, where the scan reaches it.
proof fn lemma_scan_zero(
    local: Seq<PriceSample>,
    official: Seq<PriceSample>,
    config: LeadLagConfig,
    logs: Seq<(Binary64, Binary64)>,
    lag: int,
    scan: Scan,
    index: nat,
)
    requires
        scannable(local, official, config, logs, lag),
        lag_at(config, lag, index) == 0,
        config.last_lag() >= 0,
        scan.zero is None,
    ensures
        scan_from(local, official, config, logs, lag, scan).zero == correlation_spec(
            pairs_at(local, official, config, logs, lag, index),
        ),
    decreases index,
{
    let step = config.lag_step();
    if index > 0 {
        lemma_next_index(config, lag, index);
    } else {
        lemma_first_index(config, lag);
    }
    lemma_scannable_rest(local, official, config, logs, lag);
    let count = ratios_at(local, official, lag as i64, config.max_quote_age).len() as int;
    let rest = logs.subrange(count, logs.len() as int);
    let next = after_lag(scan, lag as i64, moving(logs.subrange(0, count)));
    if index == 0 {
        lemma_zero_stays(local, official, config, rest, lag + step, next);
    } else {
        lemma_scan_zero(local, official, config, rest, lag + step, next, (index - 1) as nat);
    }
}

/// A scan that meets lag zero nowhere leaves the correlation without a lag as it was.
proof fn lemma_no_zero(
    local: Seq<PriceSample>,
    official: Seq<PriceSample>,
    config: LeadLagConfig,
    logs: Seq<(Binary64, Binary64)>,
    lag: int,
    scan: Scan,
)
    requires
        scannable(local, official, config, logs, lag),
        forall|index: nat|
            #[trigger] lag_at(config, lag, index) <= config.last_lag() ==> lag_at(
                config,
                lag,
                index,
            ) != 0,
    ensures
        scan_from(local, official, config, logs, lag, scan).zero == scan.zero,
    decreases if lag > config.last_lag() { 0 } else { config.last_lag() - lag + 1 },
{
    if lag <= config.last_lag() {
        let step = config.lag_step();
        lemma_first_index(config, lag);
        lemma_scannable_rest(local, official, config, logs, lag);
        let count = ratios_at(local, official, lag as i64, config.max_quote_age).len() as int;
        let rest = logs.subrange(count, logs.len() as int);
        let next = after_lag(scan, lag as i64, moving(logs.subrange(0, count)));
        assert forall|index: nat| #[trigger]
            lag_at(config, lag + step, index) <= config.last_lag() implies lag_at(
            config,
            lag + step,
            index,
        ) != 0 by {
            lemma_next_index(config, lag, index + 1);
            assert(lag_at(config, lag, index + 1) == lag_at(config, lag + step, index));
        }
        lemma_no_zero(local, official, config, rest, lag + step, next);
    }
}

/// Beyond lag zero, a scan leaves the correlation without a lag as it was.
proof fn lemma_zero_stays(
    local: Seq<PriceSample>,
    official: Seq<PriceSample>,
    config: LeadLagConfig,
    logs: Seq<(Binary64, Binary64)>,
    lag: int,
    scan: Scan,
)
    requires
        scannable(local, official, config, logs, lag),
        lag > 0,
    ensures
        scan_from(local, official, config, logs, lag, scan).zero == scan.zero,
{
    let step = config.lag_step();
    assert forall|index: nat| #[trigger]
        lag_at(config, lag, index) <= config.last_lag() implies lag_at(config, lag, index) != 0 by {
        assert(index * step >= 0) by (nonlinear_arith)
            requires
                step > 0,
        ;
    }
    lemma_no_zero(local, official, config, logs, lag, scan);
}

/// There is history to compare, a step to scan with, and a pair of logarithms for each
/// quotient.
pub open spec fn estimable(
    local: Seq<PriceSample>,
    official: Seq<PriceSample>,
    now: Instant,
    config: LeadLagConfig,
    logs: Seq<(Binary64, Binary64)>,
) -> bool {
    &&& comparable(official_window_spec(official, now, config.window), config)
    &&& config.sound()
    &&& logs.len() == log_arguments_spec(local, official, now, config).len()
    &&& logs.len() <= usize::MAX
}

proof fn lemma_estimable(
    local: Seq<PriceSample>,
    official: Seq<PriceSample>,
    now: Instant,
    config: LeadLagConfig,
    logs: Seq<(Binary64, Binary64)>,
)
    requires
        estimable(local, official, now, config, logs),
    ensures
        scannable(
            local,
            official_window_spec(official, now, config.window),
            config,
            logs,
            config.first_lag(),
        ),
{
}

/// The peak that an estimate reports.
pub open spec fn reported(estimate: LeadLag) -> Peak {
    Peak {
        lag_ms: estimate.lead_ms,
        correlation: estimate.peak_correlation,
        samples: estimate.samples,
    }
}

/// Where any scanned lag has a correlation, the estimate reports one of the scanned
/// lags, with the correlation and the number of pairs of returns found at it. Where none
/// has, it reports no lag.
pub proof fn reported_lag_is_scanned(
    local: Seq<PriceSample>,
    official: Seq<PriceSample>,
    now: Instant,
    config: LeadLagConfig,
    logs: Seq<(Binary64, Binary64)>,
)
    requires
        estimable(local, official, now, config, logs),
    ensures
        ({
            let window = official_window_spec(official, now, config.window);
            let first = config.first_lag();
            let result = estimate_spec(local, official, now, config, logs);
            if exists|index: nat, other: Peak|
                #[trigger] found_at(local, window, config, logs, first, index, other) {
                exists|index: nat|
                    #[trigger] found_at(
                        local,
                        window,
                        config,
                        logs,
                        first,
                        index,
                        reported(result),
                    )
            } else {
                reported(result) == reported(no_estimate())
            }
        }),
{
    let window = official_window_spec(official, now, config.window);
    let first = config.first_lag();
    lemma_estimable(local, official, now, config, logs);
    let scan = scan_from(local, window, config, logs, first, empty_scan());
    let result = estimate_spec(local, official, now, config, logs);
    let at = lemma_scan_origin(local, window, config, logs, first, empty_scan());
    if exists|index: nat, other: Peak|
        #[trigger] found_at(local, window, config, logs, first, index, other) {
        let (index, other) = choose|index: nat, other: Peak| #[trigger]
            found_at(local, window, config, logs, first, index, other);
        lemma_scan_beats(local, window, config, logs, first, empty_scan(), index, other);
        assert(reported(result) == scan.best->Some_0);
        assert(found_at(local, window, config, logs, first, at, reported(result)));
    }
}

/// The pairs at a lag are among the logarithms.
proof fn lemma_pairs_logarithmic(
    local: Seq<PriceSample>,
    official: Seq<PriceSample>,
    config: LeadLagConfig,
    logs: Seq<(Binary64, Binary64)>,
    lag: int,
    index: nat,
)
    requires
        scannable(local, official, config, logs, lag),
        lag_at(config, lag, index) <= config.last_lag(),
        all_logarithmic(logs),
    ensures
        all_logarithmic(pairs_at(local, official, config, logs, lag, index)),
    decreases index,
{
    if index > 0 {
        lemma_next_index(config, lag, index);
    } else {
        lemma_first_index(config, lag);
    }
    lemma_scannable_rest(local, official, config, logs, lag);
    let count = ratios_at(local, official, lag as i64, config.max_quote_age).len() as int;
    if index == 0 {
        lemma_moving_logarithmic(logs.subrange(0, count));
    } else {
        let rest = logs.subrange(count, logs.len() as int);
        let next = lag + config.lag_step();
        lemma_pairs_logarithmic(local, official, config, rest, next, (index - 1) as nat);
    }
}

proof fn lemma_moving_logarithmic(logs: Seq<(Binary64, Binary64)>)
    requires
        all_logarithmic(logs),
    ensures
        all_logarithmic(moving(logs)),
    decreases logs.len(),
{
    if logs.len() > 0 {
        let earlier = logs.drop_last();
        assert forall|i: int| 0 <= i < earlier.len() implies logarithmic(
            (#[trigger] earlier[i]).0,
        ) && logarithmic(earlier[i].1) by {
            assert(earlier[i] == logs[i]);
        }
        assert(logs[logs.len() - 1] == logs.last());
        lemma_moving_logarithmic(earlier);
    }
}

/// No scanned lag stands above the reported one: the other's correlation is lower, or it
/// is equal and its lag is not smaller in size.
pub proof fn peak_is_highest(
    local: Seq<PriceSample>,
    official: Seq<PriceSample>,
    now: Instant,
    config: LeadLagConfig,
    logs: Seq<(Binary64, Binary64)>,
    index: nat,
    other: Peak,
)
    requires
        estimable(local, official, now, config, logs),
        all_logarithmic(logs),
        found_at(
            local,
            official_window_spec(official, now, config.window),
            config,
            logs,
            config.first_lag(),
            index,
            other,
        ),
    ensures
        ({
            let best = reported(estimate_spec(local, official, now, config, logs));
            ||| other.correlation.below(best.correlation)
            ||| other.correlation.equals(best.correlation) && size(best.lag_ms as int) <= size(
                other.lag_ms as int,
            )
        }),
{
    let window = official_window_spec(official, now, config.window);
    let first = config.first_lag();
    let best = reported(estimate_spec(local, official, now, config, logs));
    lemma_estimable(local, official, now, config, logs);
    lemma_scan_beats(local, window, config, logs, first, empty_scan(), index, other);
    reported_lag_is_scanned(local, official, now, config, logs);
    let at = choose|at: nat| #[trigger]
        found_at(local, window, config, logs, first, at, best);
    lemma_pairs_logarithmic(local, window, config, logs, first, index);
    lemma_pairs_logarithmic(local, window, config, logs, first, at);
    correlations_are_numbers(pairs_at(local, window, config, logs, first, index));
    correlations_are_numbers(pairs_at(local, window, config, logs, first, at));
}

/// The correlation without a lag is the one found at lag zero, if that is scanned; it is
/// reported with a peak.
pub proof fn zero_lag_is_that_of_lag_zero(
    local: Seq<PriceSample>,
    official: Seq<PriceSample>,
    now: Instant,
    config: LeadLagConfig,
    logs: Seq<(Binary64, Binary64)>,
    index: nat,
)
    requires
        estimable(local, official, now, config, logs),
    ensures
        ({
            let window = official_window_spec(official, now, config.window);
            let first = config.first_lag();
            let result = estimate_spec(local, official, now, config, logs);
            &&& lag_at(config, first, index) == 0 && 0 <= config.last_lag()
                ==> result.zero_lag_correlation == correlation_spec(
                pairs_at(local, window, config, logs, first, index),
            )
            &&& (forall|k: nat|
                #[trigger] lag_at(config, first, k) <= config.last_lag() ==> lag_at(
                    config,
                    first,
                    k,
                ) != 0) ==> result.zero_lag_correlation is None
        }),
{
    let window = official_window_spec(official, now, config.window);
    let first = config.first_lag();
    lemma_estimable(local, official, now, config, logs);
    let scan = scan_from(local, window, config, logs, first, empty_scan());
    if lag_at(config, first, index) == 0 && 0 <= config.last_lag() {
        lemma_scan_zero(local, window, config, logs, first, empty_scan(), index);
        let pairs = pairs_at(local, window, config, logs, first, index);
        if let Some(correlation) = correlation_spec(pairs) {
            lemma_pairs_length(local, window, config, logs, first, index);
            let peak = Peak { lag_ms: 0, correlation, samples: pairs.len() as usize };
            assert(found_at(local, window, config, logs, first, index, peak));
            lemma_scan_beats(local, window, config, logs, first, empty_scan(), index, peak);
        }
    }
    if forall|k: nat|
        #[trigger] lag_at(config, first, k) <= config.last_lag() ==> lag_at(config, first, k) != 0 {
        lemma_no_zero(local, window, config, logs, first, empty_scan());
    }
}

proof fn lemma_pairs_length(
    local: Seq<PriceSample>,
    official: Seq<PriceSample>,
    config: LeadLagConfig,
    logs: Seq<(Binary64, Binary64)>,
    lag: int,
    index: nat,
)
    requires
        scannable(local, official, config, logs, lag),
        lag_at(config, lag, index) <= config.last_lag(),
    ensures
        pairs_at(local, official, config, logs, lag, index).len() <= usize::MAX,
    decreases index,
{
    let step = config.lag_step();
    if index > 0 {
        lemma_next_index(config, lag, index);
    } else {
        lemma_first_index(config, lag);
    }
    lemma_scannable_rest(local, official, config, logs, lag);
    if index > 0 {
        let count = ratios_at(local, official, lag as i64, config.max_quote_age).len() as int;
        let rest = logs.subrange(count, logs.len() as int);
        lemma_pairs_length(local, official, config, rest, lag + step, (index - 1) as nat);
    }
}

/// A lag is one of those that are scanned.
pub open spec fn scanned(config: LeadLagConfig, lag: int) -> bool {
    &&& config.first_lag() <= lag <= config.last_lag()
    &&& (lag - config.first_lag()) % config.lag_step() == 0
}

/// The logarithms of both members of each pair.
pub open spec fn logged(
    ratios: Seq<(Binary64, Binary64)>,
    log: spec_fn(Binary64) -> Binary64,
) -> Seq<(Binary64, Binary64)> {
    ratios.map_values(|pair: (Binary64, Binary64)| (log(pair.0), log(pair.1)))
}

/// The pairs of returns at one lag, local first, of the intervals in which the published
/// price moved.
pub open spec fn return_pairs(
    local: Seq<PriceSample>,
    official: Seq<PriceSample>,
    lag: int,
    max_quote_age: Duration,
    log: spec_fn(Binary64) -> Binary64,
) -> Seq<(Binary64, Binary64)> {
    moving(logged(ratios_at(local, official, lag as i64, max_quote_age), log))
}

/// With the logarithms of all quotients, the pairs at each lag are its pairs of returns.
proof fn lemma_pairs_are_returns(
    local: Seq<PriceSample>,
    official: Seq<PriceSample>,
    config: LeadLagConfig,
    log: spec_fn(Binary64) -> Binary64,
    lag: int,
    index: nat,
)
    requires
        config.lag_step() > 0,
        lag_at(config, lag, index) <= config.last_lag(),
    ensures
        pairs_at(
            local,
            official,
            config,
            logged(ratios_from(local, official, config, lag), log),
            lag,
            index,
        ) == return_pairs(
            local,
            official,
            lag_at(config, lag, index),
            config.max_quote_age,
            log,
        ),
    decreases index,
{
    if index > 0 {
        lemma_next_index(config, lag, index);
    } else {
        lemma_first_index(config, lag);
    }
    let step = config.lag_step();
    let here = ratios_at(local, official, lag as i64, config.max_quote_age);
    let after = ratios_from(local, official, config, lag + step);
    let logs = logged(ratios_from(local, official, config, lag), log);
    let count = here.len() as int;
    assert(logs.subrange(0, count) =~= logged(here, log));
    assert(logs.subrange(count, logs.len() as int) =~= logged(after, log));
    if index > 0 {
        lemma_pairs_are_returns(local, official, config, log, lag + step, (index - 1) as nat);
    }
}

/// A scanned lag is reached after a whole number of steps.
proof fn lemma_scanned(config: LeadLagConfig, lag: int) -> (index: nat)
    requires
        config.lag_step() > 0,
        scanned(config, lag),
    ensures
        lag_at(config, config.first_lag(), index) == lag,
{
    let distance = lag - config.first_lag();
    let step = config.lag_step();
    vstd::arithmetic::div_mod::lemma_fundamental_div_mod(distance, step);
    vstd::arithmetic::div_mod::lemma_div_pos_is_pos(distance, step);
    let index = (distance / step) as nat;
    assert(index * step == step * (distance / step)) by (nonlinear_arith)
        requires
            index == distance / step,
    ;
    index
}

/// Each whole number of steps up to the last lag gives a scanned lag.
proof fn lemma_lag_is_scanned(config: LeadLagConfig, index: nat)
    requires
        config.lag_step() > 0,
        lag_at(config, config.first_lag(), index) <= config.last_lag(),
    ensures
        scanned(config, lag_at(config, config.first_lag(), index)),
{
    let step = config.lag_step();
    assert(index * step >= 0) by (nonlinear_arith)
        requires
            step > 0,
    ;
    vstd::arithmetic::div_mod::lemma_mod_multiples_basic(index as int, step);
}

/// What an estimate from the logarithms of all quotients reports, over the correlation of
/// the pairs of returns at each scanned lag. Where some lag has one, the reported lag is
/// scanned, and the correlation and the number of pairs are those at it; at every other
/// lag the correlation is lower, or equal with the lag not smaller in size. The
/// correlation without a lag is the one at lag zero, and there is none where zero is not
/// scanned.
pub proof fn estimate_reports_the_best_lag(
    local: Seq<PriceSample>,
    official: Seq<PriceSample>,
    now: Instant,
    config: LeadLagConfig,
    log: spec_fn(Binary64) -> Binary64,
)
    requires
        comparable(official_window_spec(official, now, config.window), config),
        config.sound(),
        log_arguments_spec(local, official, now, config).len() <= usize::MAX,
        forall|ratio: Binary64| logarithmic(#[trigger] log(ratio)),
    ensures
        ({
            let window = official_window_spec(official, now, config.window);
            let age = config.max_quote_age;
            let logs = logged(log_arguments_spec(local, official, now, config), log);
            let result = estimate_spec(local, official, now, config, logs);
            let lead = result.lead_ms as int;
            let peak = result.peak_correlation;
            &&& if exists|lag: int|
                scanned(config, lag) && correlation_spec(
                    #[trigger] return_pairs(local, window, lag, age, log),
                ) is Some {
                &&& scanned(config, lead)
                &&& correlation_spec(return_pairs(local, window, lead, age, log)) == Some(peak)
                &&& result.samples == return_pairs(local, window, lead, age, log).len()
                &&& forall|lag: int|
                    scanned(config, lag) ==> (correlation_spec(
                        #[trigger] return_pairs(local, window, lag, age, log),
                    ) matches Some(other) ==> other.below(peak) || (other.equals(peak) && size(
                        lead,
                    ) <= size(lag)))
            } else {
                reported(result) == reported(no_estimate())
            }
            &&& result.zero_lag_correlation == if scanned(config, 0) {
                correlation_spec(return_pairs(local, window, 0, age, log))
            } else {
                None
            }
        }),
{
    let window = official_window_spec(official, now, config.window);
    let age = config.max_quote_age;
    let first = config.first_lag();
    let arguments = log_arguments_spec(local, official, now, config);
    let logs = logged(arguments, log);
    let result = estimate_spec(local, official, now, config, logs);
    let best = reported(result);
    lemma_estimable(local, official, now, config, logs);
    assert forall|i: int| 0 <= i < logs.len() implies logarithmic((#[trigger] logs[i]).0)
        && logarithmic(logs[i].1) by {
        assert(logs[i] == (log(arguments[i].0), log(arguments[i].1)));
    }
    reported_lag_is_scanned(local, official, now, config, logs);
    assert forall|lag: int|
        scanned(config, lag) && correlation_spec(
            #[trigger] return_pairs(local, window, lag, age, log),
        ) is Some implies ({
        let other = correlation_spec(return_pairs(local, window, lag, age, log))->Some_0;
        &&& exists|index: nat, peak: Peak|
            #[trigger] found_at(local, window, config, logs, first, index, peak)
        &&& other.below(best.correlation) || (other.equals(best.correlation) && size(
            best.lag_ms as int,
        ) <= size(lag))
    }) by {
        let pairs = return_pairs(local, window, lag, age, log);
        let index = lemma_scanned(config, lag);
        lemma_pairs_are_returns(local, window, config, log, first, index);
        lemma_pairs_length(local, window, config, logs, first, index);
        let other = Peak {
            lag_ms: lag as i64,
            correlation: correlation_spec(pairs)->Some_0,
            samples: pairs.len() as usize,
        };
        assert(found_at(local, window, config, logs, first, index, other));
        peak_is_highest(local, official, now, config, logs, index, other);
    }
    if exists|index: nat, peak: Peak|
        #[trigger] found_at(local, window, config, logs, first, index, peak) {
        let at = choose|at: nat| #[trigger]
            found_at(local, window, config, logs, first, at, best);
        lemma_lag_is_scanned(config, at);
        lemma_pairs_are_returns(local, window, config, log, first, at);
        assert(correlation_spec(return_pairs(local, window, best.lag_ms as int, age, log)) is Some);
    }
    if scanned(config, 0) {
        let index = lemma_scanned(config, 0);
        lemma_pairs_are_returns(local, window, config, log, first, index);
        zero_lag_is_that_of_lag_zero(local, official, now, config, logs, index);
    } else {
        assert forall|k: nat| #[trigger]
            lag_at(config, first, k) <= config.last_lag() implies lag_at(config, first, k) != 0 by {
            lemma_lag_is_scanned(config, k);
        }
        zero_lag_is_that_of_lag_zero(local, official, now, config, logs, 0);
    }
}

/// Warm-up is timed: with history to compare, the estimate is insufficient exactly
/// while that history spans less than two minutes.
pub proof fn warm_up_is_timed(
    local: Seq<PriceSample>,
    official: Seq<PriceSample>,
    now: Instant,
    config: LeadLagConfig,
    logs: Seq<(Binary64, Binary64)>,
)
    requires
        comparable(official_window_spec(official, now, config.window), config),
    ensures
        ({
            let result = estimate_spec(local, official, now, config, logs);
            let window = official_window_spec(official, now, config.window);
            &&& result.coverage == coverage_spec(window)
            &&& (result.status == LeadStatus::Insufficient) == (result.coverage.nanos
                < 120_000_000_000)
        }),
{
}

/// A candidate has two minutes of history, a local lead, and enough correlation and
/// gain.
pub proof fn candidates_meet_thresholds(
    local: Seq<PriceSample>,
    official: Seq<PriceSample>,
    now: Instant,
    config: LeadLagConfig,
    logs: Seq<(Binary64, Binary64)>,
)
    requires
        estimate_spec(local, official, now, config, logs).status == LeadStatus::Candidate,
    ensures
        ({
            let result = estimate_spec(local, official, now, config, logs);
            &&& result.coverage.nanos >= 120_000_000_000
            &&& result.lead_ms > 0
            &&& config.minimum_correlation.at_most(result.peak_correlation)
            &&& result.zero_lag_correlation is Some
            &&& result.correlation_gain == Some(
                result.peak_correlation.minus_spec(result.zero_lag_correlation->Some_0),
            )
            &&& config.minimum_gain.at_most(result.correlation_gain->Some_0)
        }),
{
}

/// The pairs that count are, in order, exactly those whose published return is more than
/// 2^-52 in size, whatever the local return is.
pub proof fn pairs_count_where_the_oracle_moved(logs: Seq<(Binary64, Binary64)>)
    ensures
        moving(logs) == logs.filter(
            |pair: (Binary64, Binary64)| !pair.1.nan() && pair.1.size() > pow2(1022),
        ),
    decreases logs.len(),
{
    let moved = |pair: (Binary64, Binary64)| !pair.1.nan() && pair.1.size() > pow2(1022);
    reveal(Seq::filter);
    if logs.len() > 0 {
        pairs_count_where_the_oracle_moved(logs.drop_last());
        lemma_powers();
        lemma_magnitude_of(970, 0x0010_0000_0000_0000);
        lemma_pow2_adds(52, 970);
        assert(970 * 0x0010_0000_0000_0000 + 0x0010_0000_0000_0000 == EPSILON_BITS);
        assert(moved(logs.last()) == (Binary64 { bits: EPSILON_BITS }).below(
            logs.last().1.absolute_spec(),
        ));
    }
}

/// A point in time moved by a lead lies that many milliseconds earlier.
pub proof fn leads_move_time_back(at: Instant, lead_ms: i64, moved: Instant)
    ensures
        shift_spec(at, lead_ms) == Some(moved) <==> moved.nanos + lead_ms * 1_000_000 == at.nanos,
{
}

/// A sample holds at a point in time: it was seen by then, not longer ago than the quote
/// age, and the next one was seen later.
pub open spec fn holds_at(
    samples: Seq<PriceSample>,
    index: int,
    at: Instant,
    max_quote_age: Duration,
) -> bool {
    &&& 0 <= index < samples.len()
    &&& samples[index].at.nanos <= at.nanos
    &&& at.nanos - samples[index].at.nanos <= max_quote_age.nanos
    &&& index + 1 < samples.len() ==> at.nanos < samples[index + 1].at.nanos
}

/// Of chronological samples, the price at a point in time is that of the sample that
/// holds then, and there is none where no sample does.
pub proof fn local_price_is_the_one_that_holds(
    samples: Seq<PriceSample>,
    at: Instant,
    max_quote_age: Duration,
    index: int,
)
    requires
        chronological(samples),
    ensures
        holds_at(samples, index, at, max_quote_age) ==> local_at_spec(samples, at, max_quote_age)
            == Some(samples[index]),
        (forall|i: int| !#[trigger] holds_at(samples, i, at, max_quote_age)) ==> local_at_spec(
            samples,
            at,
            max_quote_age,
        ) is None,
{
    lemma_leading_holds(samples, at.nanos + 1, 0);
    let count = leading(samples, at.nanos + 1, 0);
    if holds_at(samples, index, at, max_quote_age) {
        assert forall|i: int| 0 <= i < index + 1 implies (#[trigger] samples[i]).at.nanos < at.nanos
            + 1 by {
            assert(samples[i].at.nanos <= samples[index].at.nanos);
        }
        lemma_leading(samples, at.nanos + 1, 0, index + 1);
    }
    if local_at_spec(samples, at, max_quote_age) is Some {
        assert(samples[count - 1].at.nanos < at.nanos + 1);
        assert(holds_at(samples, count - 1, at, max_quote_age));
    }
}

/// Over an interval of the oracle, the local quotient is that of the prices that hold at
/// the interval's ends, each moved back by the lead, and the published one that of the
/// oracle's own prices.
pub proof fn intervals_compare_moved_prices(
    local: Seq<PriceSample>,
    previous: PriceSample,
    current: PriceSample,
    lead_ms: i64,
    max_quote_age: Duration,
    from: Instant,
    to: Instant,
    first: int,
    second: int,
)
    requires
        chronological(local),
        from.nanos + lead_ms * 1_000_000 == previous.at.nanos,
        to.nanos + lead_ms * 1_000_000 == current.at.nanos,
        holds_at(local, first, from, max_quote_age),
        holds_at(local, second, to, max_quote_age),
    ensures
        ({
            let ratios = interval_ratios_spec(local, previous, current, lead_ms, max_quote_age);
            if local[first].price.positive_finite() && local[second].price.positive_finite()
                && previous.price.positive_finite() && current.price.positive_finite() {
                ratios == Some(
                    (
                        local[second].price.over_spec(local[first].price),
                        current.price.over_spec(previous.price),
                    ),
                )
            } else {
                ratios is None
            }
        }),
{
    leads_move_time_back(previous.at, lead_ms, from);
    leads_move_time_back(current.at, lead_ms, to);
    local_price_is_the_one_that_holds(local, from, max_quote_age, first);
    local_price_is_the_one_that_holds(local, to, max_quote_age, second);
}

/// Without a local price that holds at an end of the moved interval, the interval does not
/// count.
pub proof fn intervals_need_local_prices(
    local: Seq<PriceSample>,
    previous: PriceSample,
    current: PriceSample,
    lead_ms: i64,
    max_quote_age: Duration,
)
    requires
        chronological(local),
        interval_ratios_spec(local, previous, current, lead_ms, max_quote_age) is Some,
    ensures
        exists|first: int, second: int, from: Instant, to: Instant|
            #[trigger] holds_at(local, first, from, max_quote_age) && #[trigger] holds_at(
                local,
                second,
                to,
                max_quote_age,
            ) && from.nanos + lead_ms * 1_000_000 == previous.at.nanos && to.nanos + lead_ms
                * 1_000_000 == current.at.nanos,
{
    let from = shift_spec(previous.at, lead_ms)->Some_0;
    let to = shift_spec(current.at, lead_ms)->Some_0;
    leads_move_time_back(previous.at, lead_ms, from);
    leads_move_time_back(current.at, lead_ms, to);
    local_price_is_the_one_that_holds(local, from, max_quote_age, 0);
    local_price_is_the_one_that_holds(local, to, max_quote_age, 0);
    let first = choose|i: int| #[trigger] holds_at(local, i, from, max_quote_age);
    let second = choose|i: int| #[trigger] holds_at(local, i, to, max_quote_age);
    assert(holds_at(local, first, from, max_quote_age) && holds_at(
        local,
        second,
        to,
        max_quote_age,
    ));
}

/// Every pair of consecutive oracle samples is an interval, and those with quotients
/// count, in order.
pub proof fn consecutive_samples_are_intervals(
    local: Seq<PriceSample>,
    official: Seq<PriceSample>,
    lead_ms: i64,
    max_quote_age: Duration,
)
    requires
        official.len() > 0,
    ensures
        ratios_at(local, official, lead_ms, max_quote_age) == Seq::new(
            (official.len() - 1) as nat,
            |i: int|
                interval_ratios_spec(
                    local,
                    official[i],
                    official[i + 1],
                    lead_ms,
                    max_quote_age,
                ),
        ).filter(|ratios: Option<(Binary64, Binary64)>| ratios is Some).map_values(
            |ratios: Option<(Binary64, Binary64)>| ratios->Some_0,
        ),
{
    lemma_ratios_up_to(local, official, lead_ms, max_quote_age, (official.len() - 1) as nat);
}

proof fn lemma_ratios_up_to(
    local: Seq<PriceSample>,
    official: Seq<PriceSample>,
    lead_ms: i64,
    max_quote_age: Duration,
    count: nat,
)
    ensures
        ratios_up_to(local, official, lead_ms, max_quote_age, count) == Seq::new(
            count,
            |i: int|
                interval_ratios_spec(
                    local,
                    official[i],
                    official[i + 1],
                    lead_ms,
                    max_quote_age,
                ),
        ).filter(|ratios: Option<(Binary64, Binary64)>| ratios is Some).map_values(
            |ratios: Option<(Binary64, Binary64)>| ratios->Some_0,
        ),
    decreases count,
{
    let interval = |i: int|
        interval_ratios_spec(local, official[i], official[i + 1], lead_ms, max_quote_age);
    let found = |ratios: Option<(Binary64, Binary64)>| ratios is Some;
    let bare = |ratios: Option<(Binary64, Binary64)>| ratios->Some_0;
    let all = Seq::new(count, interval);
    reveal(Seq::filter);
    if count > 0 {
        let less = (count - 1) as nat;
        lemma_ratios_up_to(local, official, lead_ms, max_quote_age, less);
        assert(all.drop_last() =~= Seq::new(less, interval));
        let before = all.drop_last().filter(found);
        assert(before.push(all.last()).map_values(bare) =~= before.map_values(bare).push(
            bare(all.last()),
        ));
        assert(all.last() == interval(count - 1));
        assert(ratios_up_to(local, official, lead_ms, max_quote_age, count) =~= all.filter(
            found,
        ).map_values(bare));
    } else {
        assert(all.filter(found).map_values(bare) =~= Seq::empty());
    }
}

/// An estimate is a candidate exactly if the oracle's history spans two minutes or more,
/// the lead is positive, the correlation is not below the configured one, and it exceeds
/// the one without a lag by no less than the configured gain.
pub proof fn candidates_are_exactly_these(
    local: Seq<PriceSample>,
    official: Seq<PriceSample>,
    now: Instant,
    config: LeadLagConfig,
    logs: Seq<(Binary64, Binary64)>,
)
    requires
        comparable(official_window_spec(official, now, config.window), config),
    ensures
        ({
            let window = official_window_spec(official, now, config.window);
            let span = window.last().at.nanos - window[0].at.nanos;
            let result = estimate_spec(local, official, now, config, logs);
            &&& result.status == LeadStatus::Candidate <==> {
                &&& span >= 120_000_000_000
                &&& result.lead_ms > 0
                &&& !config.minimum_correlation.nan() && !result.peak_correlation.nan()
                &&& config.minimum_correlation.units() <= result.peak_correlation.units()
                &&& result.correlation_gain matches Some(gain) && !gain.nan()
                    && !config.minimum_gain.nan() && config.minimum_gain.units() <= gain.units()
            }
            &&& result.status == LeadStatus::Insufficient <==> span < 120_000_000_000
            &&& result.correlation_gain == match result.zero_lag_correlation {
                Some(zero) => Some(result.peak_correlation.minus_spec(zero)),
                None => None,
            }
        }),
{
}

/// The monitor scans from three seconds back to six ahead in steps of a tenth, over five
/// minutes.
pub proof fn market_making_scans(max_quote_age: Duration, lag: int)
    ensures
        ({
            let config = LeadLagConfig::market_making_spec(max_quote_age);
            &&& scanned(config, lag) <==> -3_000 <= lag <= 6_000 && lag % 100 == 0
            &&& config.window.nanos == 300_000_000_000
            &&& config.max_quote_age == max_quote_age
        }),
{
    assert(wrapped(100) == 100);
    assert(wrapped(3_000) == 3_000);
    assert(wrapped(6_000) == 6_000);
    let config = LeadLagConfig::market_making_spec(max_quote_age);
    assert(config.first_lag() == -3_000);
    assert(config.last_lag() == 6_000);
    assert(config.lag_step() == 100);
    assert((lag + 3_000) % 100 == lag % 100);
}

/// Pairs with their members exchanged.
pub open spec fn exchanged(pairs: Seq<(Binary64, Binary64)>) -> Seq<(Binary64, Binary64)> {
    pairs.map_values(|pair: (Binary64, Binary64)| (pair.1, pair.0))
}

/// It does not matter which of two series is correlated with which.
pub proof fn correlations_are_symmetric(pairs: Seq<(Binary64, Binary64)>)
    ensures
        correlation_spec(exchanged(pairs)) == correlation_spec(pairs),
{
    let count = Binary64::whole_spec(pairs.len());
    lemma_exchanged_sums(pairs);
    let (sum_x, sum_y) = sums(pairs);
    let mean_x = sum_x.over_spec(count);
    let mean_y = sum_y.over_spec(count);
    lemma_exchanged_moments(pairs, mean_x, mean_y);
    let (_, variance_x, variance_y) = moments(pairs, mean_x, mean_y);
    order_does_not_matter(variance_x, variance_y);
}

proof fn lemma_exchanged_sums(pairs: Seq<(Binary64, Binary64)>)
    ensures
        sums(exchanged(pairs)) == (sums(pairs).1, sums(pairs).0),
    decreases pairs.len(),
{
    if pairs.len() > 0 {
        lemma_exchanged_sums(pairs.drop_last());
        assert(exchanged(pairs).drop_last() =~= exchanged(pairs.drop_last()));
    }
}

proof fn lemma_exchanged_moments(
    pairs: Seq<(Binary64, Binary64)>,
    mean_x: Binary64,
    mean_y: Binary64,
)
    ensures
        ({
            let (covariance, variance_x, variance_y) = moments(pairs, mean_x, mean_y);
            moments(exchanged(pairs), mean_y, mean_x) == (covariance, variance_y, variance_x)
        }),
    decreases pairs.len(),
{
    if pairs.len() > 0 {
        lemma_exchanged_moments(pairs.drop_last(), mean_x, mean_y);
        assert(exchanged(pairs).drop_last() =~= exchanged(pairs.drop_last()));
        order_does_not_matter(
            pairs.last().0.minus_spec(mean_x),
            pairs.last().1.minus_spec(mean_y),
        );
    }
}

/// The sum of some numbers.
pub open spec fn total(numbers: Seq<int>) -> int
    decreases numbers.len(),
{
    if numbers.len() == 0 {
        0
    } else {
        total(numbers.drop_last()) + numbers.last()
    }
}

/// The sum of the products of the distances of two series from two numbers.
pub open spec fn spread(xs: Seq<int>, ys: Seq<int>, from_x: int, from_y: int) -> int
    decreases xs.len(),
{
    if xs.len() == 0 {
        0
    } else {
        spread(xs.drop_last(), ys.drop_last(), from_x, from_y) + (xs.last() - from_x) * (ys.last()
            - from_y)
    }
}

/// The pairs hold two series of whole numbers up to 32768 in size.
pub open spec fn whole_series(
    pairs: Seq<(Binary64, Binary64)>,
    xs: Seq<int>,
    ys: Seq<int>,
) -> bool {
    &&& pairs.len() == xs.len() == ys.len()
    &&& forall|i: int|
        0 <= i < pairs.len() ==> {
            &&& is_whole((#[trigger] pairs[i]).0, xs[i])
            &&& is_whole(pairs[i].1, ys[i])
            &&& -32_768 <= xs[i] <= 32_768
            &&& -32_768 <= ys[i] <= 32_768
        }
}

proof fn lemma_fewer(pairs: Seq<(Binary64, Binary64)>, xs: Seq<int>, ys: Seq<int>)
    requires
        whole_series(pairs, xs, ys),
        pairs.len() > 0,
    ensures
        whole_series(pairs.drop_last(), xs.drop_last(), ys.drop_last()),
        is_whole(pairs.last().0, xs.last()),
        is_whole(pairs.last().1, ys.last()),
        -32_768 <= xs.last() <= 32_768,
        -32_768 <= ys.last() <= 32_768,
{
    assert(pairs[pairs.len() - 1] == pairs.last());
    let fewer = pairs.drop_last();
    assert forall|i: int| 0 <= i < fewer.len() implies is_whole((#[trigger] fewer[i]).0, xs[i])
        && is_whole(fewer[i].1, ys[i]) && -32_768 <= xs[i] <= 32_768 && -32_768 <= ys[i]
        <= 32_768 by {
        assert(fewer[i] == pairs[i]);
    }
}

proof fn lemma_whole_sums(pairs: Seq<(Binary64, Binary64)>, xs: Seq<int>, ys: Seq<int>)
    requires
        whole_series(pairs, xs, ys),
        pairs.len() <= 0x10_0000,
    ensures
        is_whole(sums(pairs).0, total(xs)),
        is_whole(sums(pairs).1, total(ys)),
        -32_768 * pairs.len() <= total(xs) <= 32_768 * pairs.len(),
        -32_768 * pairs.len() <= total(ys) <= 32_768 * pairs.len(),
    decreases pairs.len(),
{
    if pairs.len() > 0 {
        lemma_fewer(pairs, xs, ys);
        lemma_whole_sums(pairs.drop_last(), xs.drop_last(), ys.drop_last());
        let before = sums(pairs.drop_last());
        whole_arithmetic_is_exact(before.0, pairs.last().0, total(xs.drop_last()), xs.last());
        whole_arithmetic_is_exact(before.1, pairs.last().1, total(ys.drop_last()), ys.last());
    } else {
        lemma_size_zero(0);
    }
}

proof fn lemma_distance(x: int, y: int, from_x: int, from_y: int)
    requires
        -32_768 <= x <= 32_768,
        -32_768 <= y <= 32_768,
        -32_768 <= from_x <= 32_768,
        -32_768 <= from_y <= 32_768,
    ensures
        -0x1_0000_0000 <= (x - from_x) * (y - from_y) <= 0x1_0000_0000,
{
    let dx = x - from_x;
    let dy = y - from_y;
    assert(-0x1_0000_0000 <= dx * dy <= 0x1_0000_0000) by (nonlinear_arith)
        requires
            -0x1_0000 <= dx <= 0x1_0000,
            -0x1_0000 <= dy <= 0x1_0000,
    ;
}

proof fn lemma_whole_moments(
    pairs: Seq<(Binary64, Binary64)>,
    xs: Seq<int>,
    ys: Seq<int>,
    mean_x: Binary64,
    mean_y: Binary64,
    from_x: int,
    from_y: int,
)
    requires
        whole_series(pairs, xs, ys),
        pairs.len() <= 0x10_0000,
        is_whole(mean_x, from_x),
        is_whole(mean_y, from_y),
        -32_768 <= from_x <= 32_768,
        -32_768 <= from_y <= 32_768,
    ensures
        ({
            let (covariance, variance_x, variance_y) = moments(pairs, mean_x, mean_y);
            let most = 0x1_0000_0000 * pairs.len();
            &&& is_whole(covariance, spread(xs, ys, from_x, from_y))
            &&& is_whole(variance_x, spread(xs, xs, from_x, from_x))
            &&& is_whole(variance_y, spread(ys, ys, from_y, from_y))
            &&& -most <= spread(xs, ys, from_x, from_y) <= most
            &&& 0 <= spread(xs, xs, from_x, from_x) <= most
            &&& 0 <= spread(ys, ys, from_y, from_y) <= most
        }),
    decreases pairs.len(),
{
    if pairs.len() > 0 {
        let fewer = pairs.drop_last();
        let xs_before = xs.drop_last();
        let ys_before = ys.drop_last();
        lemma_fewer(pairs, xs, ys);
        lemma_whole_moments(fewer, xs_before, ys_before, mean_x, mean_y, from_x, from_y);
        let (covariance, variance_x, variance_y) = moments(fewer, mean_x, mean_y);
        let (x, y) = pairs.last();
        let dx = x.minus_spec(mean_x);
        let dy = y.minus_spec(mean_y);
        let far_x = xs.last() - from_x;
        let far_y = ys.last() - from_y;
        whole_arithmetic_is_exact(x, mean_x, xs.last(), from_x);
        whole_arithmetic_is_exact(y, mean_y, ys.last(), from_y);
        lemma_distance(xs.last(), ys.last(), from_x, from_y);
        lemma_distance(xs.last(), xs.last(), from_x, from_x);
        lemma_distance(ys.last(), ys.last(), from_y, from_y);
        assert(far_x * far_x >= 0) by (nonlinear_arith);
        assert(far_y * far_y >= 0) by (nonlinear_arith);
        whole_arithmetic_is_exact(dx, dy, far_x, far_y);
        whole_arithmetic_is_exact(dx, dx, far_x, far_x);
        whole_arithmetic_is_exact(dy, dy, far_y, far_y);
        whole_arithmetic_is_exact(
            covariance,
            dx.times_spec(dy),
            spread(xs_before, ys_before, from_x, from_y),
            far_x * far_y,
        );
        whole_arithmetic_is_exact(
            variance_x,
            dx.times_spec(dx),
            spread(xs_before, xs_before, from_x, from_x),
            far_x * far_x,
        );
        whole_arithmetic_is_exact(
            variance_y,
            dy.times_spec(dy),
            spread(ys_before, ys_before, from_y, from_y),
            far_y * far_y,
        );
    } else {
        lemma_size_zero(0);
        assert(is_whole(Binary64 { bits: 0 }, 0));
    }
}

/// Two series of whole numbers whose means are whole correlate as their exact covariance
/// and variances say: by the quotient of the covariance and the root of the product of the
/// variances, and not at all exactly where one of them does not vary.
pub proof fn whole_series_correlate_exactly(
    pairs: Seq<(Binary64, Binary64)>,
    xs: Seq<int>,
    ys: Seq<int>,
    from_x: int,
    from_y: int,
)
    requires
        whole_series(pairs, xs, ys),
        2 <= pairs.len() <= 0x10_0000,
        total(xs) == pairs.len() * from_x,
        total(ys) == pairs.len() * from_y,
    ensures
        correlation_spec(pairs) is None <==> spread(xs, xs, from_x, from_x) == 0 || spread(
            ys,
            ys,
            from_y,
            from_y,
        ) == 0,
        correlation_spec(pairs) matches Some(correlation) ==> exists|
            covariance: Binary64,
            variance_x: Binary64,
            variance_y: Binary64,
        |
            {
                &&& is_whole(covariance, spread(xs, ys, from_x, from_y))
                &&& is_whole(variance_x, spread(xs, xs, from_x, from_x))
                &&& is_whole(variance_y, spread(ys, ys, from_y, from_y))
                &&& correlation == #[trigger] covariance.over_spec(
                    #[trigger] variance_x.times_spec(variance_y).root_spec(),
                )
            },
{
    let count = Binary64::whole_spec(pairs.len());
    let (sum_x, sum_y) = sums(pairs);
    let mean_x = sum_x.over_spec(count);
    let mean_y = sum_y.over_spec(count);
    let size = pairs.len() as int;
    lemma_whole_sums(pairs, xs, ys);
    lemma_mean(size, from_x);
    lemma_mean(size, from_y);
    lemma_whole_mean(sum_x, pairs.len(), from_x);
    lemma_whole_mean(sum_y, pairs.len(), from_y);
    lemma_whole_moments(pairs, xs, ys, mean_x, mean_y, from_x, from_y);
    let (covariance, variance_x, variance_y) = moments(pairs, mean_x, mean_y);
    lemma_denominator(
        variance_x,
        variance_y,
        spread(xs, xs, from_x, from_x),
        spread(ys, ys, from_y, from_y),
    );
    assert(correlation_spec(pairs) matches Some(correlation) ==> correlation
        == covariance.over_spec(variance_x.times_spec(variance_y).root_spec()));
}

proof fn lemma_mean(size: int, mean: int)
    requires
        size > 0,
        -32_768 * size <= size * mean <= 32_768 * size,
    ensures
        -32_768 <= mean <= 32_768,
{
    assert(-32_768 <= mean <= 32_768) by (nonlinear_arith)
        requires
            size > 0,
            -32_768 * size <= size * mean <= 32_768 * size,
    ;
}

proof fn lemma_whole_mean(sum: Binary64, size: nat, mean: int)
    requires
        0 < size <= 0x10_0000,
        is_whole(sum, size * mean),
        -32_768 <= mean <= 32_768,
    ensures
        is_whole(sum.over_spec(Binary64::whole_spec(size)), mean),
{
    let one = one_in_units();
    let quotient = whole_numbers_are_doubles(mean);
    assert((size * mean) * one == size * (mean * one)) by (nonlinear_arith);
    whole_quotients_are_exact(sum, size, quotient);
}

/// The root of the product of two whole numbers is zero where one is, else at least one.
proof fn lemma_denominator(left: Binary64, right: Binary64, first: int, second: int)
    requires
        is_whole(left, first),
        is_whole(right, second),
        0 <= first <= 0x10_0000_0000_0000,
        0 <= second <= 0x10_0000_0000_0000,
    ensures
        (Binary64 { bits: EPSILON_BITS }).below(left.times_spec(right).root_spec()) <==> first != 0
            && second != 0,
{
    let one = one_in_units();
    let product = left.times_spec(right);
    lemma_size_zero(left.magnitude_bits());
    lemma_size_zero(right.magnitude_bits());
    lemma_size_zero(product.magnitude_bits());
    lemma_size_zero(0);
    vstd::arithmetic::power2::lemma_pow2_pos(1074);
    assert(first * one == 0 <==> first == 0) by (nonlinear_arith)
        requires
            one > 0,
    ;
    assert(second * one == 0 <==> second == 0) by (nonlinear_arith)
        requires
            one > 0,
    ;
    if first == 0 || second == 0 {
        assert(first * second == 0) by (nonlinear_arith)
            requires
                first == 0 || second == 0,
        ;
        whole_arithmetic_is_exact(left, right, first, second);
        assert(product.units() == 0);
    } else {
        let unit = whole_numbers_are_doubles(1);
        assert(first * one >= one && second * one >= one) by (nonlinear_arith)
            requires
                first >= 1,
                second >= 1,
                one > 0,
        ;
        lemma_whole_is_bounded(left, first);
        lemma_whole_is_bounded(right, second);
        products_stay_within(left, right, 53);
        products_are_nearest(left, right, unit);
        let exact = left.units() * right.units();
        assert(exact >= one * one) by (nonlinear_arith)
            requires
                exact == left.units() * right.units(),
                left.units() >= one,
                right.units() >= one,
                one > 0,
        ;
        assert(product.units() >= one) by (nonlinear_arith)
            requires
                gap(product.units() * one, exact) <= gap((one * one) as int, exact),
                exact >= one * one,
                one > 0,
        ;
        roots_are_nearest(product, unit);
        let root = product.root_spec().units();
        let value = product.units();
        assert(root >= one) by (nonlinear_arith)
            requires
                root > 0,
                one > root ==> 4 * (value * one) <= (root + one) * (root + one),
                value >= one,
                one > 0,
        ;
        lemma_epsilon();
    }
}

proof fn lemma_epsilon()
    ensures
        (Binary64 { bits: EPSILON_BITS }).units() == pow2(1022),
        !(Binary64 { bits: EPSILON_BITS }).nan(),
        pow2(1022) < one_in_units(),
{
    lemma_powers();
    lemma_magnitude_of(970, 0x0010_0000_0000_0000);
    lemma_pow2_adds(52, 970);
    assert(970 * 0x0010_0000_0000_0000 + 0x0010_0000_0000_0000 == EPSILON_BITS);
    vstd::arithmetic::power2::lemma_pow2_strictly_increases(1022, 1074);
}

proof fn lemma_whole_is_bounded(value: Binary64, number: int)
    requires
        is_whole(value, number),
        0 <= number <= 0x10_0000_0000_0000,
    ensures
        value.magnitude_bits() <= power_bits(53),
{
    let one = one_in_units();
    lemma_power(53);
    lemma_powers();
    lemma_pow2_adds(1074, 53);
    vstd::arithmetic::power2::lemma_pow2_pos(1074);
    assert(number * one < one * 0x20_0000_0000_0000) by (nonlinear_arith)
        requires
            number <= 0x10_0000_0000_0000,
            one > 0,
    ;
    if value.magnitude_bits() > power_bits(53) {
        lemma_magnitude_increases(power_bits(53), value.magnitude_bits());
    }
}

/// Where the exact correlation of two such series is a whole number, it is found: one for
/// a series and itself, minus one for a series and its opposite, zero for a covariance of
/// zero.
pub proof fn whole_correlations_are_found(
    pairs: Seq<(Binary64, Binary64)>,
    xs: Seq<int>,
    ys: Seq<int>,
    from_x: int,
    from_y: int,
    side: int,
    factor: int,
)
    requires
        whole_series(pairs, xs, ys),
        2 <= pairs.len() <= 0x10_0000,
        total(xs) == pairs.len() * from_x,
        total(ys) == pairs.len() * from_y,
        0 < side,
        side * side == spread(xs, xs, from_x, from_x) * spread(ys, ys, from_y, from_y)
            < 0x0020_0000_0000_0000,
        spread(xs, ys, from_x, from_y) == side * factor,
        -1 <= factor <= 1,
    ensures
        correlation_spec(pairs) matches Some(correlation) && is_whole(correlation, factor),
{
    let one = one_in_units();
    let first = spread(xs, xs, from_x, from_x);
    let second = spread(ys, ys, from_y, from_y);
    whole_series_correlate_exactly(pairs, xs, ys, from_x, from_y);
    assert(first != 0 && second != 0) by (nonlinear_arith)
        requires
            side * side == first * second,
            side > 0,
    ;
    let correlation = correlation_spec(pairs)->Some_0;
    let (covariance, variance_x, variance_y) = choose|
        covariance: Binary64,
        variance_x: Binary64,
        variance_y: Binary64,
    |
        {
            &&& is_whole(covariance, spread(xs, ys, from_x, from_y))
            &&& is_whole(variance_x, first)
            &&& is_whole(variance_y, second)
            &&& correlation == #[trigger] covariance.over_spec(
                #[trigger] variance_x.times_spec(variance_y).root_spec(),
            )
        };
    let product = variance_x.times_spec(variance_y);
    whole_arithmetic_is_exact(variance_x, variance_y, first, second);
    assert(side < 0x0020_0000_0000_0000) by (nonlinear_arith)
        requires
            side > 0,
            side * side < 0x0020_0000_0000_0000,
    ;
    let length = whole_numbers_are_doubles(side);
    vstd::arithmetic::power2::lemma_pow2_pos(1074);
    lemma_size_zero(product.magnitude_bits());
    lemma_size_zero(length.magnitude_bits());
    assert(product.units() > 0 && product.units() * one == length.units() * length.units())
        by (nonlinear_arith)
        requires
            product.units() == (first * second) * one,
            first * second == side * side,
            length.units() == side * one,
            side > 0,
            one > 0,
    ;
    assert(length.units() > 0) by (nonlinear_arith)
        requires
            length.units() == side * one,
            side > 0,
            one > 0,
    ;
    roots_undo_squares(product, length);
    roots_are_nearest(product, length);
    let root = product.root_spec();
    whole_numbers_are_exact(side as nat);
    assert(root == Binary64::whole_spec(side as nat)) by {
        numbers_are_ordered(root, Binary64::whole_spec(side as nat));
    }
    let result = whole_numbers_are_doubles(factor);
    assert((side * factor) * one == side * (factor * one)) by (nonlinear_arith);
    whole_quotients_are_exact(covariance, side as nat, result);
}

/// The oracle's window begins its span before now, or now where the clock does not reach
/// back so far; of chronological samples it holds those seen since.
pub proof fn windows_reach_back_their_span(
    samples: Seq<PriceSample>,
    now: Instant,
    window: Duration,
)
    requires
        chronological(samples),
    ensures
        official_window_spec(samples, now, window) == samples.filter(
            |sample: PriceSample|
                if window.nanos <= now.nanos {
                    now.nanos - sample.at.nanos <= window.nanos
                } else {
                    sample.at.nanos >= now.nanos
                },
        ),
{
    let recent = |sample: PriceSample|
        if window.nanos <= now.nanos {
            now.nanos - sample.at.nanos <= window.nanos
        } else {
            sample.at.nanos >= now.nanos
        };
    let start = window_start(now, window);
    lemma_leading_holds(samples, start, 0);
    let first = leading(samples, start, 0);
    let old = samples.subrange(0, first);
    let kept = samples.subrange(first, samples.len() as int);
    assert(samples =~= old + kept);
    assert forall|i: int| 0 <= i < kept.len() implies recent(#[trigger] kept[i]) by {
        assert(samples[first].at.nanos <= samples[first + i].at.nanos);
    }
    lemma_filter_none(old, recent);
    lemma_filter_every(kept, recent);
    lemma_filter_joined(old, kept, recent);
}

proof fn lemma_filter_none(samples: Seq<PriceSample>, wanted: spec_fn(PriceSample) -> bool)
    requires
        forall|i: int| 0 <= i < samples.len() ==> !wanted(#[trigger] samples[i]),
    ensures
        samples.filter(wanted) == Seq::<PriceSample>::empty(),
    decreases samples.len(),
{
    reveal(Seq::filter);
    if samples.len() > 0 {
        assert(samples[samples.len() - 1] == samples.last());
        lemma_filter_none(samples.drop_last(), wanted);
    }
}

proof fn lemma_filter_every(samples: Seq<PriceSample>, wanted: spec_fn(PriceSample) -> bool)
    requires
        forall|i: int| 0 <= i < samples.len() ==> wanted(#[trigger] samples[i]),
    ensures
        samples.filter(wanted) == samples,
    decreases samples.len(),
{
    reveal(Seq::filter);
    if samples.len() > 0 {
        assert(samples[samples.len() - 1] == samples.last());
        lemma_filter_every(samples.drop_last(), wanted);
        assert(samples.drop_last().push(samples.last()) =~= samples);
    }
}

proof fn lemma_filter_joined(
    left: Seq<PriceSample>,
    right: Seq<PriceSample>,
    wanted: spec_fn(PriceSample) -> bool,
)
    ensures
        (left + right).filter(wanted) == left.filter(wanted) + right.filter(wanted),
    decreases right.len(),
{
    reveal(Seq::filter);
    if right.len() > 0 {
        lemma_filter_joined(left, right.drop_last(), wanted);
        assert((left + right).drop_last() =~= left + right.drop_last());
        assert((left + right).filter(wanted) =~= left.filter(wanted) + right.filter(wanted));
    } else {
        assert(left + right =~= left);
        assert((left + right).filter(wanted) =~= left.filter(wanted) + right.filter(wanted));
    }
}

/// Two published prices in the window and a step are enough for an estimate: it covers the
/// time from the first to the last of them. Without them there is none.
pub proof fn two_published_prices_are_compared(
    local: Seq<PriceSample>,
    official: Seq<PriceSample>,
    now: Instant,
    config: LeadLagConfig,
    logs: Seq<(Binary64, Binary64)>,
)
    ensures
        ({
            let window = official_window_spec(official, now, config.window);
            let result = estimate_spec(local, official, now, config, logs);
            &&& window.len() >= 2 && config.step.nanos > 0 ==> result.coverage.nanos == if window
                .last().at.nanos >= window[0].at.nanos {
                window.last().at.nanos - window[0].at.nanos
            } else {
                0
            }
            &&& window.len() < 2 || config.step.nanos == 0 ==> {
                &&& log_arguments_spec(local, official, now, config).len() == 0
                &&& result.status == LeadStatus::Insufficient
                &&& result.lead_ms == 0 && result.samples == 0 && result.coverage.nanos == 0
                &&& result.peak_correlation.units() == 0
                &&& result.zero_lag_correlation is None && result.correlation_gain is None
            }
        }),
{
    lemma_size_zero(0);
}

/// The market-making thresholds are the doubles nearest to 0.30 and 0.05: neither lies
/// farther off than half the distance to the next double.
pub proof fn thresholds_are_as_documented(max_quote_age: Duration)
    ensures
        ({
            let config = LeadLagConfig::market_making_spec(max_quote_age);
            let correlation = config.minimum_correlation.units();
            let gain = config.minimum_gain.units();
            &&& 2 * gap(10 * correlation, (3 * one_in_units()) as int) <= 10 * pow2(1020)
            &&& 2 * gap(20 * gain, one_in_units() as int) <= 20 * pow2(1017)
        }),
{
    lemma_powers();
    lemma_magnitude_of(1020, 0x0013_3333_3333_3333);
    lemma_magnitude_of(1017, 0x0019_9999_9999_999a);
    assert(1020 * 0x0010_0000_0000_0000 + 0x0013_3333_3333_3333 == MINIMUM_CORRELATION_BITS);
    assert(1017 * 0x0010_0000_0000_0000 + 0x0019_9999_9999_999a == MINIMUM_GAIN_BITS);
    lemma2_to64();
    lemma2_to64_rest();
    lemma_pow2_adds(54, 1020);
    lemma_pow2_adds(57, 1017);
    let high = pow2(1020) as int;
    let low = pow2(1017) as int;
    assert(gap(10 * (0x0013_3333_3333_3333 * high), 3 * (0x40_0000_0000_0000 * high)) == 2 * high)
        by (nonlinear_arith)
        requires
            high >= 0,
    ;
    assert(gap(20 * (0x0019_9999_9999_999a * low), 0x200_0000_0000_0000 * low) <= 10 * low)
        by (nonlinear_arith)
        requires
            low >= 0,
    ;
}

} // verus!
