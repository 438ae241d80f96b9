//! The monitor's state: per-coin metrics, what is shown, and how keys and updates
//! change it.

use std::collections::VecDeque;

use vstd::prelude::*;
use vstd::string::StringExecFns;

use crate::feed::{
    fresh_quotes_price_a_coin, priced, take_over, taken, taken_over, updated_asset,
};
use crate::float::bounds::{sums_are_exact, whole_quotients_are_exact};
use crate::float::Binary64;
use crate::lead_lag::{
    chronological, estimate, estimate_spec, log_arguments, log_arguments_spec, no_estimate, LeadLag, LeadLagConfig,
    LeadStatus, PriceSample,
};
use crate::model::{Update, Venue, VENUE_COUNT};
use crate::oracle::{Comparison, OracleBook};
use crate::text::{decimal, decimal_text, signed_decimal, signed_decimal_text};
use crate::time::{Duration, Instant, NANOS_PER_MILLI, NANOS_PER_SECOND};

verus! {

/// What the monitor measures of one coin.
pub struct AssetMetrics {
    /// When the last quote was received.
    pub local_at: Option<Instant>,
    /// When the last published price was received.
    pub official_at: Option<Instant>,
    /// How many quotes were received.
    pub local_updates: u64,
    /// How many published prices were received.
    pub official_updates: u64,
    /// How many differences were measured.
    pub diff_samples: u64,
    /// The mean size of the differences, in basis points.
    pub mean_abs_diff_bps: Binary64,
    /// The largest size of the differences, in basis points.
    pub peak_abs_diff_bps: Binary64,
    /// The local prices, each time they changed.
    pub local_history: VecDeque<PriceSample>,
    /// The published prices, each time they changed.
    pub official_history: VecDeque<PriceSample>,
    /// The last estimate of the local price's lead.
    pub lead_lag: LeadLag,
    /// How many estimates in a row found a candidate.
    pub lead_streak: u8,
    /// When the published price that was estimated last was received.
    pub last_lead_official: Option<Instant>,
    /// Local receipt time of the last quote from each venue.
    pub source_at: [Option<Instant>; VENUE_COUNT],
    /// Last measured latency of each venue in milliseconds.
    pub source_latency: [Option<i64>; VENUE_COUNT],
}

/// What the monitor measures of one coin, with its histories as sequences.
#[verifier::ext_equal]
pub struct MetricsView {
    /// When the last quote was received.
    pub local_at: Option<Instant>,
    /// When the last published price was received.
    pub official_at: Option<Instant>,
    /// How many quotes were received.
    pub local_updates: u64,
    /// How many published prices were received.
    pub official_updates: u64,
    /// How many differences were measured.
    pub diff_samples: u64,
    /// The mean size of the differences, in basis points.
    pub mean: Binary64,
    /// The largest size of the differences, in basis points.
    pub peak: Binary64,
    /// The local prices, each time they changed.
    pub local: Seq<PriceSample>,
    /// The published prices, each time they changed.
    pub official: Seq<PriceSample>,
    /// The last estimate of the local price's lead.
    pub lead_lag: LeadLag,
    /// How many estimates in a row found a candidate.
    pub lead_streak: u8,
    /// When the published price that was estimated last was received.
    pub last_lead_official: Option<Instant>,
    /// Local receipt time of the last quote from each venue.
    pub source_at: Seq<Option<Instant>>,
    /// Last measured latency of each venue in milliseconds.
    pub source_latency: Seq<Option<i64>>,
}

impl View for AssetMetrics {
    type V = MetricsView;

    open spec fn view(&self) -> MetricsView {
        MetricsView {
            local_at: self.local_at,
            official_at: self.official_at,
            local_updates: self.local_updates,
            official_updates: self.official_updates,
            diff_samples: self.diff_samples,
            mean: self.mean_abs_diff_bps,
            peak: self.peak_abs_diff_bps,
            local: self.local_history@,
            official: self.official_history@,
            lead_lag: self.lead_lag,
            lead_streak: self.lead_streak,
            last_lead_official: self.last_lead_official,
            source_at: self.source_at@,
            source_latency: self.source_latency@,
        }
    }
}

/// A history after one more price: it grows only if the price differs from the last.
pub open spec fn extended(history: Seq<PriceSample>, at: Instant, price: Binary64) -> Seq<
    PriceSample,
> {
    if history.len() == 0 || !history.last().price.equals(price) {
        history.push(PriceSample { at, price })
    } else {
        history
    }
}

/// A history without its leading samples that are older than the retention.
pub open spec fn trimmed(history: Seq<PriceSample>, now: Instant, retention: int) -> Seq<
    PriceSample,
>
    decreases history.len(),
{
    if history.len() > 0 && now.nanos_since(history[0].at) > retention {
        trimmed(history.subrange(1, history.len() as int), now, retention)
    } else {
        history
    }
}

/// The sign of a number.
pub open spec fn sign(value: int) -> int {
    if value > 0 {
        1
    } else if value < 0 {
        -1
    } else {
        0
    }
}

/// How many estimates in a row found a candidate, as far as the counter reaches: one
/// more if this one and the one before do, with leads of the same sign.
pub open spec fn streak_after(before: LeadLag, streak: u8, estimate: LeadLag) -> u8 {
    if estimate.status != LeadStatus::Candidate {
        0
    } else if before.status == LeadStatus::Candidate && sign(estimate.lead_ms as int) == sign(
        before.lead_ms as int,
    ) {
        if streak == u8::MAX {
            u8::MAX
        } else {
            (streak + 1) as u8
        }
    } else {
        1
    }
}

/// The larger of two numbers; where one is not a number, the other.
pub open spec fn larger(left: Binary64, right: Binary64) -> Binary64 {
    if left.nan() || left.below(right) {
        right
    } else {
        left
    }
}

impl MetricsView {
    /// Before anything is measured.
    pub open spec fn empty() -> MetricsView {
        MetricsView {
            local_at: None,
            official_at: None,
            local_updates: 0,
            official_updates: 0,
            diff_samples: 0,
            mean: Binary64 { bits: 0 },
            peak: Binary64 { bits: 0 },
            local: Seq::empty(),
            official: Seq::empty(),
            lead_lag: no_estimate(),
            lead_streak: 0,
            last_lead_official: None,
            source_at: Seq::new(VENUE_COUNT as nat, |i: int| None::<Instant>),
            source_latency: Seq::new(VENUE_COUNT as nat, |i: int| None::<i64>),
        }
    }

    /// After a quote, with the coin's local price if there is one.
    pub open spec fn observed_local(self, at: Instant, price: Option<Binary64>) -> MetricsView {
        MetricsView {
            local_at: Some(at),
            local_updates: (self.local_updates + 1) as u64,
            local: match price {
                Some(price) => extended(self.local, at, price),
                None => self.local,
            },
            ..self
        }
    }

    /// After a published price.
    pub open spec fn observed_official(self, at: Instant, price: Binary64) -> MetricsView {
        MetricsView {
            official_at: Some(at),
            official_updates: (self.official_updates + 1) as u64,
            official: extended(self.official, at, price),
            ..self
        }
    }

    /// With histories cut to what an estimate uses.
    pub open spec fn cut(self, now: Instant, config: LeadLagConfig) -> MetricsView {
        MetricsView {
            local: trimmed(self.local, now, config.window.nanos + config.maximum_lag.nanos),
            official: trimmed(self.official, now, config.window.nanos as int),
            ..self
        }
    }

    /// There is a published price that was not estimated yet.
    pub open spec fn lead_due(self) -> bool {
        self.official.len() > 0 && self.last_lead_official != Some(self.official.last().at)
    }

    /// The quotients whose logarithms the next estimate needs.
    pub open spec fn lead_arguments(self, now: Instant, config: LeadLagConfig) -> Seq<
        (Binary64, Binary64),
    > {
        let cut = self.cut(now, config);
        log_arguments_spec(cut.local, cut.official, now, config)
    }

    /// After an estimate, if one is due.
    pub open spec fn lead_updated(
        self,
        now: Instant,
        config: LeadLagConfig,
        logs: Seq<(Binary64, Binary64)>,
    ) -> MetricsView {
        if !self.lead_due() {
            self
        } else {
            let cut = self.cut(now, config);
            let estimate = estimate_spec(cut.local, cut.official, now, config, logs);
            MetricsView {
                last_lead_official: Some(self.official.last().at),
                lead_streak: streak_after(self.lead_lag, self.lead_streak, estimate),
                lead_lag: estimate,
                ..cut
            }
        }
    }

    /// After a comparison: the difference, if there is one, enters the rolling mean
    /// and the peak.
    pub open spec fn compared(self, comparison: Comparison) -> MetricsView {
        match comparison.difference_bps {
            None => self,
            Some(difference) => {
                let absolute = difference.absolute_spec();
                let count = (self.diff_samples + 1) as u64;
                MetricsView {
                    diff_samples: count,
                    mean: self.mean.plus_spec(
                        absolute.minus_spec(self.mean).over_spec(
                            Binary64::whole_spec(count as nat),
                        ),
                    ),
                    peak: larger(self.peak, absolute),
                    ..self
                }
            },
        }
    }

    /// After a quote of a venue: when it was received, and its latency where measured.
    pub open spec fn sourced(self, venue: Venue, at: Instant, latency: Option<i64>) -> MetricsView {
        let index = venue.index_spec() as int;
        MetricsView {
            source_at: self.source_at.update(index, Some(at)),
            source_latency: match latency {
                Some(latency) => self.source_latency.update(index, Some(latency)),
                None => self.source_latency,
            },
            ..self
        }
    }

    /// What the lead column shows, given the peak correlation as text: a lag only once
    /// three estimates in a row found a candidate.
    pub open spec fn label(self, correlation: Seq<char>) -> Seq<char> {
        match self.lead_lag.status {
            LeadStatus::Insufficient => {
                let elapsed = self.lead_lag.coverage.nanos / NANOS_PER_SECOND;
                "warming up ("@ + decimal(
                    if elapsed < 120 {
                        elapsed as nat
                    } else {
                        120
                    },
                ) + "s/120s)"@
            },
            LeadStatus::Weak => "inconclusive"@,
            LeadStatus::Candidate => if self.lead_streak >= 3 {
                plus_signed(self.lead_lag.lead_ms as int) + " ms r="@ + correlation
                    + " confirmed"@
            } else {
                "inconclusive"@
            },
        }
    }

    /// The latest quote's receipt minus the latest published price's, in whole
    /// milliseconds.
    pub open spec fn gap_millis(self) -> Option<int> {
        match (self.local_at, self.official_at) {
            (Some(local), Some(official)) => Some(
                if local.nanos >= official.nanos {
                    (local.nanos - official.nanos) / (NANOS_PER_MILLI as int)
                } else {
                    -((official.nanos - local.nanos) / (NANOS_PER_MILLI as int))
                },
            ),
            _ => None,
        }
    }
}

/// A number with its sign, also a plus.
pub open spec fn plus_signed(value: int) -> Seq<char> {
    if value >= 0 {
        "+"@ + decimal(value as nat)
    } else {
        signed_decimal(value)
    }
}

/// A number with its sign, also a plus.
pub fn plus_signed_text(value: i128) -> (text: String)
    ensures
        text@ == plus_signed(value as int),
{
    if value >= 0 {
        let mut text: String = "+".to_owned();
        text.append(decimal_text(value as u128).as_str());
        text
    } else {
        signed_decimal_text(value)
    }
}

/// Drops the leading samples that are older than the retention.
pub fn trim_history(history: &mut VecDeque<PriceSample>, now: Instant, retention: Duration)
    ensures
        final(history)@ == trimmed(old(history)@, now, retention.nanos as int),
{
    let ghost all = trimmed(history@, now, retention.nanos as int);
    while history.len() > 0 && now.saturating_duration_since(history[0].at).nanos > retention.nanos
        invariant
            trimmed(history@, now, retention.nanos as int) == all,
        decreases history@.len(),
    {
        let _ = history.pop_front();
    }
}

/// A copy without the leading samples that are older than the retention.
fn recent(history: &VecDeque<PriceSample>, now: Instant, retention: Duration) -> (samples: Vec<
    PriceSample,
>)
    ensures
        samples@ == trimmed(history@, now, retention.nanos as int),
{
    let mut first: usize = 0;
    proof {
        assert(history@.subrange(0, history@.len() as int) =~= history@);
    }
    while first < history.len() && now.saturating_duration_since(history[first].at).nanos
        > retention.nanos
        invariant
            first <= history@.len(),
            trimmed(
                history@.subrange(first as int, history@.len() as int),
                now,
                retention.nanos as int,
            ) == trimmed(history@, now, retention.nanos as int),
        decreases history@.len() - first,
    {
        proof {
            let rest = history@.subrange(first as int, history@.len() as int);
            assert(rest.subrange(1, rest.len() as int) =~= history@.subrange(
                first + 1,
                history@.len() as int,
            ));
        }
        first = first + 1;
    }
    let mut samples: Vec<PriceSample> = Vec::new();
    let mut index: usize = first;
    while index < history.len()
        invariant
            first <= index <= history@.len(),
            samples@ == history@.subrange(first as int, index as int),
        decreases history@.len() - index,
    {
        samples.push(history[index]);
        index = index + 1;
    }
    samples
}

fn extend_history(history: &mut VecDeque<PriceSample>, at: Instant, price: Binary64)
    ensures
        final(history)@ == extended(old(history)@, at, price),
{
    let length: usize = history.len();
    if length == 0 || !history[length - 1].price.is_equal(price) {
        history.push_back(PriceSample { at, price });
    }
}

/// The larger of two numbers; where one is not a number, the other.
pub(crate) fn maximum(left: Binary64, right: Binary64) -> (result: Binary64)
    ensures
        result == larger(left, right),
{
    if !left.is_at_most(left) || left.is_below(right) {
        right
    } else {
        left
    }
}

fn sign_of(value: i64) -> (result: i8)
    ensures
        result == sign(value as int),
{
    if value > 0 {
        1
    } else if value < 0 {
        -1
    } else {
        0
    }
}

impl AssetMetrics {
    /// Before anything is measured.
    pub fn new() -> (metrics: AssetMetrics)
        ensures
            metrics@ == MetricsView::empty(),
    {
        let metrics: AssetMetrics = AssetMetrics {
            local_at: None,
            official_at: None,
            local_updates: 0,
            official_updates: 0,
            diff_samples: 0,
            mean_abs_diff_bps: Binary64 { bits: 0 },
            peak_abs_diff_bps: Binary64 { bits: 0 },
            local_history: VecDeque::new(),
            official_history: VecDeque::new(),
            lead_lag: LeadLag::default(),
            lead_streak: 0,
            last_lead_official: None,
            source_at: [None, None, None, None, None, None, None, None],
            source_latency: [None, None, None, None, None, None, None, None],
        };
        proof {
            assert(metrics@.source_at =~= MetricsView::empty().source_at);
            assert(metrics@.source_latency =~= MetricsView::empty().source_latency);
        }
        metrics
    }

    /// Takes note of a quote, with the coin's local price if there is one.
    pub fn observe_local(&mut self, at: Instant, price: Option<Binary64>)
        requires
            old(self).local_updates < u64::MAX,
        ensures
            final(self)@ == old(self)@.observed_local(at, price),
    {
        self.local_at = Some(at);
        self.local_updates = self.local_updates + 1;
        if let Some(price) = price {
            extend_history(&mut self.local_history, at, price);
        }
    }

    /// Takes note of a published price.
    pub fn observe_official(&mut self, at: Instant, price: Binary64)
        requires
            old(self).official_updates < u64::MAX,
        ensures
            final(self)@ == old(self)@.observed_official(at, price),
    {
        self.official_at = Some(at);
        self.official_updates = self.official_updates + 1;
        extend_history(&mut self.official_history, at, price);
    }

    /// Takes note of when a venue's quote was received, and of its latency.
    pub fn observe_source(&mut self, venue: Venue, at: Instant, latency: Option<i64>)
        ensures
            final(self)@ == old(self)@.sourced(venue, at, latency),
    {
        let index: usize = venue.index();
        self.source_at[index] = Some(at);
        if let Some(latency) = latency {
            self.source_latency[index] = Some(latency);
        }
    }

    /// Cuts the histories to what an estimate uses.
    pub fn trim(&mut self, now: Instant, config: LeadLagConfig)
        requires
            config.window.nanos + config.maximum_lag.nanos <= u128::MAX,
        ensures
            final(self)@ == old(self)@.cut(now, config),
    {
        let longest: Duration = Duration { nanos: config.window.nanos + config.maximum_lag.nanos };
        trim_history(&mut self.local_history, now, longest);
        trim_history(&mut self.official_history, now, config.window);
    }

    fn is_lead_due(&self) -> (result: bool)
        ensures
            result == self@.lead_due(),
    {
        let length: usize = self.official_history.len();
        if length == 0 {
            return false;
        }
        let at: Instant = self.official_history[length - 1].at;
        match self.last_lead_official {
            Some(last) => last.nanos != at.nanos,
            None => true,
        }
    }

    /// The quotients whose logarithms the next estimate needs, `None` if none is due.
    pub fn lead_arguments(&self, now: Instant, config: LeadLagConfig) -> (arguments: Option<
        Vec<(Binary64, Binary64)>,
    >)
        requires
            config.sound(),
            config.window.nanos + config.maximum_lag.nanos <= u128::MAX,
        ensures
            match arguments {
                Some(arguments) => self@.lead_due() && arguments@ == self@.lead_arguments(
                    now,
                    config,
                ),
                None => !self@.lead_due(),
            },
    {
        if !self.is_lead_due() {
            return None;
        }
        let longest: Duration = Duration { nanos: config.window.nanos + config.maximum_lag.nanos };
        let local: Vec<PriceSample> = recent(&self.local_history, now, longest);
        let official: Vec<PriceSample> = recent(&self.official_history, now, config.window);
        Some(log_arguments(&local, &official, now, config))
    }

    /// Estimates the local price's lead anew if a published price changed, given the
    /// logarithms of the quotients that the estimate needs.
    pub fn update_lead_lag(
        &mut self,
        now: Instant,
        config: LeadLagConfig,
        logs: &[(Binary64, Binary64)],
    )
        requires
            config.sound(),
            config.window.nanos + config.maximum_lag.nanos <= u128::MAX,
            old(self)@.lead_due() ==> logs@.len() == old(self)@.lead_arguments(now, config).len(),
        ensures
            final(self)@ == old(self)@.lead_updated(now, config, logs@),
    {
        if !self.is_lead_due() {
            return ;
        }
        let length: usize = self.official_history.len();
        self.last_lead_official = Some(self.official_history[length - 1].at);
        let longest: Duration = Duration { nanos: config.window.nanos + config.maximum_lag.nanos };
        let local: Vec<PriceSample> = recent(&self.local_history, now, longest);
        let official: Vec<PriceSample> = recent(&self.official_history, now, config.window);
        self.trim(now, config);
        let estimate: LeadLag = estimate(&local, &official, now, config, logs);
        if estimate.status == LeadStatus::Candidate && self.lead_lag.status
            == LeadStatus::Candidate && sign_of(estimate.lead_ms) == sign_of(
            self.lead_lag.lead_ms,
        ) {
            self.lead_streak = self.lead_streak.saturating_add(1);
        } else if estimate.status == LeadStatus::Candidate {
            self.lead_streak = 1;
        } else {
            self.lead_streak = 0;
        }
        self.lead_lag = estimate;
    }

    /// What the lead column shows, given the peak correlation with two decimals.
    pub fn lead_label(&self, correlation: &str) -> (label: String)
        ensures
            label@ == self@.label(correlation@),
    {
        match self.lead_lag.status {
            LeadStatus::Insufficient => {
                let target: u128 = LeadLagConfig::minimum_history().as_secs();
                let passed: u128 = self.lead_lag.coverage.as_secs();
                let elapsed: u128 = if passed < target { passed } else { target };
                let mut label: String = "warming up (".to_owned();
                label.append(decimal_text(elapsed).as_str());
                label.append("s/120s)");
                label
            },
            LeadStatus::Weak => "inconclusive".to_owned(),
            LeadStatus::Candidate => if self.lead_streak >= 3 {
                let mut label: String = plus_signed_text(self.lead_lag.lead_ms as i128);
                label.append(" ms r=");
                label.append(correlation);
                label.append(" confirmed");
                label
            } else {
                "inconclusive".to_owned()
            },
        }
    }

    /// Takes note of a comparison's difference, if it has one.
    pub fn observe_comparison(&mut self, comparison: Comparison)
        requires
            comparison.difference_bps is Some ==> old(self).diff_samples < u64::MAX,
        ensures
            final(self)@ == old(self)@.compared(comparison),
    {
        if let Some(difference) = comparison.difference_bps {
            let absolute: Binary64 = difference.absolute();
            self.diff_samples = self.diff_samples + 1;
            let count: Binary64 = Binary64::from_u64(self.diff_samples);
            let mean: Binary64 = self.mean_abs_diff_bps;
            self.mean_abs_diff_bps = mean.plus(absolute.minus(mean).over(count));
            self.peak_abs_diff_bps = maximum(self.peak_abs_diff_bps, absolute);
        }
    }

    /// Positive: the most recent quote followed the most recent published price.
    /// Negative: it preceded it.
    pub fn local_minus_official_ms(&self) -> (gap: Option<i128>)
        ensures
            match gap {
                Some(millis) => self@.gap_millis() == Some(millis as int),
                None => self@.gap_millis() is None,
            },
    {
        match (self.local_at, self.official_at) {
            (Some(local), Some(official)) => Some(
                if local.nanos >= official.nanos {
                    local.saturating_duration_since(official).as_millis() as i128
                } else {
                    let behind: i128 = official.saturating_duration_since(
                        local,
                    ).as_millis() as i128;
                    -behind
                },
            ),
            _ => None,
        }
    }
}

impl Default for AssetMetrics {
    fn default() -> (metrics: AssetMetrics)
        ensures
            metrics@ == MetricsView::empty(),
    {
        AssetMetrics::new()
    }
}

/// What the screen shows.
#[derive(Clone, Copy, Debug, PartialEq, Eq, Structural)]
pub enum Screen {
    /// The table of all coins.
    Table,
    /// The chart of the selected coin.
    Chart,
}

/// The keys that mean something.
#[derive(Clone, Copy, Debug, PartialEq, Eq, Structural)]
pub enum Key {
    /// `q`.
    Quit,
    /// Escape.
    Escape,
    /// Enter.
    Enter,
    /// The up arrow or `k`.
    Up,
    /// The down arrow or `j`.
    Down,
    /// Any other.
    Other,
}

/// What may end the monitor.
#[derive(Clone, Copy, Debug, PartialEq, Eq, Structural)]
pub enum Signal {
    /// The process was interrupted.
    Interrupted,
    /// No more updates will come.
    Closed,
    /// A key was pressed.
    Pressed(Key),
}

/// What is shown, and which coin is selected, after a key; `None` if it ends the
/// monitor.
pub open spec fn after_key(screen: Screen, selected: nat, count: nat, key: Key) -> Option<
    (Screen, nat),
> {
    match (screen, key) {
        (_, Key::Quit) => None,
        (Screen::Table, Key::Escape) => None,
        (Screen::Chart, Key::Escape) => Some((Screen::Table, selected)),
        (Screen::Table, Key::Enter) => Some((Screen::Chart, selected)),
        (Screen::Chart, Key::Enter) => Some((Screen::Table, selected)),
        (_, Key::Up) => Some(
            (
                screen,
                if selected > 0 {
                    (selected - 1) as nat
                } else {
                    0
                },
            ),
        ),
        (_, Key::Down) => Some(
            (
                screen,
                if selected + 1 < count {
                    selected + 1
                } else {
                    selected
                },
            ),
        ),
        (_, Key::Other) => Some((screen, selected)),
    }
}

/// What is shown, and which coin is selected, after a signal; `None` if it ends the
/// monitor.
pub open spec fn after_signal(screen: Screen, selected: nat, count: nat, signal: Signal) -> Option<
    (Screen, nat),
> {
    match signal {
        Signal::Interrupted | Signal::Closed => None,
        Signal::Pressed(key) => after_key(screen, selected, count, key),
    }
}

/// A value is the comparison of a coin at a point in time, `None` if it has none.
pub open spec fn is_comparison(
    book: OracleBook,
    asset: int,
    now: Instant,
    value: Option<Comparison>,
) -> bool {
    &&& value is Some <==> priced(book, asset, now)
    &&& value matches Some(comparison) ==> book.compares(asset, now, comparison)
}

/// What is to be done with an update.
#[derive(Clone, Debug)]
pub enum Step {
    /// Nothing: the book refused it.
    Ignored,
    /// Nothing more: it has been dealt with.
    Settled,
    /// The published price changed: the logarithms of these quotients are needed to
    /// resume.
    Logs(Vec<(Binary64, Binary64)>),
}

/// The monitor's state.
pub struct Monitor {
    book: OracleBook,
    metrics: Vec<AssetMetrics>,
    latest: Vec<Option<Comparison>>,
    max_quote_age: Duration,
    selected: usize,
    screen: Screen,
}

/// The metrics' views.
pub open spec fn metric_views(metrics: Seq<AssetMetrics>) -> Seq<MetricsView> {
    metrics.map_values(|metric: AssetMetrics| metric@)
}

/// The counters that an update touches can count one more.
pub open spec fn can_count(metrics: MetricsView, update: Update) -> bool {
    &&& update is Quote ==> metrics.local_updates < u64::MAX
    &&& update is Official ==> metrics.official_updates < u64::MAX
    &&& metrics.diff_samples < u64::MAX
}

/// The metrics after a comparison, if there is one.
pub open spec fn after_comparison(metrics: MetricsView, comparison: Option<Comparison>) -> MetricsView {
    match comparison {
        Some(value) => metrics.compared(value),
        None => metrics,
    }
}

/// The metrics after a quote that the book took over, given the comparison that
/// follows.
pub open spec fn after_quote(
    metrics: MetricsView,
    venue: Venue,
    at: Instant,
    latency: Option<i64>,
    comparison: Option<Comparison>,
) -> MetricsView {
    let price = match comparison {
        Some(value) => Some(value.local),
        None => None,
    };
    after_comparison(
        metrics.sourced(venue, at, latency).observed_local(at, price),
        comparison,
    )
}

/// One monitor is another after every coin's comparison was computed anew and its
/// histories were cut.
pub open spec fn refreshed(before: Monitor, now: Instant, after: Monitor) -> bool {
    &&& after.book() == before.book()
    &&& after.same_display(before)
    &&& after.latest().len() == before.latest().len()
    &&& forall|i: int|
        0 <= i < after.latest().len() ==> is_comparison(
            before.book(),
            i,
            now,
            #[trigger] after.latest()[i],
        )
    &&& after.metrics().len() == before.metrics().len()
    &&& forall|i: int|
        0 <= i < after.metrics().len() ==> #[trigger] after.metrics()[i]
            == before.metrics()[i].cut(now, before.config())
}

/// One monitor is another after it took note of an update, with `step` left to do. An
/// update that the book refuses changes nothing. A quote is settled at once, and so is a
/// published price that calls for no logarithms.
pub open spec fn stepped(
    before: Monitor,
    update: Update,
    now: Instant,
    step: Step,
    after: Monitor,
) -> bool {
    let accepted = taken(before.book(), update);
    &&& after.same_display(before)
    &&& !accepted ==> {
        &&& step is Ignored
        &&& after.book() == before.book()
        &&& after.metrics() == before.metrics()
        &&& after.latest() == before.latest()
    }
    &&& accepted ==> {
        &&& step !is Ignored
        &&& taken_over(before.book(), update, after.book())
    }
    &&& accepted ==> (update matches Update::Quote(quote) ==> {
        let asset = quote.asset as int;
        let value = after.latest()[asset];
        &&& step is Settled
        &&& is_comparison(after.book(), asset, now, value)
        &&& after.latest() == before.latest().update(asset, value)
        &&& after.metrics() == before.metrics().update(
            asset,
            after_quote(
                before.metrics()[asset],
                quote.venue,
                quote.received_at,
                quote.latency_ms,
                value,
            ),
        )
    })
    &&& accepted ==> (update matches Update::Official(official) ==> {
        let asset = official.asset as int;
        let observed = before.metrics()[asset].observed_official(
            official.received_at,
            official.oracle,
        );
        if observed.lead_due() {
            &&& step matches Step::Logs(arguments)
            &&& arguments@ == observed.lead_arguments(now, before.config())
            &&& after.latest() == before.latest()
            &&& after.metrics() == before.metrics().update(asset, observed)
        } else {
            let value = after.latest()[asset];
            &&& step is Settled
            &&& is_comparison(after.book(), asset, now, value)
            &&& after.latest() == before.latest().update(asset, value)
            &&& after.metrics() == before.metrics().update(asset, after_comparison(observed, value))
        }
    })
}

/// One monitor is another after it went on with a published price.
pub open spec fn resumed(
    before: Monitor,
    asset: int,
    now: Instant,
    logs: Seq<(Binary64, Binary64)>,
    after: Monitor,
) -> bool {
    let value = after.latest()[asset];
    &&& after.same_display(before)
    &&& after.book() == before.book()
    &&& is_comparison(after.book(), asset, now, value)
    &&& after.latest() == before.latest().update(asset, value)
    &&& after.metrics() == before.metrics().update(
        asset,
        after_comparison(before.metrics()[asset].lead_updated(now, before.config(), logs), value),
    )
}

impl Monitor {
    /// The book of all quotes and published prices.
    pub closed spec fn book(self) -> OracleBook {
        self.book
    }

    /// The metrics of each coin.
    pub closed spec fn metrics(self) -> Seq<MetricsView> {
        metric_views(self.metrics@)
    }

    /// The last comparison of each coin.
    pub closed spec fn latest(self) -> Seq<Option<Comparison>> {
        self.latest@
    }

    /// The index of the selected coin.
    pub closed spec fn selection(self) -> nat {
        self.selected as nat
    }

    /// What is shown.
    pub closed spec fn shows(self) -> Screen {
        self.screen
    }

    /// How a lead is estimated.
    pub closed spec fn config(self) -> LeadLagConfig {
        LeadLagConfig::market_making_spec(self.max_quote_age)
    }

    /// There is a place for each coin everywhere, and an existing coin is selected if
    /// there is any.
    pub closed spec fn wf(self) -> bool {
        &&& self.book.wf()
        &&& self.book.count() == self.metrics@.len()
        &&& self.latest@.len() == self.metrics@.len()
        &&& self.selected < self.metrics@.len() || self.selected == 0
        &&& self.metrics@.len() <= usize::MAX
    }

    /// The two monitors show the same and estimate alike.
    pub open spec fn same_display(self, other: Monitor) -> bool {
        &&& self.shows() == other.shows()
        &&& self.selection() == other.selection()
        &&& self.config() == other.config()
    }

    /// A monitor of `asset_count` coins that has seen nothing.
    pub fn new(asset_count: usize, max_quote_age: Duration, max_official_age: Duration) -> (monitor:
        Monitor)
        ensures
            monitor.wf(),
            monitor.book().count() == asset_count,
            monitor.book().quote_window() == max_quote_age,
            monitor.book().official_window() == max_official_age,
            forall|a: int, v: Venue|
                0 <= a < asset_count ==> #[trigger] monitor.book().quote(a, v) is None,
            forall|a: int| 0 <= a < asset_count ==> #[trigger] monitor.book().official(a) is None,
            monitor.metrics() == Seq::new(asset_count as nat, |i: int| MetricsView::empty()),
            monitor.latest() == Seq::new(asset_count as nat, |i: int| None::<Comparison>),
            monitor.selection() == 0,
            monitor.shows() == Screen::Table,
            monitor.config() == LeadLagConfig::market_making_spec(max_quote_age),
    {
        let mut metrics: Vec<AssetMetrics> = Vec::new();
        let mut latest: Vec<Option<Comparison>> = Vec::new();
        let mut index: usize = 0;
        while index < asset_count
            invariant
                index <= asset_count,
                metrics@.len() == index,
                forall|i: int| 0 <= i < index ==> (#[trigger] metrics@[i])@ == MetricsView::empty(),
                latest@ == Seq::new(index as nat, |i: int| None::<Comparison>),
            decreases asset_count - index,
        {
            metrics.push(AssetMetrics::new());
            latest.push(None);
            index = index + 1;
        }
        proof {
            assert(metric_views(metrics@) =~= Seq::new(
                asset_count as nat,
                |i: int| MetricsView::empty(),
            ));
        }
        Monitor {
            book: OracleBook::new(asset_count, max_quote_age, max_official_age),
            metrics,
            latest,
            max_quote_age,
            selected: 0,
            screen: Screen::Table,
        }
    }

    /// Takes note of a key; says whether the monitor goes on.
    pub fn press(&mut self, key: Key) -> (goes_on: bool)
        requires
            old(self).wf(),
        ensures
            final(self).wf(),
            final(self).book() == old(self).book(),
            final(self).metrics() == old(self).metrics(),
            final(self).latest() == old(self).latest(),
            final(self).config() == old(self).config(),
            match after_key(
                old(self).shows(),
                old(self).selection(),
                old(self).metrics().len(),
                key,
            ) {
                Some((screen, selected)) => goes_on && final(self).shows() == screen && final(self).selection() == selected,
                None => !goes_on && final(self).same_display(*old(self)),
            },
    {
        match (self.screen, key) {
            (_, Key::Quit) => false,
            (Screen::Table, Key::Escape) => false,
            (Screen::Chart, Key::Escape) => {
                self.screen = Screen::Table;
                true
            },
            (Screen::Table, Key::Enter) => {
                self.screen = Screen::Chart;
                true
            },
            (Screen::Chart, Key::Enter) => {
                self.screen = Screen::Table;
                true
            },
            (_, Key::Up) => {
                if self.selected > 0 {
                    self.selected = self.selected - 1;
                }
                true
            },
            (_, Key::Down) => {
                if self.selected < self.metrics.len() && self.selected + 1 < self.metrics.len() {
                    self.selected = self.selected + 1;
                }
                true
            },
            (_, Key::Other) => true,
        }
    }

    /// Takes note of a signal; says whether the monitor goes on.
    pub fn heed(&mut self, signal: Signal) -> (goes_on: bool)
        requires
            old(self).wf(),
        ensures
            final(self).wf(),
            final(self).book() == old(self).book(),
            final(self).metrics() == old(self).metrics(),
            final(self).latest() == old(self).latest(),
            final(self).config() == old(self).config(),
            match after_signal(
                old(self).shows(),
                old(self).selection(),
                old(self).metrics().len(),
                signal,
            ) {
                Some((screen, selected)) => goes_on && final(self).shows() == screen && final(
                    self).selection() == selected,
                None => !goes_on && final(self).same_display(*old(self)),
            },
    {
        match signal {
            Signal::Interrupted | Signal::Closed => false,
            Signal::Pressed(key) => self.press(key),
        }
    }

    /// Computes every coin's comparison anew, and cuts the histories.
    pub fn refresh(&mut self, now: Instant)
        requires
            old(self).wf(),
        ensures
            final(self).wf(),
            refreshed(*old(self), now, *final(self)),
    {
        let ghost before = *self;
        let config: LeadLagConfig = LeadLagConfig::market_making(self.max_quote_age);
        let count: usize = self.metrics.len();
        let mut index: usize = 0;
        while index < count
            invariant
                index <= count,
                count == self.metrics@.len() == before.metrics@.len(),
                self.latest@.len() == count,
                self.wf(),
                self.book == before.book,
                self.screen == before.screen,
                self.selected == before.selected,
                self.max_quote_age == before.max_quote_age,
                config == LeadLagConfig::market_making_spec(before.max_quote_age),
                forall|i: int|
                    0 <= i < index ==> is_comparison(self.book, i, now, #[trigger] self.latest@[i]),
                forall|i: int|
                    0 <= i < index ==> (#[trigger] self.metrics@[i])@
                        == before.metrics@[i]@.cut(now, config),
                forall|i: int|
                    index <= i < count ==> #[trigger] self.metrics@[i] == before.metrics@[i],
            decreases count - index,
        {
            let value: Option<Comparison> = self.book.comparison(index, now);
            self.latest.set(index, value);
            self.metrics[index].trim(now, config);
            index = index + 1;
        }
    }

    /// Takes note of an update. A published price may call for logarithms, with which
    /// `resume` goes on.
    pub fn receive(&mut self, update: Update, now: Instant) -> (step: Step)
        requires
            old(self).wf(),
            taken(old(self).book(), update) ==> can_count(
                old(self).metrics()[updated_asset(update)],
                update,
            ),
        ensures
            final(self).wf(),
            stepped(*old(self), update, now, step, *final(self)),
    {
        let asset: usize = match update {
            Update::Quote(quote) => quote.asset as usize,
            Update::Official(official) => official.asset as usize,
        };
        if !take_over(&mut self.book, update) {
            return Step::Ignored;
        }
        proof {
            assert(self.metrics()[asset as int] == self.metrics@[asset as int]@);
        }
        match update {
            Update::Quote(quote) => {
                self.metrics[asset].observe_source(
                    quote.venue,
                    quote.received_at,
                    quote.latency_ms,
                );
                let value: Option<Comparison> = self.book.comparison(asset, now);
                self.latest.set(asset, value);
                let price: Option<Binary64> = match value {
                    Some(comparison) => Some(comparison.local),
                    None => None,
                };
                self.metrics[asset].observe_local(quote.received_at, price);
                if let Some(comparison) = value {
                    self.metrics[asset].observe_comparison(comparison);
                }
                proof {
                    assert(self.metrics() =~= old(self).metrics().update(
                        asset as int,
                        self.metrics@[asset as int]@,
                    ));
                }
                Step::Settled
            },
            Update::Official(official) => {
                self.metrics[asset].observe_official(official.received_at, official.oracle);
                let config: LeadLagConfig = LeadLagConfig::market_making(self.max_quote_age);
                let step: Step = match self.metrics[asset].lead_arguments(now, config) {
                    Some(arguments) => Step::Logs(arguments),
                    None => {
                        let value: Option<Comparison> = self.book.comparison(asset, now);
                        self.latest.set(asset, value);
                        if let Some(comparison) = value {
                            self.metrics[asset].observe_comparison(comparison);
                        }
                        Step::Settled
                    },
                };
                proof {
                    assert(self.metrics() =~= old(self).metrics().update(
                        asset as int,
                        self.metrics@[asset as int]@,
                    ));
                }
                step
            },
        }
    }

    /// Goes on with a published price, given the logarithms that it called for.
    pub fn resume(&mut self, asset: usize, now: Instant, logs: &[(Binary64, Binary64)])
        requires
            old(self).wf(),
            asset < old(self).metrics().len(),
            old(self).metrics()[asset as int].diff_samples < u64::MAX,
            old(self).metrics()[asset as int].lead_due() ==> logs@.len() == old(self).metrics()[asset as int].lead_arguments(now, old(self).config()).len(),
        ensures
            final(self).wf(),
            resumed(*old(self), asset as int, now, logs@, *final(self)),
    {
        proof {
            assert(self.metrics()[asset as int] == self.metrics@[asset as int]@);
        }
        let config: LeadLagConfig = LeadLagConfig::market_making(self.max_quote_age);
        self.metrics[asset].update_lead_lag(now, config, logs);
        let value: Option<Comparison> = self.book.comparison(asset, now);
        self.latest.set(asset, value);
        if let Some(comparison) = value {
            self.metrics[asset].observe_comparison(comparison);
        }
        proof {
            assert(self.metrics() =~= old(self).metrics().update(
                asset as int,
                self.metrics@[asset as int]@,
            ));
        }
    }

    /// The metrics of a coin.
    pub fn metric(&self, asset: usize) -> (metric: &AssetMetrics)
        requires
            asset < self.metrics().len(),
        ensures
            metric@ == self.metrics()[asset as int],
    {
        &self.metrics[asset]
    }

    /// The last comparison of a coin.
    pub fn comparison(&self, asset: usize) -> (value: Option<Comparison>)
        requires
            asset < self.latest().len(),
        ensures
            value == self.latest()[asset as int],
    {
        self.latest[asset]
    }

    /// The index of the selected coin.
    pub fn selected(&self) -> (selected: usize)
        ensures
            selected == self.selection(),
    {
        self.selected
    }

    /// What is shown.
    pub fn screen(&self) -> (screen: Screen)
        ensures
            screen == self.shows(),
    {
        self.screen
    }
}

/// A lead is confirmed only where this estimate and at least two before it, in a row,
/// found a candidate.
pub proof fn confirmation_needs_three_candidates(
    first: LeadLag,
    streak: u8,
    second: LeadLag,
    third: LeadLag,
)
    requires
        streak_after(second, streak_after(first, streak, second), third) >= 3,
    ensures
        first.status == LeadStatus::Candidate,
        second.status == LeadStatus::Candidate,
        third.status == LeadStatus::Candidate,
        streak >= 1,
{
}

/// What happens to the metrics of a coin: a call of one of their methods.
pub enum Observation {
    /// A quote, with the coin's local price if there is one.
    Local(Instant, Option<Binary64>),
    /// A published price.
    Official(Instant, Binary64),
    /// The receipt of a venue's quote, and its latency where measured.
    Source(Venue, Instant, Option<i64>),
    /// The histories are cut.
    Trim(Instant, LeadLagConfig),
    /// The lead is estimated if that is due, given the logarithms.
    Lead(Instant, LeadLagConfig, Seq<(Binary64, Binary64)>),
    /// A comparison.
    Comparison(Comparison),
}

impl MetricsView {
    /// After an observation.
    pub open spec fn after(self, observation: Observation) -> MetricsView {
        match observation {
            Observation::Local(at, price) => self.observed_local(at, price),
            Observation::Official(at, price) => self.observed_official(at, price),
            Observation::Source(venue, at, latency) => self.sourced(venue, at, latency),
            Observation::Trim(now, config) => self.cut(now, config),
            Observation::Lead(now, config, logs) => self.lead_updated(now, config, logs),
            Observation::Comparison(comparison) => self.compared(comparison),
        }
    }
}

/// The metrics after some observations.
pub open spec fn measured(observations: Seq<Observation>) -> MetricsView
    decreases observations.len(),
{
    if observations.len() == 0 {
        MetricsView::empty()
    } else {
        measured(observations.drop_last()).after(observations.last())
    }
}

/// The estimates that were made during some observations, in order.
pub open spec fn estimates(observations: Seq<Observation>) -> Seq<LeadLag>
    decreases observations.len(),
{
    if observations.len() == 0 {
        Seq::empty()
    } else {
        let before = estimates(observations.drop_last());
        if observations.last() is Lead && measured(observations.drop_last()).lead_due() {
            before.push(measured(observations).lead_lag)
        } else {
            before
        }
    }
}

/// The number of latest estimates in a row that are candidates with leads of one sign.
pub open spec fn latest_run(made: Seq<LeadLag>) -> nat
    decreases made.len(),
{
    if made.len() == 0 || made.last().status != LeadStatus::Candidate {
        0
    } else {
        let before = made.drop_last();
        if before.len() > 0 && before.last().status == LeadStatus::Candidate && sign(
            before.last().lead_ms as int,
        ) == sign(made.last().lead_ms as int) {
            1 + latest_run(before)
        } else {
            1
        }
    }
}

/// Whatever is observed, the streak is the number of latest estimates in a row that
/// are candidates with leads of one sign, at most 255; and the estimate that is held is
/// the latest.
pub proof fn streak_counts_latest_run(observations: Seq<Observation>)
    ensures
        ({
            let metrics = measured(observations);
            let made = estimates(observations);
            &&& metrics.lead_streak == if latest_run(made) < 255 {
                latest_run(made)
            } else {
                255
            }
            &&& metrics.lead_lag == if made.len() > 0 {
                made.last()
            } else {
                no_estimate()
            }
        }),
    decreases observations.len(),
{
    if observations.len() > 0 {
        let earlier = observations.drop_last();
        streak_counts_latest_run(earlier);
        let before = estimates(earlier);
        let made = estimates(observations);
        if observations.last() is Lead && measured(earlier).lead_due() {
            assert(made.drop_last() =~= before);
        }
    }
}

/// A lag is shown exactly where the latest estimate is a candidate and at least three in
/// a row are, with leads of one sign; any other estimate after the warm-up is shown as
/// inconclusive.
pub proof fn lags_are_shown_once_confirmed(observations: Seq<Observation>, correlation: Seq<char>)
    ensures
        ({
            let metrics = measured(observations);
            &&& metrics.lead_lag.status == LeadStatus::Candidate && latest_run(
                estimates(observations),
            ) >= 3 ==> metrics.label(correlation) == plus_signed(metrics.lead_lag.lead_ms as int)
                + " ms r="@ + correlation + " confirmed"@
            &&& metrics.lead_lag.status != LeadStatus::Insufficient && latest_run(
                estimates(observations),
            ) < 3 ==> metrics.label(correlation) == "inconclusive"@
        }),
{
    streak_counts_latest_run(observations);
}

/// The sizes of the differences in some observations, in order.
pub open spec fn difference_sizes(observations: Seq<Observation>) -> Seq<Binary64>
    decreases observations.len(),
{
    if observations.len() == 0 {
        Seq::empty()
    } else {
        let before = difference_sizes(observations.drop_last());
        match observations.last() {
            Observation::Comparison(comparison) => match comparison.difference_bps {
                Some(difference) => before.push(difference.absolute_spec()),
                None => before,
            },
            _ => before,
        }
    }
}

/// Whatever is observed, every comparison with a difference is counted once. The peak is
/// zero or the size of a difference that was observed, and none is larger.
pub proof fn peak_is_the_largest_difference(observations: Seq<Observation>)
    requires
        difference_sizes(observations).len() <= u64::MAX,
    ensures
        ({
            let metrics = measured(observations);
            let sizes = difference_sizes(observations);
            &&& metrics.diff_samples == sizes.len()
            &&& !metrics.peak.nan()
            &&& metrics.peak == (Binary64 { bits: 0 }) || sizes.contains(metrics.peak)
            &&& forall|i: int|
                0 <= i < sizes.len() && !(#[trigger] sizes[i]).nan() ==> sizes[i].at_most(
                    metrics.peak,
                )
        }),
    decreases observations.len(),
{
    if observations.len() > 0 {
        let earlier = observations.drop_last();
        let before = difference_sizes(earlier);
        let sizes = difference_sizes(observations);
        peak_is_the_largest_difference(earlier);
        let held = measured(earlier).peak;
        if sizes.len() > before.len() {
            assert(sizes.drop_last() =~= before);
            assert(sizes[before.len() as int] == sizes.last());
            if before.contains(held) {
                let place = choose|i: int| 0 <= i < before.len() && before[i] == held;
                assert(sizes[place] == held);
            }
        }
    }
}

/// A history's last sample is the last one trimmed.
proof fn lemma_trimmed_last(history: Seq<PriceSample>, now: Instant, retention: int)
    ensures
        trimmed(history, now, retention).len() > 0 ==> history.len() > 0 && trimmed(
            history,
            now,
            retention,
        ).last() == history.last(),
    decreases history.len(),
{
    if history.len() > 0 && now.nanos_since(history[0].at) > retention {
        lemma_trimmed_last(history.subrange(1, history.len() as int), now, retention);
    }
}

/// Until a published price changes, further calls leave the estimate and the streak as
/// they are: neither a second call, nor one after cutting the histories or after the
/// same price was published again, changes anything.
pub proof fn estimates_wait_for_new_prices(
    metrics: MetricsView,
    now: Instant,
    config: LeadLagConfig,
    logs: Seq<(Binary64, Binary64)>,
    later: Instant,
    later_config: LeadLagConfig,
    later_logs: Seq<(Binary64, Binary64)>,
)
    ensures
        ({
            let done = metrics.lead_updated(now, config, logs);
            let cut = done.cut(later, later_config);
            &&& !done.lead_due()
            &&& done.lead_updated(later, later_config, later_logs) == done
            &&& cut.lead_updated(later, later_config, later_logs) == cut
            &&& done.official.len() > 0 && done.official.last().price.equals(
                done.official.last().price,
            ) ==> {
                let again = done.observed_official(later, done.official.last().price);
                again.lead_updated(later, later_config, later_logs) == again
            }
        }),
{
    let done = metrics.lead_updated(now, config, logs);
    lemma_trimmed_last(metrics.official, now, config.window.nanos as int);
    lemma_trimmed_last(done.official, later, later_config.window.nanos as int);
}

/// A history in which no price repeats the one before it.
pub open spec fn without_repeats(history: Seq<PriceSample>) -> bool {
    forall|i: int|
        0 < i < history.len() ==> !history[i - 1].price.equals((#[trigger] history[i]).price)
}

/// Histories hold changes only: no price repeats the one before it.
pub proof fn histories_hold_changes(history: Seq<PriceSample>, at: Instant, price: Binary64)
    requires
        without_repeats(history),
    ensures
        without_repeats(extended(history, at, price)),
{
    let longer = extended(history, at, price);
    assert forall|i: int| 0 < i < longer.len() implies !longer[i - 1].price.equals(
        (#[trigger] longer[i]).price,
    ) by {
        if i < history.len() {
            assert(longer[i] == history[i]);
        }
    }
}

/// Of a chronological history, trimming keeps exactly the samples that are not older
/// than the retention, in order.
pub proof fn trimming_keeps_recent_samples(
    history: Seq<PriceSample>,
    now: Instant,
    retention: int,
    index: int,
)
    requires
        chronological(history),
        0 <= index < history.len(),
    ensures
        ({
            let kept = trimmed(history, now, retention);
            let dropped = history.len() - kept.len();
            if now.nanos_since(history[index].at) <= retention {
                0 <= dropped <= index && kept[index - dropped] == history[index]
            } else {
                index < dropped
            }
        }),
    decreases history.len(),
{
    let rest = history.subrange(1, history.len() as int);
    assert(history[0].at.nanos <= history[index].at.nanos);
    if now.nanos_since(history[0].at) > retention {
        assert forall|i: int, j: int| 0 <= i <= j < rest.len() implies (#[trigger] rest[i]).at.nanos
            <= (#[trigger] rest[j]).at.nanos by {
            assert(history[i + 1].at.nanos <= history[j + 1].at.nanos);
        }
        if index > 0 {
            trimming_keeps_recent_samples(rest, now, retention, index - 1);
        } else {
            lemma_trimmed_length(rest, now, retention);
        }
    }
}

proof fn lemma_trimmed_length(history: Seq<PriceSample>, now: Instant, retention: int)
    ensures
        trimmed(history, now, retention).len() <= history.len(),
    decreases history.len(),
{
    if history.len() > 0 && now.nanos_since(history[0].at) > retention {
        lemma_trimmed_length(history.subrange(1, history.len() as int), now, retention);
    }
}

/// Whatever key is pressed, an existing coin stays selected.
pub proof fn selection_stays_in_range(screen: Screen, selected: nat, count: nat, key: Key)
    requires
        selected < count,
    ensures
        after_key(screen, selected, count, key) matches Some((_, next)) ==> next < count,
{
}

/// What is shown, and which coin is selected, after some signals; `None` if one of them
/// ended the monitor.
pub open spec fn after_signals(
    screen: Screen,
    selected: nat,
    count: nat,
    signals: Seq<Signal>,
) -> Option<(Screen, nat)>
    decreases signals.len(),
{
    if signals.len() == 0 {
        Some((screen, selected))
    } else {
        match after_signals(screen, selected, count, signals.drop_last()) {
            Some((shown, chosen)) => after_signal(shown, chosen, count, signals.last()),
            None => None,
        }
    }
}

/// A signal ends the monitor where this screen is shown: an interrupt, the end of the
/// updates, `q`, or Escape in the table.
pub open spec fn ends(screen: Screen, signal: Signal) -> bool {
    match signal {
        Signal::Interrupted | Signal::Closed => true,
        Signal::Pressed(key) => key == Key::Quit || (key == Key::Escape && screen == Screen::Table),
    }
}

/// From the first table screen on, an existing coin stays selected whatever signals
/// come.
pub proof fn selection_stays_in_range_throughout(count: nat, signals: Seq<Signal>)
    requires
        count > 0,
    ensures
        after_signals(Screen::Table, 0, count, signals) matches Some((_, selected)) ==> selected
            < count,
    decreases signals.len(),
{
    if signals.len() > 0 {
        selection_stays_in_range_throughout(count, signals.drop_last());
    }
}

/// The monitor ends exactly with the first signal that ends it on the screen shown then.
pub proof fn monitor_ends_exactly_on_request(count: nat, signals: Seq<Signal>)
    ensures
        after_signals(Screen::Table, 0, count, signals) is None <==> exists|i: int|
            0 <= i < signals.len() && (after_signals(
                Screen::Table,
                0,
                count,
                #[trigger] signals.take(i),
            ) matches Some((screen, _)) && ends(screen, signals[i])),
    decreases signals.len(),
{
    if signals.len() > 0 {
        let earlier = signals.drop_last();
        let last = signals.len() - 1;
        monitor_ends_exactly_on_request(count, earlier);
        assert(signals.take(last) =~= earlier);
        if after_signals(Screen::Table, 0, count, earlier) is None {
            let i = choose|i: int|
                0 <= i < earlier.len() && (after_signals(
                    Screen::Table,
                    0,
                    count,
                    #[trigger] earlier.take(i),
                ) matches Some((screen, _)) && ends(screen, earlier[i]));
            assert(earlier.take(i) =~= signals.take(i));
        } else {
            assert forall|i: int| 0 <= i < last implies !(after_signals(
                Screen::Table,
                0,
                count,
                #[trigger] signals.take(i),
            ) matches Some((screen, _)) && ends(screen, signals[i])) by {
                assert(earlier.take(i) =~= signals.take(i));
                assert(earlier[i] == signals[i]);
            }
        }
    }
}

/// Enter switches between table and chart, Escape in the chart goes back to the table;
/// the up key at the first coin and the down key at the last change nothing.
pub proof fn keys_switch_screens(screen: Screen, selected: nat, count: nat)
    requires
        selected < count,
    ensures
        after_key(Screen::Table, selected, count, Key::Enter) == Some((Screen::Chart, selected)),
        after_key(Screen::Chart, selected, count, Key::Enter) == Some((Screen::Table, selected)),
        after_key(Screen::Chart, selected, count, Key::Escape) == Some((Screen::Table, selected)),
        after_key(screen, 0, count, Key::Up) == Some((screen, 0nat)),
        after_key(screen, (count - 1) as nat, count, Key::Down) == Some(
            (screen, (count - 1) as nat),
        ),
{
}

/// A price that differs from a history's last one is always recorded, behind all others
/// and with its time; one that equals it changes nothing. So the last price recorded is
/// always the last one observed.
pub proof fn every_change_is_recorded(history: Seq<PriceSample>, at: Instant, price: Binary64)
    ensures
        ({
            let longer = extended(history, at, price);
            let sample = PriceSample { at, price };
            &&& history.len() == 0 ==> longer == seq![sample]
            &&& history.len() > 0 && (price.nan() || history.last().price.nan()
                || history.last().price.units() != price.units()) ==> longer == history + seq![
                sample,
            ]
            &&& history.len() > 0 && !price.nan() && !history.last().price.nan()
                && history.last().price.units() == price.units() ==> longer == history
            &&& !price.nan() ==> longer.len() > 0 && !longer.last().price.nan()
                && longer.last().price.units() == price.units()
        }),
{
    let longer = extended(history, at, price);
    let sample = PriceSample { at, price };
    if history.len() == 0 {
        assert(longer =~= seq![sample]);
    }
    assert(history.push(sample) =~= history + seq![sample]);
}

/// A quote counts as one more, is the latest, and its price, if the coin has one, goes to
/// the local history alone.
pub proof fn quotes_are_recorded(metrics: MetricsView, at: Instant, price: Option<Binary64>)
    requires
        metrics.local_updates < u64::MAX,
    ensures
        ({
            let after = metrics.observed_local(at, price);
            &&& after.local_at == Some(at)
            &&& after.local_updates == metrics.local_updates + 1
            &&& price is None ==> after.local == metrics.local
            &&& price matches Some(value) ==> !value.nan() ==> after.local.len() > 0
                && after.local.last().price.units() == value.units() && (after.local
                == metrics.local || after.local == metrics.local + seq![
                PriceSample { at, price: value },
            ])
            &&& after.official_at == metrics.official_at
            &&& after.official_updates == metrics.official_updates
            &&& after.official == metrics.official
            &&& after.diff_samples == metrics.diff_samples && after.mean == metrics.mean
                && after.peak == metrics.peak
            &&& after.lead_lag == metrics.lead_lag && after.lead_streak == metrics.lead_streak
                && after.last_lead_official == metrics.last_lead_official
            &&& after.source_at == metrics.source_at && after.source_latency
                == metrics.source_latency
        }),
{
    if let Some(value) = price {
        every_change_is_recorded(metrics.local, at, value);
    }
}

/// A published price counts as one more, is the latest, and goes to the published history
/// alone.
pub proof fn published_prices_are_recorded(metrics: MetricsView, at: Instant, price: Binary64)
    requires
        metrics.official_updates < u64::MAX,
        !price.nan(),
    ensures
        ({
            let after = metrics.observed_official(at, price);
            &&& after.official_at == Some(at)
            &&& after.official_updates == metrics.official_updates + 1
            &&& after.official.len() > 0 && after.official.last().price.units() == price.units()
            &&& after.official == metrics.official || after.official == metrics.official + seq![
                PriceSample { at, price },
            ]
            &&& after.local_at == metrics.local_at
            &&& after.local_updates == metrics.local_updates
            &&& after.local == metrics.local
            &&& after.diff_samples == metrics.diff_samples && after.mean == metrics.mean
                && after.peak == metrics.peak
            &&& after.lead_lag == metrics.lead_lag && after.lead_streak == metrics.lead_streak
                && after.last_lead_official == metrics.last_lead_official
            &&& after.source_at == metrics.source_at && after.source_latency
                == metrics.source_latency
        }),
{
    every_change_is_recorded(metrics.official, at, price);
}

/// A venue's quote sets that venue's receipt time, and its latency only where one was
/// measured: the last measured one stays. No other venue is touched.
pub proof fn sources_keep_their_last_latency(
    metrics: MetricsView,
    venue: Venue,
    at: Instant,
    latency: Option<i64>,
    other: Venue,
)
    requires
        metrics.source_at.len() == VENUE_COUNT,
        metrics.source_latency.len() == VENUE_COUNT,
    ensures
        ({
            let after = metrics.sourced(venue, at, latency);
            let place = venue.index_spec() as int;
            let elsewhere = other.index_spec() as int;
            &&& after.source_at[place] == Some(at)
            &&& latency is Some ==> after.source_latency[place] == latency
            &&& latency is None ==> after.source_latency == metrics.source_latency
            &&& other != venue ==> after.source_at[elsewhere] == metrics.source_at[elsewhere]
                && after.source_latency[elsewhere] == metrics.source_latency[elsewhere]
            &&& after.source_at.len() == VENUE_COUNT && after.source_latency.len() == VENUE_COUNT
            &&& after.local == metrics.local && after.official == metrics.official
            &&& after.local_updates == metrics.local_updates && after.official_updates
                == metrics.official_updates
        }),
{
}

/// Of two numbers the larger is one of them and neither exceeds it; what is not a number
/// gives way to what is.
pub proof fn the_larger_is_not_exceeded(left: Binary64, right: Binary64)
    ensures
        ({
            let found = larger(left, right);
            &&& found == left || found == right
            &&& !left.nan() ==> !found.nan() && left.units() <= found.units()
            &&& !right.nan() ==> !found.nan() && right.units() <= found.units()
        }),
{
}

/// A lead is ahead, behind or neither.
pub proof fn signs_follow_the_order(value: int)
    ensures
        sign(value) == 1 <==> value > 0,
        sign(value) == -1 <==> value < 0,
        sign(value) == 0 <==> value == 0,
{
}

/// A streak grows by one, up to 255, where this estimate and the one before are candidates
/// that lead alike; a candidate after anything else begins one, and what is no candidate
/// ends it.
pub proof fn streaks_grow_with_agreeing_candidates(before: LeadLag, streak: u8, estimate: LeadLag)
    ensures
        ({
            let after = streak_after(before, streak, estimate);
            let agree = before.status == LeadStatus::Candidate && ((before.lead_ms > 0
                && estimate.lead_ms > 0) || (before.lead_ms < 0 && estimate.lead_ms < 0) || (
            before.lead_ms == 0 && estimate.lead_ms == 0));
            &&& estimate.status != LeadStatus::Candidate <==> after == 0
            &&& estimate.status == LeadStatus::Candidate && !agree ==> after == 1
            &&& estimate.status == LeadStatus::Candidate && agree && streak < 255 ==> after
                == streak + 1
            &&& estimate.status == LeadStatus::Candidate && agree && streak == 255 ==> after == 255
        }),
{
}

/// The gap is positive exactly where the latest quote came a millisecond or more after the
/// latest published price; its size is the whole milliseconds between them, and it changes
/// its sign alone where the two change places.
pub proof fn gaps_are_signed_milliseconds(metrics: MetricsView, local: Instant, official: Instant)
    ensures
        ({
            let gap = MetricsView {
                local_at: Some(local),
                official_at: Some(official),
                ..metrics
            }.gap_millis();
            let swapped = MetricsView {
                local_at: Some(official),
                official_at: Some(local),
                ..metrics
            }.gap_millis();
            &&& gap is Some && swapped == Some(-gap->Some_0)
            &&& local.nanos >= official.nanos ==> 0 <= (local.nanos - official.nanos)
                - gap->Some_0 * 1_000_000 < 1_000_000
        }),
        metrics.local_at is None || metrics.official_at is None ==> metrics.gap_millis() is None,
{
}

/// The estimate of a coin is due exactly while the latest recorded published price was not
/// estimated.
pub proof fn each_published_change_is_estimated_once(metrics: MetricsView)
    ensures
        metrics.lead_due() <==> metrics.official.len() > 0 && (metrics.last_lead_official is None
            || metrics.last_lead_official->Some_0.nanos != metrics.official.last().at.nanos),
{
}

/// An estimate is made of the samples within its own windows, and replaces the one before;
/// nothing else changes but the histories, which keep those samples.
pub proof fn estimates_replace_the_one_before(
    metrics: MetricsView,
    now: Instant,
    config: LeadLagConfig,
    logs: Seq<(Binary64, Binary64)>,
)
    requires
        metrics.lead_due(),
    ensures
        ({
            let after = metrics.lead_updated(now, config, logs);
            let local = trimmed(metrics.local, now, config.window.nanos + config.maximum_lag.nanos);
            let official = trimmed(metrics.official, now, config.window.nanos as int);
            &&& after.local == local && after.official == official
            &&& after.lead_lag == estimate_spec(local, official, now, config, logs)
            &&& after.lead_streak == streak_after(
                metrics.lead_lag,
                metrics.lead_streak,
                after.lead_lag,
            )
            &&& after.last_lead_official == Some(metrics.official.last().at)
            &&& metrics.lead_arguments(now, config) == log_arguments_spec(
                local,
                official,
                now,
                config,
            )
            &&& after.local_at == metrics.local_at && after.official_at == metrics.official_at
            &&& after.local_updates == metrics.local_updates && after.official_updates
                == metrics.official_updates
            &&& after.diff_samples == metrics.diff_samples && after.mean == metrics.mean
                && after.peak == metrics.peak
            &&& after.source_at == metrics.source_at && after.source_latency
                == metrics.source_latency
        }),
{
}

/// Cutting the histories touches nothing else, and keeps in each exactly the samples that
/// are not older than its window, the local one longer by the largest lag.
pub proof fn cutting_keeps_what_an_estimate_uses(
    metrics: MetricsView,
    now: Instant,
    config: LeadLagConfig,
    index: int,
)
    requires
        chronological(metrics.local),
        chronological(metrics.official),
    ensures
        ({
            let after = metrics.cut(now, config);
            let longest = config.window.nanos + config.maximum_lag.nanos;
            &&& 0 <= index < metrics.local.len() && now.nanos - metrics.local[index].at.nanos
                <= longest ==> after.local.contains(metrics.local[index])
            &&& 0 <= index < metrics.official.len() && now.nanos - metrics.official[index].at.nanos
                <= config.window.nanos ==> after.official.contains(metrics.official[index])
            &&& 0 <= index < after.local.len() ==> now.nanos - after.local[index].at.nanos
                <= longest
            &&& 0 <= index < after.official.len() ==> now.nanos - after.official[index].at.nanos
                <= config.window.nanos
            &&& after.lead_lag == metrics.lead_lag && after.lead_streak == metrics.lead_streak
            &&& after.local_at == metrics.local_at && after.official_at == metrics.official_at
            &&& after.peak == metrics.peak && after.mean == metrics.mean
        }),
{
    let longest = config.window.nanos + config.maximum_lag.nanos;
    let shortest = config.window.nanos as int;
    lemma_kept(metrics.local, now, longest, index);
    lemma_kept(metrics.official, now, shortest, index);
}

proof fn lemma_kept(history: Seq<PriceSample>, now: Instant, retention: int, index: int)
    requires
        chronological(history),
        retention >= 0,
    ensures
        ({
            let kept = trimmed(history, now, retention);
            &&& 0 <= index < history.len() && now.nanos - history[index].at.nanos <= retention
                ==> kept.contains(history[index])
            &&& 0 <= index < kept.len() ==> now.nanos - kept[index].at.nanos <= retention
        }),
{
    let kept = trimmed(history, now, retention);
    if 0 <= index < history.len() {
        trimming_keeps_recent_samples(history, now, retention, index);
    }
    lemma_trimmed_length(history, now, retention);
    if 0 <= index < kept.len() {
        let place = index + (history.len() - kept.len());
        trimming_keeps_recent_samples(history, now, retention, place);
    }
}

/// The first difference is the mean itself. After it, where the arithmetic is exact, the
/// mean times the count grows by the size of each difference.
pub proof fn means_weigh_every_difference_alike(
    metrics: MetricsView,
    comparison: Comparison,
    excess: Binary64,
    share: Binary64,
    mean: Binary64,
)
    requires
        comparison.difference_bps is Some,
        comparison.difference_bps->Some_0.finite(),
        metrics.diff_samples < 0x001f_ffff_ffff_ffff,
        metrics.mean.finite(),
        excess.finite(),
        share.finite(),
        mean.finite(),
        excess.units() == comparison.difference_bps->Some_0.size() - metrics.mean.units(),
        excess.units() == (metrics.diff_samples + 1) * share.units(),
        mean.units() == metrics.mean.units() + share.units(),
    ensures
        ({
            let after = metrics.compared(comparison);
            &&& after.diff_samples == metrics.diff_samples + 1
            &&& !after.mean.nan()
            &&& after.diff_samples * after.mean.units() == metrics.diff_samples
                * metrics.mean.units() + comparison.difference_bps->Some_0.size()
        }),
{
    let count = (metrics.diff_samples + 1) as nat;
    let absolute = comparison.difference_bps->Some_0.absolute_spec();
    let moved = absolute.minus_spec(metrics.mean);
    sums_are_exact(absolute, metrics.mean.negated_spec(), excess);
    assert(moved.units() == excess.units());
    whole_quotients_are_exact(moved, count, share);
    let part = moved.over_spec(Binary64::whole_spec(count));
    sums_are_exact(metrics.mean, part, mean);
    let old_mean = metrics.mean.units();
    let added = share.units();
    let size = comparison.difference_bps->Some_0.size() as int;
    assert(count * (old_mean + added) == (count - 1) * old_mean + size) by (nonlinear_arith)
        requires
            size - old_mean == count * added,
    ;
}

/// The selection moves by one, and comes back by the opposite key.
pub proof fn keys_move_the_selection(screen: Screen, selected: nat, count: nat)
    requires
        selected + 1 < count,
    ensures
        after_key(screen, selected, count, Key::Down) == Some((screen, selected + 1)),
        after_key(screen, selected + 1, count, Key::Up) == Some((screen, selected)),
        after_key(screen, selected, count, Key::Other) == Some((screen, selected)),
{
}

/// Before the history spans two minutes, the label shows its whole seconds.
pub proof fn warm_up_shows_the_seconds(metrics: MetricsView, correlation: Seq<char>, seconds: nat)
    requires
        metrics.lead_lag.status == LeadStatus::Insufficient,
        seconds * 1_000_000_000 <= metrics.lead_lag.coverage.nanos < (seconds + 1) * 1_000_000_000,
    ensures
        seconds < 120 ==> metrics.label(correlation) == "warming up ("@ + decimal(seconds)
            + "s/120s)"@,
        seconds >= 120 ==> metrics.label(correlation) == "warming up ("@ + decimal(120)
            + "s/120s)"@,
{
}

/// A lead is shown with its sign: a number behind a plus or a minus.
pub proof fn signs_are_shown(value: nat)
    ensures
        plus_signed(value as int) == seq!['+'] + decimal(value),
        value > 0 ==> plus_signed(-(value as int)) == seq!['-'] + decimal(value),
{
    reveal_strlit("+");
    assert("+"@ =~= seq!['+']);
}

/// After a quote that the book took over, the venue's receipt, the quote, the local price
/// and the difference are all recorded.
pub proof fn taken_quotes_are_recorded(
    metrics: MetricsView,
    venue: Venue,
    at: Instant,
    latency: Option<i64>,
    comparison: Option<Comparison>,
)
    requires
        metrics.source_at.len() == VENUE_COUNT,
        metrics.source_latency.len() == VENUE_COUNT,
        metrics.local_updates < u64::MAX,
        metrics.diff_samples < u64::MAX,
    ensures
        ({
            let after = after_quote(metrics, venue, at, latency, comparison);
            let place = venue.index_spec() as int;
            &&& after.source_at[place] == Some(at)
            &&& latency is Some ==> after.source_latency[place] == latency
            &&& after.local_at == Some(at)
            &&& after.local_updates == metrics.local_updates + 1
            &&& comparison matches Some(value) ==> !value.local.nan() ==> after.local.len() > 0
                && after.local.last().price.units() == value.local.units()
            &&& comparison matches Some(value) ==> value.difference_bps is Some
                ==> after.diff_samples == metrics.diff_samples + 1
            &&& (comparison is None || comparison->Some_0.difference_bps is None)
                ==> after.diff_samples == metrics.diff_samples && after.mean == metrics.mean
                && after.peak == metrics.peak
            &&& comparison is None ==> after.local == metrics.local
            &&& after.official == metrics.official && after.official_at == metrics.official_at
                && after.official_updates == metrics.official_updates
        }),
{
    let price = match comparison {
        Some(value) => Some(value.local),
        None => None,
    };
    quotes_are_recorded(metrics.sourced(venue, at, latency), at, price);
}

/// Nothing is measured at first.
pub proof fn metrics_begin_empty()
    ensures
        ({
            let empty = MetricsView::empty();
            &&& empty.local.len() == 0 && empty.official.len() == 0
            &&& empty.local_at is None && empty.official_at is None
            &&& empty.local_updates == 0 && empty.official_updates == 0 && empty.diff_samples == 0
            &&& empty.mean.units() == 0 && empty.peak.units() == 0
            &&& empty.lead_streak == 0 && empty.last_lead_official is None
            &&& empty.lead_lag.status == LeadStatus::Insufficient
            &&& empty.source_at.len() == VENUE_COUNT && empty.source_latency.len() == VENUE_COUNT
            &&& forall|i: int| 0 <= i < VENUE_COUNT ==> #[trigger] empty.source_at[i] is None
            &&& forall|i: int| 0 <= i < VENUE_COUNT ==> #[trigger] empty.source_latency[i] is None
        }),
{
    crate::float::arithmetic::lemma_size_zero(0);
}

/// A refresh compares every coin at the present moment: a coin has a comparison exactly
/// where some venue's quote is fresh. The book and what is shown stay, and of each history
/// no sample is changed: what remains is its end.
pub proof fn refreshes_compare_every_coin(before: Monitor, now: Instant, after: Monitor, asset: int)
    requires
        before.wf(),
        refreshed(before, now, after),
        0 <= asset < before.book().count(),
    ensures
        after.book() == before.book(),
        after.shows() == before.shows() && after.selection() == before.selection(),
        after.latest()[asset] is Some <==> exists|venue: Venue| #[trigger]
            before.book().fresh(asset, venue, now),
        after.latest()[asset] matches Some(value) ==> before.book().compares(asset, now, value),
        after.metrics()[asset].local.is_suffix_of(before.metrics()[asset].local),
        after.metrics()[asset].official.is_suffix_of(before.metrics()[asset].official),
        after.metrics()[asset].local_updates == before.metrics()[asset].local_updates,
        after.metrics()[asset].official_updates == before.metrics()[asset].official_updates,
        after.metrics()[asset].diff_samples == before.metrics()[asset].diff_samples,
{
    lemma_priced(before.book(), asset, now);
    let metrics = before.metrics()[asset];
    let config = before.config();
    lemma_trimmed_suffix(
        metrics.local,
        now,
        config.window.nanos + config.maximum_lag.nanos,
    );
    lemma_trimmed_suffix(metrics.official, now, config.window.nanos as int);
}

proof fn lemma_priced(book: OracleBook, asset: int, now: Instant)
    requires
        0 <= asset < book.count(),
    ensures
        priced(book, asset, now) <==> exists|venue: Venue| #[trigger] book.fresh(asset, venue, now),
{
    if exists|venue: Venue| #[trigger] book.fresh(asset, venue, now) {
        let venue = choose|venue: Venue| #[trigger] book.fresh(asset, venue, now);
        fresh_quotes_price_a_coin(book, asset, now, venue);
    } else {
        fresh_quotes_price_a_coin(book, asset, now, Venue::Binance);
    }
}

proof fn lemma_trimmed_suffix(history: Seq<PriceSample>, now: Instant, retention: int)
    ensures
        trimmed(history, now, retention).is_suffix_of(history),
    decreases history.len(),
{
    if history.len() > 0 && now.nanos_since(history[0].at) > retention {
        let rest = history.subrange(1, history.len() as int);
        lemma_trimmed_suffix(rest, now, retention);
        let kept = trimmed(history, now, retention);
        let from = rest.len() - kept.len();
        assert(kept =~= history.subrange(from + 1, history.len() as int));
    } else {
        assert(trimmed(history, now, retention) =~= history);
    }
}

/// An update reaches its own coin alone. A quote that the book takes over is counted, and
/// the coin is compared anew; a published price is counted, and waits for logarithms or is
/// compared at once. A refused update is ignored and changes nothing.
pub proof fn updates_reach_their_own_coin(
    before: Monitor,
    update: Update,
    now: Instant,
    step: Step,
    after: Monitor,
    other: int,
)
    requires
        before.wf(),
        stepped(before, update, now, step, after),
        taken(before.book(), update) ==> can_count(
            before.metrics()[updated_asset(update)],
            update,
        ),
        0 <= other < before.book().count(),
    ensures
        step is Ignored <==> !taken(before.book(), update),
        step is Logs ==> update is Official,
        other != updated_asset(update) || step is Ignored ==> after.metrics()[other]
            == before.metrics()[other] && after.latest()[other] == before.latest()[other],
        other == updated_asset(update) && step is Settled ==> (after.latest()[other] is Some <==>
            exists|venue: Venue| #[trigger] after.book().fresh(other, venue, now)) && (
        after.latest()[other] matches Some(value) ==> after.book().compares(other, now, value)),
        update matches Update::Quote(quote) ==> other == quote.asset && !(step is Ignored) ==> {
            let metrics = after.metrics()[other];
            &&& metrics.local_updates == before.metrics()[other].local_updates + 1
            &&& metrics.local_at == Some(quote.received_at)
            &&& metrics.source_at[quote.venue.index_spec() as int] == Some(quote.received_at)
            &&& quote.latency_ms is Some
                ==> metrics.source_latency[quote.venue.index_spec() as int] == quote.latency_ms
            &&& after.latest()[other] matches Some(value) ==> !value.local.nan()
                ==> metrics.local.len() > 0 && metrics.local.last().price.units()
                == value.local.units()
        },
        update matches Update::Official(official) ==> other == official.asset && !(step is Ignored)
            ==> {
            let metrics = after.metrics()[other];
            &&& metrics.official_updates == before.metrics()[other].official_updates + 1
            &&& metrics.official_at == Some(official.received_at)
            &&& metrics.official.len() > 0
            &&& metrics.official.last().price.units() == official.oracle.units()
        },
        after.shows() == before.shows() && after.selection() == before.selection(),
{
    if taken(before.book(), update) {
        let asset = updated_asset(update);
        lemma_priced(after.book(), asset, now);
        assert(before.metrics()[asset] == before.metrics@[asset]@);
        match update {
            Update::Quote(quote) => {
                taken_quotes_are_recorded(
                    before.metrics()[asset],
                    quote.venue,
                    quote.received_at,
                    quote.latency_ms,
                    after.latest()[asset],
                );
            },
            Update::Official(official) => {
                published_prices_are_recorded(
                    before.metrics()[asset],
                    official.received_at,
                    official.oracle,
                );
            },
        }
    }
}

/// Going on with a published price estimates the lead once, compares the coin anew, and
/// touches no other coin.
pub proof fn published_prices_are_settled_once(
    before: Monitor,
    asset: int,
    now: Instant,
    logs: Seq<(Binary64, Binary64)>,
    after: Monitor,
    other: int,
)
    requires
        before.wf(),
        0 <= asset < before.book().count(),
        0 <= other < before.book().count(),
        resumed(before, asset, now, logs, after),
    ensures
        after.book() == before.book(),
        !after.metrics()[asset].lead_due(),
        after.latest()[asset] is Some <==> exists|venue: Venue| #[trigger]
            before.book().fresh(asset, venue, now),
        after.latest()[asset] matches Some(value) ==> before.book().compares(asset, now, value),
        other != asset ==> after.metrics()[other] == before.metrics()[other]
            && after.latest()[other] == before.latest()[other],
        after.metrics()[asset].official_updates == before.metrics()[asset].official_updates,
        after.metrics()[asset].local_updates == before.metrics()[asset].local_updates,
        after.shows() == before.shows() && after.selection() == before.selection(),
{
    lemma_priced(before.book(), asset, now);
    let metrics = before.metrics()[asset];
    estimates_wait_for_new_prices(metrics, now, before.config(), logs, now, before.config(), logs);
}

/// A monitor begins with the table, the first coin selected, and nothing measured; it
/// shows its windows, its metrics and its comparisons as it holds them.
pub proof fn monitors_begin_with_the_table(
    count: usize,
    quote_age: Duration,
    official_age: Duration,
    monitor: Monitor,
    asset: usize,
    metric: AssetMetrics,
    value: Option<Comparison>,
    selected: usize,
    screen: Screen,
)
    requires
        asset < count,
        call_ensures(Monitor::new, (count, quote_age, official_age), monitor),
        call_ensures(Monitor::metric, (&monitor, asset), &metric),
        call_ensures(Monitor::comparison, (&monitor, asset), value),
        call_ensures(Monitor::selected, (&monitor,), selected),
        call_ensures(Monitor::screen, (&monitor,), screen),
    ensures
        monitor.book().count() == count,
        monitor.book().quote_window() == quote_age,
        monitor.book().official_window() == official_age,
        monitor.book().official(asset as int) is None,
        forall|venue: Venue| #[trigger] monitor.book().quote(asset as int, venue) is None,
        metric.local_updates == 0 && metric.official_updates == 0 && metric.diff_samples == 0,
        metric.local_history@.len() == 0 && metric.official_history@.len() == 0,
        metric.local_at is None && metric.official_at is None,
        value is None,
        selected == 0,
        screen == Screen::Table,
{
}

/// The views of metrics show their fields.
pub proof fn metrics_show_their_fields(metrics: AssetMetrics)
    ensures
        metrics@.local_at == metrics.local_at && metrics@.official_at == metrics.official_at,
        metrics@.local_updates == metrics.local_updates,
        metrics@.official_updates == metrics.official_updates,
        metrics@.diff_samples == metrics.diff_samples,
        metrics@.mean == metrics.mean_abs_diff_bps && metrics@.peak == metrics.peak_abs_diff_bps,
        metrics@.local == metrics.local_history@ && metrics@.official
            == metrics.official_history@,
        metrics@.lead_lag == metrics.lead_lag && metrics@.lead_streak == metrics.lead_streak,
        metrics@.last_lead_official == metrics.last_lead_official,
        metrics@.source_at == metrics.source_at@ && metrics@.source_latency
            == metrics.source_latency@,
{
}

/// Closing and interrupting end the monitor whatever is shown; a pressed key does what
/// the key does.
pub proof fn signals_end_the_monitor(screen: Screen, selected: nat, count: nat, key: Key)
    ensures
        after_signal(screen, selected, count, Signal::Interrupted) is None,
        after_signal(screen, selected, count, Signal::Closed) is None,
        after_signal(screen, selected, count, Signal::Pressed(key)) == after_key(
            screen,
            selected,
            count,
            key,
        ),
{
}

} // verus!
