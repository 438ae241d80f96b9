//! A reader's connection to a venue: what it does next after each event, and how it
//! hands updates on.

use vstd::arithmetic::power2::{lemma2_to64, lemma_pow2_strictly_increases, pow2};
use vstd::prelude::*;

use crate::model::{one_more_dropped, FeedStats, Update, Venue};
use crate::sources::{heartbeat_message, heartbeat_spec, venue_url, venue_url_spec};
use crate::text::{decimal, views};
use crate::time::{Duration, Instant, NANOS_PER_MILLI, NANOS_PER_SECOND};

verus! {

/// The time between two heartbeats, in seconds.
pub const HEARTBEAT_SECS: u64 = 15;

/// A session that lasted longer than this, in seconds, starts the backoff anew.
pub const STABLE_SECS: u64 = 30;

/// Where a stream is found.
#[derive(Clone, Copy, Debug)]
pub enum Endpoint {
    /// At a fixed address.
    Static(&'static str),
    /// At an address that KuCoin hands out before each connection.
    Kucoin,
}

/// The fixed address of a venue's stream, none for KuCoin.
pub open spec fn fixed_address(venue: Venue) -> Option<Seq<char>> {
    if venue == Venue::Hyperliquid {
        Some("wss://api.hyperliquid.xyz/ws"@)
    } else {
        venue_url_spec(venue)
    }
}

/// Where a venue's stream is found.
pub fn endpoint(venue: Venue) -> (result: Endpoint)
    ensures
        match result {
            Endpoint::Static(url) => fixed_address(venue) == Some(url@),
            Endpoint::Kucoin => venue == Venue::Kucoin,
        },
{
    if venue == Venue::Hyperliquid {
        return Endpoint::Static("wss://api.hyperliquid.xyz/ws");
    }
    match venue_url(venue) {
        Some(url) => Endpoint::Static(url),
        None => Endpoint::Kucoin,
    }
}

/// The name of a venue's session.
pub open spec fn session_name_spec(venue: Venue) -> Seq<char> {
    if venue == Venue::Hyperliquid {
        "hyperliquid"@
    } else {
        venue.name_spec()
    }
}

/// The name of a venue's session.
pub fn session_name(venue: Venue) -> (name: &'static str)
    ensures
        name@ == session_name_spec(venue),
{
    if venue == Venue::Hyperliquid {
        "hyperliquid"
    } else {
        venue.name()
    }
}

/// Every venue's stream has a fixed address, but for KuCoin's.
pub proof fn only_kucoin_moves(venue: Venue)
    ensures
        fixed_address(venue) is None <==> venue == Venue::Kucoin,
{
}

/// Every venue's session sends heartbeats, but for Binance's.
pub proof fn all_but_binance_are_pinged(venue: Venue, seconds: u64)
    ensures
        heartbeat_spec(session_name_spec(venue), seconds) is None <==> venue == Venue::Binance,
{
    reveal_strlit("binance");
    reveal_strlit("okx");
    reveal_strlit("bybit");
    reveal_strlit("kraken");
    reveal_strlit("kucoin");
    reveal_strlit("gate");
    reveal_strlit("mexc");
    reveal_strlit("hyperliquid");
    if venue == Venue::Binance {
        assert("binance"@.len() == 7);
    }
}

/// The pause after a number of failures in a row: it doubles from 500 ms and is capped
/// at ten seconds.
pub open spec fn delay_millis(failures: u32) -> nat {
    if failures == 0 {
        250
    } else if failures == 1 {
        500
    } else if failures == 2 {
        1_000
    } else if failures == 3 {
        2_000
    } else if failures == 4 {
        4_000
    } else if failures == 5 {
        8_000
    } else {
        10_000
    }
}

/// One failure more, as far as the counter reaches.
pub open spec fn one_more(failures: u32) -> u32 {
    if failures == u32::MAX {
        u32::MAX
    } else {
        (failures + 1) as u32
    }
}

fn delay(failures: u32) -> (result: Duration)
    ensures
        result.nanos == delay_millis(failures) * NANOS_PER_MILLI,
{
    let places: u32 = if failures < 6 { failures } else { 6 };
    let doubled: u64 = 250u64 << places;
    proof {
        assert(250u64 << 0u32 == 250 && 250u64 << 1u32 == 500 && 250u64 << 2u32 == 1_000 && 250u64
            << 3u32 == 2_000 && 250u64 << 4u32 == 4_000 && 250u64 << 5u32 == 8_000 && 250u64
            << 6u32 == 16_000) by (bit_vector);
    }
    Duration::from_millis(if doubled < 10_000 { doubled } else { 10_000 })
}

/// The pause never shrinks as failures add up, and stays between a quarter of a second
/// and ten seconds.
pub proof fn backoff_is_capped(fewer: u32, more: u32)
    requires
        fewer <= more,
    ensures
        250 <= delay_millis(fewer) <= delay_millis(more) <= 10_000,
        more <= 5 && fewer < more ==> delay_millis(more) >= 2 * delay_millis(fewer),
{
}

/// The kinds of frame that a socket reads.
#[derive(Clone, Copy, Debug, PartialEq, Eq, Structural)]
pub enum FrameKind {
    /// A text.
    Text,
    /// Bytes.
    Binary,
    /// The other side closes.
    Close,
    /// Anything else.
    Other,
}

/// Where a session stands.
#[derive(Clone, Copy, Debug, PartialEq, Eq, Structural)]
pub enum Phase {
    /// It is connecting.
    Connecting,
    /// It is sending the subscription with this index.
    Subscribing(usize),
    /// It is reading, and waiting for the next heartbeat.
    Reading,
    /// It is sending a heartbeat.
    Beating,
    /// It is pausing before the next connection.
    Pausing,
}

/// What happens to a session.
#[derive(Clone, Copy, Debug, PartialEq, Eq, Structural)]
pub enum Event {
    /// The connection stands.
    Connected,
    /// No connection came about.
    ConnectFailed,
    /// A text was sent.
    Sent,
    /// A text could not be sent.
    SendFailed,
    /// A heartbeat is due.
    HeartbeatDue,
    /// A frame was read.
    Frame(FrameKind),
    /// Reading failed.
    ReadFailed,
    /// The pause is over.
    Paused,
}

/// What a session does next.
#[derive(Clone, Debug)]
pub enum Action {
    /// Connect.
    Connect,
    /// Send a text.
    Send(String),
    /// Wait for a frame or a heartbeat.
    Wait,
    /// Hand the frame's payload on, and wait.
    Deliver,
    /// Close the connection, if there is one, and pause.
    Pause(Duration),
}

/// What a session does next, by the characters of what it sends.
#[verifier::ext_equal]
pub enum ActionView {
    /// Connect.
    Connect,
    /// Send a text.
    Send(Seq<char>),
    /// Wait for a frame or a heartbeat.
    Wait,
    /// Hand the frame's payload on, and wait.
    Deliver,
    /// Close the connection, if there is one, and pause.
    Pause(Duration),
}

impl View for Action {
    type V = ActionView;

    open spec fn view(&self) -> ActionView {
        match *self {
            Action::Connect => ActionView::Connect,
            Action::Send(text) => ActionView::Send(text@),
            Action::Wait => ActionView::Wait,
            Action::Deliver => ActionView::Deliver,
            Action::Pause(span) => ActionView::Pause(span),
        }
    }
}

/// A venue's session.
#[derive(Clone, Debug)]
pub struct Session {
    name: String,
    subscriptions: Vec<String>,
    failures: u32,
    phase: Phase,
    started: Instant,
}

/// A venue's session, by the characters of its texts.
#[verifier::ext_equal]
pub struct SessionView {
    /// The session's name.
    pub name: Seq<char>,
    /// The texts that subscribe.
    pub subscriptions: Seq<Seq<char>>,
    /// Failures in a row.
    pub failures: u32,
    /// Where the session stands.
    pub phase: Phase,
    /// When the last attempt to connect began.
    pub started: Instant,
}

impl View for Session {
    type V = SessionView;

    closed spec fn view(&self) -> SessionView {
        SessionView {
            name: self.name@,
            subscriptions: views(self.subscriptions@),
            failures: self.failures,
            phase: self.phase,
            started: self.started,
        }
    }
}

impl SessionView {
    /// The index of the subscription that is being sent is one.
    pub open spec fn wf(self) -> bool {
        self.phase matches Phase::Subscribing(index) ==> index < self.subscriptions.len()
            <= usize::MAX
    }

    /// The pause after the session ended: a session that had connected and lasted
    /// forgets its failures, and one failure is counted.
    pub open spec fn ended(self, connected: bool, now: Instant) -> (SessionView, ActionView) {
        let lasted = connected && now.nanos_since(self.started) > STABLE_SECS * NANOS_PER_SECOND;
        let failures = one_more(
            if lasted {
                0
            } else {
                self.failures
            },
        );
        (
            SessionView { failures, phase: Phase::Pausing, ..self },
            ActionView::Pause(
                Duration { nanos: (delay_millis(failures) * NANOS_PER_MILLI) as u128 },
            ),
        )
    }

    /// Sending the subscription with this index, or reading where there is none.
    pub open spec fn subscribing(self, index: nat) -> (SessionView, ActionView) {
        if index < self.subscriptions.len() {
            (
                SessionView { phase: Phase::Subscribing(index as usize), ..self },
                ActionView::Send(self.subscriptions[index as int]),
            )
        } else {
            (SessionView { phase: Phase::Reading, ..self }, ActionView::Wait)
        }
    }

    /// What a session does after an event. An event that cannot happen where it
    /// stands changes nothing.
    pub open spec fn after(self, event: Event, now: Instant, seconds: u64) -> (
        SessionView,
        ActionView,
    ) {
        match (self.phase, event) {
            (Phase::Connecting, Event::Connected) => self.subscribing(0),
            (Phase::Connecting, Event::ConnectFailed) => self.ended(false, now),
            (Phase::Subscribing(index), Event::Sent) => self.subscribing((index + 1) as nat),
            (Phase::Subscribing(_), Event::SendFailed) => self.ended(true, now),
            (Phase::Reading, Event::HeartbeatDue) => match heartbeat_spec(self.name, seconds) {
                Some(text) => (
                    SessionView { phase: Phase::Beating, ..self },
                    ActionView::Send(text),
                ),
                None => (self, ActionView::Wait),
            },
            (Phase::Reading, Event::Frame(kind)) => match kind {
                FrameKind::Text | FrameKind::Binary => (self, ActionView::Deliver),
                FrameKind::Close => self.ended(true, now),
                FrameKind::Other => (self, ActionView::Wait),
            },
            (Phase::Reading, Event::ReadFailed) => self.ended(true, now),
            (Phase::Beating, Event::Sent) => (
                SessionView { phase: Phase::Reading, ..self },
                ActionView::Wait,
            ),
            (Phase::Beating, Event::SendFailed) => self.ended(true, now),
            (Phase::Pausing, Event::Paused) => (
                SessionView { phase: Phase::Connecting, started: now, ..self },
                ActionView::Connect,
            ),
            _ => (self, ActionView::Wait),
        }
    }
}

impl Session {
    /// A session that begins to connect.
    pub fn new(name: &str, subscriptions: Vec<String>, now: Instant) -> (session: Session)
        ensures
            session@ == (SessionView {
                name: name@,
                subscriptions: views(subscriptions@),
                failures: 0,
                phase: Phase::Connecting,
                started: now,
            }),
            session@.wf(),
    {
        Session {
            name: name.to_owned(),
            subscriptions,
            failures: 0,
            phase: Phase::Connecting,
            started: now,
        }
    }

    fn end(&mut self, connected: bool, now: Instant) -> (action: Action)
        ensures
            (final(self)@, action@) == old(self)@.ended(connected, now),
    {
        let stable: u128 = Duration::from_secs(STABLE_SECS).nanos;
        if connected && now.saturating_duration_since(self.started).nanos > stable {
            self.failures = 0;
        }
        self.failures = self.failures.saturating_add(1);
        self.phase = Phase::Pausing;
        Action::Pause(delay(self.failures))
    }

    fn subscribe(&mut self, index: usize) -> (action: Action)
        ensures
            (final(self)@, action@) == old(self)@.subscribing(index as nat),
            final(self)@.wf(),
    {
        if index < self.subscriptions.len() {
            self.phase = Phase::Subscribing(index);
            Action::Send(self.subscriptions[index].clone())
        } else {
            self.phase = Phase::Reading;
            Action::Wait
        }
    }

    fn beat(&mut self, seconds: u64) -> (action: Action)
        requires
            old(self)@.phase == Phase::Reading,
        ensures
            (final(self)@, action@) == match heartbeat_spec(old(self)@.name, seconds) {
                Some(text) => (
                    SessionView { phase: Phase::Beating, ..old(self)@ },
                    ActionView::Send(text),
                ),
                None => (old(self)@, ActionView::Wait),
            },
    {
        match heartbeat_message(self.name.as_str(), seconds) {
            Some(text) => {
                self.phase = Phase::Beating;
                Action::Send(text)
            },
            None => Action::Wait,
        }
    }

    /// Takes note of an event, and says what to do next. `seconds` is the Unix time.
    pub fn step(&mut self, event: Event, now: Instant, seconds: u64) -> (action: Action)
        requires
            old(self)@.wf(),
        ensures
            (final(self)@, action@) == old(self)@.after(event, now, seconds),
            final(self)@.wf(),
    {
        proof {
            assert(views(self.subscriptions@).len() == self.subscriptions@.len());
        }
        match (self.phase, event) {
            (Phase::Connecting, Event::Connected) => self.subscribe(0),
            (Phase::Connecting, Event::ConnectFailed) => self.end(false, now),
            (Phase::Subscribing(index), Event::Sent) => self.subscribe(index + 1),
            (Phase::Subscribing(_), Event::SendFailed) => self.end(true, now),
            (Phase::Reading, Event::HeartbeatDue) => self.beat(seconds),
            (Phase::Reading, Event::Frame(kind)) => match kind {
                FrameKind::Text | FrameKind::Binary => Action::Deliver,
                FrameKind::Close => self.end(true, now),
                FrameKind::Other => Action::Wait,
            },
            (Phase::Reading, Event::ReadFailed) => self.end(true, now),
            (Phase::Beating, Event::Sent) => {
                self.phase = Phase::Reading;
                Action::Wait
            },
            (Phase::Beating, Event::SendFailed) => self.end(true, now),
            (Phase::Pausing, Event::Paused) => {
                self.phase = Phase::Connecting;
                self.started = now;
                Action::Connect
            },
            _ => Action::Wait,
        }
    }
}

/// The session and its action after connecting and then sending `count` texts.
pub open spec fn after_sending(
    session: SessionView,
    times: Seq<(Instant, u64)>,
    count: nat,
) -> (SessionView, ActionView)
    decreases count,
{
    let (now, seconds) = times[count as int];
    if count == 0 {
        session.after(Event::Connected, now, seconds)
    } else {
        after_sending(session, times, (count - 1) as nat).0.after(Event::Sent, now, seconds)
    }
}

/// A connected session sends its subscriptions in order, each once, and then reads.
pub proof fn subscriptions_are_sent_in_order(
    session: SessionView,
    times: Seq<(Instant, u64)>,
    count: nat,
)
    requires
        session.phase == Phase::Connecting,
        session.subscriptions.len() <= usize::MAX,
        count <= session.subscriptions.len(),
    ensures
        after_sending(session, times, count) == session.subscribing(count),
    decreases count,
{
    if count > 0 {
        subscriptions_are_sent_in_order(session, times, (count - 1) as nat);
    }
}

/// Whatever ends a session, a pause of at most ten seconds follows, and then a new
/// connection.
pub proof fn sessions_start_again(
    session: SessionView,
    event: Event,
    now: Instant,
    seconds: u64,
    later: Instant,
    later_seconds: u64,
)
    ensures
        ({
            let (next, action) = session.after(event, now, seconds);
            action matches ActionView::Pause(span) ==> {
                &&& 500_000_000 <= span.nanos <= 10_000_000_000
                &&& next.phase == Phase::Pausing
                &&& next.subscriptions == session.subscriptions
                &&& next.after(Event::Paused, later, later_seconds).1 == ActionView::Connect
                &&& next.after(Event::Paused, later, later_seconds).0.phase == Phase::Connecting
            }
        }),
        event == Event::ReadFailed || event == Event::Frame(FrameKind::Close) ==> session.phase
            == Phase::Reading ==> session.after(event, now, seconds).1 is Pause,
{
}

/// A connection that lasted more than thirty seconds is followed by the shortest pause,
/// whatever failed before.
pub proof fn long_sessions_reset_the_backoff(session: SessionView, now: Instant)
    requires
        now.nanos_since(session.started) > 30_000_000_000,
    ensures
        session.ended(true, now).1 == ActionView::Pause(Duration { nanos: 500_000_000 }),
        session.ended(true, now).0.failures == 1,
{
}

/// The sending half of a `kanal` channel.
#[verifier::external_type_specification]
#[verifier::external_body]
#[verifier::reject_recursive_types(T)]
pub struct ExAsyncSender<T>(kanal::AsyncSender<T>);

/// Why a `kanal` channel took no value.
#[verifier::external_type_specification]
#[verifier::external_body]
pub struct ExSendError(kanal::SendError);

/// `kanal::AsyncSender::try_send` offers a value to the channel without waiting. What it
/// returns depends on the other threads that use the channel, and nothing is claimed
/// of it.
pub assume_specification<T>[ kanal::AsyncSender::<T>::try_send ](
    sender: &kanal::AsyncSender<T>,
    data: T,
) -> (result: Result<bool, kanal::SendError>)
;

/// The count of dropped updates after an offer to the queue: an update that did not
/// enter it, because it is full or closed, counts as dropped.
pub open spec fn count_after(dropped: u64, outcome: Result<bool, kanal::SendError>) -> u64 {
    if outcome == Ok::<bool, kanal::SendError>(true) {
        dropped
    } else {
        one_more_dropped(dropped)
    }
}

/// Counts the update as dropped unless the queue took it.
pub fn settle(outcome: Result<bool, kanal::SendError>, stats: &mut FeedStats)
    ensures
        final(stats).dropped() == count_after(old(stats).dropped(), outcome),
{
    match outcome {
        Ok(true) => {},
        _ => {
            stats.record_drop();
        },
    }
}

/// Offers an update to the queue without waiting, and counts it as dropped unless the
/// queue took it.
pub fn publish(tx: &kanal::AsyncSender<Update>, stats: &mut FeedStats, update: Update)
    ensures
        exists|outcome: Result<bool, kanal::SendError>|
            #[trigger] call_ensures(
                kanal::AsyncSender::<Update>::try_send,
                (tx, update),
                outcome,
            ) && final(stats).dropped() == count_after(old(stats).dropped(), outcome),
{
    let outcome: Result<bool, kanal::SendError> = tx.try_send(update);
    settle(outcome, stats);
}

/// The pause after failures is a quarter of a second doubled as often as there were, and
/// ten seconds at most.
pub proof fn pauses_double(failures: u32)
    ensures
        delay_millis(failures) == if 250 * pow2(failures as nat) < 10_000 {
            250 * pow2(failures as nat)
        } else {
            10_000
        },
{
    lemma2_to64();
    if failures > 6 {
        lemma_pow2_strictly_increases(6, failures as nat);
    }
}

/// A connected session sends each of its subscriptions once, in order, and reads when all
/// are sent.
pub proof fn every_subscription_is_sent_once(
    session: SessionView,
    times: Seq<(Instant, u64)>,
    count: nat,
)
    requires
        session.phase == Phase::Connecting,
        session.subscriptions.len() <= usize::MAX,
        count <= session.subscriptions.len(),
    ensures
        ({
            let (next, action) = after_sending(session, times, count);
            &&& count < session.subscriptions.len() ==> action == ActionView::Send(
                session.subscriptions[count as int],
            ) && next.phase == Phase::Subscribing(count as usize)
            &&& count == session.subscriptions.len() ==> action == ActionView::Wait && next.phase
                == Phase::Reading
            &&& next.name == session.name && next.subscriptions == session.subscriptions
            &&& next.failures == session.failures && next.started == session.started
        }),
{
    subscriptions_are_sent_in_order(session, times, count);
}

/// A reading session hands on every text and every binary frame, and no other; it goes on
/// reading.
pub proof fn frames_are_handed_on(session: SessionView, kind: FrameKind, now: Instant, seconds: u64)
    requires
        session.phase == Phase::Reading,
    ensures
        ({
            let (next, action) = session.after(Event::Frame(kind), now, seconds);
            &&& action is Deliver <==> kind == FrameKind::Text || kind == FrameKind::Binary
            &&& action is Pause <==> kind == FrameKind::Close
            &&& kind != FrameKind::Close ==> next == session
            &&& kind == FrameKind::Other ==> action is Wait
        }),
{
}

/// Every failure to connect, to send or to read ends the session with one failure more,
/// unless the connection had stood for over thirty seconds: then it is the first. The
/// pause is that of the failures counted.
pub proof fn failures_are_counted(
    session: SessionView,
    event: Event,
    now: Instant,
    seconds: u64,
)
    requires
        ({
            ||| session.phase == Phase::Connecting && event == Event::ConnectFailed
            ||| session.phase is Subscribing && event == Event::SendFailed
            ||| session.phase == Phase::Beating && event == Event::SendFailed
            ||| session.phase == Phase::Reading && event == Event::ReadFailed
            ||| session.phase == Phase::Reading && event == Event::Frame(FrameKind::Close)
        }),
    ensures
        ({
            let (next, action) = session.after(event, now, seconds);
            let stood = session.phase != Phase::Connecting && now.nanos - session.started.nanos
                > 30_000_000_000;
            &&& next.phase == Phase::Pausing
            &&& stood ==> next.failures == 1
            &&& !stood && session.failures < u32::MAX ==> next.failures == session.failures + 1
            &&& !stood && session.failures == u32::MAX ==> next.failures == u32::MAX
            &&& action matches ActionView::Pause(span) && span.nanos == delay_millis(next.failures)
                * 1_000_000
            &&& next.name == session.name && next.subscriptions == session.subscriptions
                && next.started == session.started
        }),
{
}

/// After the pause a session connects anew, and only then its age is counted anew.
pub proof fn connections_begin_after_the_pause(
    session: SessionView,
    event: Event,
    now: Instant,
    seconds: u64,
)
    ensures
        ({
            let (next, action) = session.after(event, now, seconds);
            &&& session.phase == Phase::Pausing && event == Event::Paused ==> action is Connect
                && next.phase == Phase::Connecting && next.started == now && next.failures
                == session.failures
            &&& action is Connect ==> session.phase == Phase::Pausing && event == Event::Paused
            &&& next.started != session.started ==> action is Connect
            &&& next.failures != session.failures ==> action is Pause
            &&& next.name == session.name && next.subscriptions == session.subscriptions
        }),
{
}

/// A heartbeat that is due is sent while reading, where the venue takes one, and reading
/// goes on once it is sent.
pub proof fn heartbeats_are_sent_while_reading(
    session: SessionView,
    venue: Venue,
    now: Instant,
    seconds: u64,
    later: Instant,
    later_seconds: u64,
)
    requires
        session.phase == Phase::Reading,
        session.name == session_name_spec(venue),
    ensures
        ({
            let (next, action) = session.after(Event::HeartbeatDue, now, seconds);
            let (last, rest) = next.after(Event::Sent, later, later_seconds);
            &&& venue == Venue::Binance ==> action is Wait && next == session
            &&& venue != Venue::Binance ==> action is Send && last == session && rest is Wait
            &&& venue == Venue::Okx ==> action == ActionView::Send("ping"@)
            &&& venue == Venue::Bybit ==> action == ActionView::Send("{\"op\":\"ping\"}"@)
            &&& venue == Venue::Kraken || venue == Venue::Hyperliquid ==> action
                == ActionView::Send("{\"method\":\"ping\"}"@)
            &&& venue == Venue::Kucoin ==> action == ActionView::Send(
                "{\"id\":\"oracle-ping\",\"type\":\"ping\"}"@,
            )
            &&& venue == Venue::Gate ==> action == ActionView::Send(
                "{\"time\":"@ + decimal(seconds as nat) + ",\"channel\":\"spot.ping\"}"@,
            )
            &&& venue == Venue::Mexc ==> action == ActionView::Send("{\"method\":\"PING\"}"@)
        }),
{
    all_but_binance_are_pinged(venue, seconds);
    reveal_strlit("okx");
    reveal_strlit("bybit");
    reveal_strlit("kraken");
    reveal_strlit("kucoin");
    reveal_strlit("gate");
    reveal_strlit("mexc");
    reveal_strlit("hyperliquid");
    assert("okx"@.len() == 3);
    assert("bybit"@.len() == 5 && "bybit"@[0] == 'b');
    assert("kraken"@.len() == 6 && "kraken"@[1] == 'r');
    assert("kucoin"@.len() == 6 && "kucoin"@[1] == 'u');
    assert("gate"@.len() == 4 && "gate"@[0] == 'g');
    assert("mexc"@.len() == 4 && "mexc"@[0] == 'm');
    assert("hyperliquid"@.len() == 11);
}

/// A dropped update is one that the queue did not take, for whatever reason.
pub proof fn only_taken_updates_are_not_dropped(
    dropped: u64,
    outcome: Result<bool, kanal::SendError>,
)
    ensures
        outcome matches Ok(taken) && taken ==> count_after(dropped, outcome) == dropped,
        !(outcome matches Ok(taken) && taken) ==> count_after(dropped, outcome) == (dropped + 1)
            % 0x1_0000_0000_0000_0000,
{
}

/// A session begins with its name, its subscriptions in order and no failure, already
/// connecting.
pub proof fn sessions_begin_unconnected(
    name: &str,
    subscriptions: Vec<String>,
    now: Instant,
    session: Session,
)
    requires
        call_ensures(Session::new, (name, subscriptions, now), session),
    ensures
        session@.name == name@,
        session@.failures == 0,
        session@.phase is Connecting,
        session@.started == now,
        session@.subscriptions.len() == subscriptions@.len(),
        forall|i: int|
            0 <= i < subscriptions@.len() ==> #[trigger] session@.subscriptions[i]
                == subscriptions@[i]@,
{
}

/// The views of actions show what is to be done.
pub proof fn actions_show_what_is_to_be_done(action: Action)
    ensures
        action is Connect ==> action@ is Connect,
        action is Wait ==> action@ is Wait,
        action is Deliver ==> action@ is Deliver,
        action matches Action::Send(text) ==> action@ == ActionView::Send(text@),
        action matches Action::Pause(span) ==> action@ == ActionView::Pause(span),
{
}

/// Each venue's stream is found at its own address, KuCoin's at one that it hands out; a
/// session bears its venue's name, Hyperliquid's that of the exchange.
pub proof fn streams_are_found_at_their_venue(venue: Venue, found: Endpoint, name: &'static str)
    requires
        call_ensures(endpoint, (venue,), found),
        call_ensures(session_name, (venue,), name),
    ensures
        found is Kucoin <==> venue == Venue::Kucoin,
        found matches Endpoint::Static(url) ==> {
            &&& venue == Venue::Binance ==> url@ == "wss://stream.binance.com:9443/ws"@
            &&& venue == Venue::Okx ==> url@ == "wss://ws.okx.com:8443/ws/v5/public"@
            &&& venue == Venue::Bybit ==> url@ == "wss://stream.bybit.com/v5/public/spot"@
            &&& venue == Venue::Kraken ==> url@ == "wss://ws.kraken.com/v2"@
            &&& venue == Venue::Gate ==> url@ == "wss://api.gateio.ws/ws/v4/"@
            &&& venue == Venue::Mexc ==> url@ == "wss://wbs-api.mexc.com/ws"@
            &&& venue == Venue::Hyperliquid ==> url@ == "wss://api.hyperliquid.xyz/ws"@
        },
        venue == Venue::Hyperliquid ==> name@ == "hyperliquid"@,
        venue != Venue::Hyperliquid ==> name@ == venue.name_spec(),
{
}

} // verus!
