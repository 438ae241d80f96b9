use hl_oracle::float::Binary64;
use hl_oracle::model::{FeedStats, OfficialUpdate, Update};
use hl_oracle::session::{
    endpoint, publish, session_name, settle, Action, Endpoint, Event, FrameKind, Session,
};
use hl_oracle::time::Instant;
use hl_oracle::ws::{target, target_of, Protocol, TargetError, UrlParts};
use hl_oracle::Venue;

fn at(millis: u64) -> Instant {
    Instant { nanos: 1_000_000_000_000 + millis as u128 * 1_000_000 }
}

fn sent(action: Action) -> String {
    match action {
        Action::Send(text) => text,
        other => panic!("{:?}", other),
    }
}

fn pause(action: Action) -> u128 {
    match action {
        Action::Pause(span) => span.as_millis(),
        other => panic!("{:?}", other),
    }
}

fn update() -> Update {
    Update::Official(OfficialUpdate {
        asset: 0,
        oracle: Binary64 { bits: 1.0f64.to_bits() },
        received_at: at(0),
    })
}

#[test]
fn a_session_subscribes_in_order_and_reads() {
    let texts = vec!["one".to_owned(), "two".to_owned()];
    let mut session = Session::new("okx", texts, at(0));
    assert_eq!(sent(session.step(Event::Connected, at(1), 0)), "one");
    assert_eq!(sent(session.step(Event::Sent, at(1), 0)), "two");
    assert!(matches!(session.step(Event::Sent, at(1), 0), Action::Wait));
    assert!(matches!(session.step(Event::Frame(FrameKind::Text), at(2), 0), Action::Deliver));
    assert!(matches!(session.step(Event::Frame(FrameKind::Binary), at(2), 0), Action::Deliver));
    assert!(matches!(session.step(Event::Frame(FrameKind::Other), at(2), 0), Action::Wait));
    assert_eq!(sent(session.step(Event::HeartbeatDue, at(3), 0)), "ping");
    assert!(matches!(session.step(Event::Sent, at(3), 0), Action::Wait));
    assert_eq!(pause(session.step(Event::Frame(FrameKind::Close), at(4), 0)), 500);
    assert!(matches!(session.step(Event::Paused, at(504), 0), Action::Connect));
}

#[test]
fn binance_sends_no_heartbeat() {
    let mut session = Session::new(session_name(Venue::Binance), Vec::new(), at(0));
    assert!(matches!(session.step(Event::Connected, at(1), 0), Action::Wait));
    assert!(matches!(session.step(Event::HeartbeatDue, at(2), 0), Action::Wait));
    let mut session = Session::new(session_name(Venue::Hyperliquid), Vec::new(), at(0));
    session.step(Event::Connected, at(1), 0);
    assert_eq!(sent(session.step(Event::HeartbeatDue, at(2), 0)), r#"{"method":"ping"}"#);
}

#[test]
fn pauses_double_up_to_ten_seconds() {
    let mut session = Session::new("gate", Vec::new(), at(0));
    let mut pauses = Vec::new();
    for _ in 0..8 {
        pauses.push(pause(session.step(Event::ConnectFailed, at(0), 0)));
        assert!(matches!(session.step(Event::Paused, at(0), 0), Action::Connect));
    }
    assert_eq!(pauses, [500, 1_000, 2_000, 4_000, 8_000, 10_000, 10_000, 10_000]);
    // A short session does not reset the backoff, a long one does.
    session.step(Event::Connected, at(0), 0);
    assert_eq!(pause(session.step(Event::ReadFailed, at(30_000), 0)), 10_000);
    session.step(Event::Paused, at(0), 0);
    session.step(Event::Connected, at(1), 0);
    assert_eq!(pause(session.step(Event::ReadFailed, at(30_001), 0)), 500);
}

#[test]
fn failing_writes_end_a_session() {
    let mut session = Session::new("gate", vec!["one".to_owned()], at(0));
    session.step(Event::Connected, at(0), 0);
    assert_eq!(pause(session.step(Event::SendFailed, at(0), 0)), 500);
    session.step(Event::Paused, at(0), 0);
    session.step(Event::Connected, at(0), 0);
    session.step(Event::Sent, at(0), 0);
    assert_eq!(
        sent(session.step(Event::HeartbeatDue, at(0), 12)),
        r#"{"time":12,"channel":"spot.ping"}"#
    );
    assert_eq!(pause(session.step(Event::SendFailed, at(0), 0)), 1_000);
    // What cannot happen changes nothing.
    assert!(matches!(session.step(Event::Connected, at(0), 0), Action::Wait));
    assert!(matches!(session.step(Event::Paused, at(0), 0), Action::Connect));
}

#[test]
fn endpoints() {
    for venue in Venue::ALL {
        match endpoint(venue) {
            Endpoint::Static(url) => assert!(url.starts_with("wss://")),
            Endpoint::Kucoin => assert!(venue == Venue::Kucoin),
        }
    }
    let Endpoint::Static(url) = endpoint(Venue::Hyperliquid) else { panic!("no address") };
    assert_eq!(url, "wss://api.hyperliquid.xyz/ws");
    assert_eq!(session_name(Venue::Mexc), "mexc");
    assert_eq!(session_name(Venue::Hyperliquid), "hyperliquid");
}

#[test]
fn full_and_closed_queues_drop_updates() {
    let (tx, rx) = kanal::bounded_async::<Update>(1);
    let mut stats = FeedStats::default();
    publish(&tx, &mut stats, update());
    assert_eq!(stats.dropped_updates(), 0);
    publish(&tx, &mut stats, update());
    assert_eq!(stats.dropped_updates(), 1);
    assert_eq!(rx.try_recv().unwrap(), Some(update()));
    publish(&tx, &mut stats, update());
    assert_eq!(stats.dropped_updates(), 1);
    drop(rx);
    publish(&tx, &mut stats, update());
    assert_eq!(stats.dropped_updates(), 2);
}

#[test]
fn outcomes_are_settled() {
    let mut stats = FeedStats::default();
    settle(Ok(true), &mut stats);
    assert_eq!(stats.dropped_updates(), 0);
    settle(Ok(false), &mut stats);
    assert_eq!(stats.dropped_updates(), 1);
    settle(Err(kanal::SendError::Closed), &mut stats);
    assert_eq!(stats.dropped_updates(), 2);
}

#[test]
fn targets() {
    let found = target("wss://Stream.Example.com/ws?x=1").unwrap();
    assert_eq!(found.host, "stream.example.com");
    assert_eq!(found.port, 443);
    assert_eq!(found.path, "/ws?x=1");
    assert_eq!(found.address, "wss://stream.example.com/ws?x=1");
    assert_eq!(target("wss://a:9443").unwrap().port, 9443);
    assert_eq!(target("wss://a:9443").unwrap().path, "/");
    assert_eq!(target("no url").unwrap_err(), TargetError::Invalid);
    assert_eq!(target("data:x").unwrap_err(), TargetError::NoHost);
    assert_eq!(target("foo://host/").unwrap_err(), TargetError::NoPort);
    let parts = UrlParts {
        address: "a".to_owned(),
        host: Some("h".to_owned()),
        port: Some(7),
        path: "/".to_owned(),
    };
    assert_eq!(target_of(Some(parts)).unwrap().port, 7);
    assert_eq!(target_of(None).unwrap_err(), TargetError::Invalid);
    assert_eq!(TargetError::Invalid.message(Protocol::Websocket), "invalid websocket URL");
    assert_eq!(TargetError::Invalid.message(Protocol::Https), "invalid HTTPS URL");
    assert_eq!(TargetError::NoHost.message(Protocol::Websocket), "websocket URL has no host");
    assert_eq!(TargetError::NoHost.message(Protocol::Https), "URL has no host");
    assert_eq!(TargetError::NoPort.message(Protocol::Websocket), "URL has no port");
}
