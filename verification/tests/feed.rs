use hl_oracle::config::ConfigError;
use hl_oracle::feed::FeedError;
use hl_oracle::float::Binary64;
use hl_oracle::model::{FeedStats, OfficialUpdate, QuoteUpdate, Update};
use hl_oracle::output::{active_sources, json_line};
use hl_oracle::time::{Duration, Instant};
use hl_oracle::{OracleBuilder, OracleFeed, Venue};

fn number(value: f64) -> Binary64 {
    Binary64 { bits: value.to_bits() }
}

fn plain(value: Binary64) -> f64 {
    f64::from_bits(value.bits)
}

fn at(millis: u64) -> Instant {
    Instant { nanos: 1_000_000_000_000 + millis as u128 * 1_000_000 }
}

fn coins(list: &[&str]) -> Vec<String> {
    list.iter().map(|coin| coin.to_string()).collect()
}

fn quote(venue: Venue, asset: u16, bid: f64, ask: f64, millis: u64) -> Update {
    Update::Quote(QuoteUpdate {
        venue,
        asset,
        bid: number(bid),
        ask: number(ask),
        received_at: at(millis),
        latency_ms: None,
    })
}

fn official(asset: u16, oracle: f64, millis: u64) -> Update {
    Update::Official(OfficialUpdate { asset, oracle: number(oracle), received_at: at(millis) })
}

fn feed() -> OracleFeed {
    OracleBuilder::new(coins(&["btc", "eth"])).spawn().unwrap_or_else(|_| panic!("refused"))
}

#[test]
fn defaults_and_settings() {
    let builder = OracleBuilder::new(coins(&["HYPE", "purr"]));
    assert_eq!(builder.capacity(), 8_192);
    let builder = builder
        .hl_spot("PURR", "PURR/USDC")
        .hl_spot_mapping("hype=alt/usdc".to_owned())
        .include_external_for("hype".to_owned())
        .max_quote_age(Duration::from_millis(5))
        .max_official_age(Duration::from_millis(7))
        .queue_capacity(3);
    assert_eq!(builder.capacity(), 3);
    let mut feed = builder.spawn().unwrap_or_else(|_| panic!("refused"));
    assert_eq!(feed.assets()[0].hyperliquid_spot.as_deref(), Some("ALT/USDC"));
    assert!(feed.assets()[0].include_external);
    assert_eq!(feed.assets()[1].hyperliquid_spot.as_deref(), Some("PURR/USDC"));
    assert!(!feed.assets()[1].include_external);
    assert!(feed.recv(quote(Venue::Gate, 0, 1.0, 3.0, 0), at(5)).is_some());
    assert!(feed.latest(0, at(6)).is_none());
}

#[test]
fn refusals() {
    let empty = OracleBuilder::new(coins(&["BTC"])).queue_capacity(0).spawn();
    let Err(FeedError::EmptyQueue) = empty else { panic!("accepted") };
    assert_eq!(
        FeedError::EmptyQueue.message(),
        "queue_capacity must be greater than zero"
    );
    let twice = OracleBuilder::new(coins(&["BTC", "btc"])).spawn();
    let Err(FeedError::Config(error)) = twice else { panic!("accepted") };
    assert_eq!(error, ConfigError::DuplicateCoin("BTC".to_owned()));
    assert_eq!(FeedError::Config(error).message(), "duplicate coin \"BTC\"");
}

#[test]
fn only_changes_are_returned() {
    let mut feed = feed();
    let first = feed.recv(quote(Venue::Binance, 1, 99.0, 101.0, 0), at(1)).unwrap();
    assert_eq!(first.asset, 1);
    assert_eq!(plain(first.comparison.local), 100.0);
    assert!(feed.recv(quote(Venue::Binance, 1, 99.0, 101.0, 2), at(3)).is_none());
    // A different book with the same mid changes nothing.
    assert!(feed.recv(quote(Venue::Binance, 1, 98.0, 102.0, 4), at(5)).is_none());
    // Another fresh source does, although the median stays.
    let second = feed.recv(quote(Venue::Okx, 1, 100.0, 102.0, 6), at(7)).unwrap();
    assert_eq!(plain(second.comparison.local), 100.0);
    assert_eq!(second.comparison.sources, 2);
    let third = feed.recv(official(1, 100.5, 8), at(9)).unwrap();
    assert_eq!(third.comparison.official.map(plain), Some(100.5));
    assert!(feed.recv(official(1, 100.5, 10), at(11)).is_none());
    assert!(feed.recv(quote(Venue::Okx, 1, 102.0, 100.0, 12), at(13)).is_none());
    assert!(feed.recv(quote(Venue::Okx, 2, 1.0, 1.0, 12), at(13)).is_none());
    assert!(feed.recv(official(0, 5.0, 14), at(15)).is_none());
}

#[test]
fn latest_reads_on_demand() {
    let mut feed = feed();
    assert!(feed.latest(0, at(0)).is_none());
    feed.recv(quote(Venue::Mexc, 0, 5.0, 5.0, 0), at(0));
    assert_eq!(feed.latest(0, at(1_500)).map(|value| plain(value.local)), Some(5.0));
    assert!(feed.latest(0, at(1_501)).is_none());
    assert!(feed.latest(2, at(0)).is_none());
    assert_eq!(feed.coin(0), Some("BTC"));
    assert_eq!(feed.coin(1), Some("ETH"));
    assert_eq!(feed.coin(2), None);
    let mut stats = FeedStats::default();
    stats.record_drop();
    assert_eq!(feed.dropped_updates(&stats), 1);
}

#[test]
fn lines_of_output() {
    let mut feed = feed();
    feed.recv(quote(Venue::Binance, 0, 99_999.0, 100_001.0, 0), at(0));
    let alone = feed.latest(0, at(0)).unwrap();
    assert_eq!(
        json_line(&feed.assets()[0], &alone, 4, "100000.0000000000", "unused", "unused"),
        r#"{"coin":"BTC","local_oracle":100000.0000000000,"hyperliquid_oracle":null,"difference_bps":null,"sources":1,"weight":3,"expected_sources":7,"expected_weight":11,"active_sources":["binance"],"dropped_updates":4}"#
    );
    feed.recv(official(0, 99_998.0, 0), at(0));
    feed.recv(quote(Venue::Kraken, 0, 99_999.0, 100_001.0, 0), at(0));
    let both = feed.latest(0, at(0)).unwrap();
    assert_eq!(active_sources(&both.active_venues), r#""binance","kraken""#);
    assert_eq!(
        json_line(&feed.assets()[0], &both, 0, "100000.0000000000", "99998.0000000000", "0.200004"),
        r#"{"coin":"BTC","local_oracle":100000.0000000000,"hyperliquid_oracle":99998.0000000000,"difference_bps":0.200004,"sources":2,"weight":4,"expected_sources":7,"expected_weight":11,"active_sources":["binance","kraken"],"dropped_updates":0}"#
    );
}

#[test]
fn a_run_hands_out_changes_only() {
    let mut feed = feed();
    let mut last = vec![None; 2];
    let mut state = 7u64;
    let mut handed_out = 0;
    for step in 0..2_000 {
        state = state.wrapping_mul(6_364_136_223_846_793_005).wrapping_add(1);
        let asset = (state >> 33) as u16 % 3;
        let price = 100.0 + ((state >> 40) % 3) as f64;
        let now = at(step * 50);
        let refused = asset == 2 || (state >> 50) % 5 == 0;
        let update = if (state >> 55) % 4 == 0 {
            official(asset, if refused { -price } else { price }, step * 50)
        } else {
            let ask = if refused { price - 1.0 } else { price };
            quote(Venue::ALL[(state >> 58) as usize % 8], asset, price, ask, step * 50)
        };
        let result = feed.recv(update, now);
        if refused {
            assert!(result.is_none());
            continue;
        }
        let place = asset as usize;
        let current = feed.latest(place, now);
        match result {
            Some(change) => {
                handed_out += 1;
                assert_eq!(change.asset, place);
                assert!(current == Some(change.comparison));
                assert!(last[place] != Some(change.comparison));
                last[place] = Some(change.comparison);
            }
            None => assert!(current.is_none() || current == last[place]),
        }
    }
    assert!(handed_out > 100);
}
