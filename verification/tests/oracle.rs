use hl_oracle::float::Binary64;
use hl_oracle::model::{FeedStats, OfficialUpdate, QuoteUpdate};
use hl_oracle::oracle::{valid_bbo, weighted_median, OracleBook};
use hl_oracle::time::{Duration, Instant};
use hl_oracle::Venue;

fn number(value: f64) -> Binary64 {
    Binary64 { bits: value.to_bits() }
}

fn plain(value: Binary64) -> f64 {
    f64::from_bits(value.bits)
}

fn second(seconds: u64) -> Instant {
    Instant { nanos: 1_000_000_000 * (1_000_000 + seconds as u128) }
}

fn quote(venue: Venue, bid: f64, ask: f64, received_at: Instant) -> QuoteUpdate {
    QuoteUpdate {
        venue,
        asset: 0,
        bid: number(bid),
        ask: number(ask),
        received_at,
        latency_ms: None,
    }
}

#[test]
fn weighted_median_uses_documented_weighting() {
    let mut values = [
        (number(100.0), 3),
        (number(101.0), 2),
        (number(102.0), 2),
        (number(200.0), 1),
    ];
    assert_eq!(weighted_median(&mut values).map(plain), Some(101.0));
}

#[test]
fn stale_quotes_are_excluded() {
    let now = second(10);
    let mut book = OracleBook::new(1, Duration::from_millis(10), Duration::from_secs(1));
    assert!(book.apply_quote(quote(Venue::Binance, 99.0, 101.0, second(9))));
    assert!(book.apply_quote(quote(Venue::Okx, 109.0, 111.0, now)));
    assert_eq!(plain(book.comparison(0, now).unwrap().local), 110.0);
}

#[test]
fn crossed_quotes_are_rejected() {
    let mut book = OracleBook::new(1, Duration::from_secs(1), Duration::from_secs(1));
    assert!(!book.apply_quote(quote(Venue::Binance, 101.0, 100.0, second(0))));
}

#[test]
fn official_price_has_its_own_freshness_window() {
    let now = second(10);
    let mut book = OracleBook::new(1, Duration::from_millis(10), Duration::from_secs(6));
    assert!(book.apply_quote(quote(Venue::Binance, 99.0, 101.0, now)));
    assert!(book.apply_official(OfficialUpdate {
        asset: 0,
        oracle: number(100.0),
        received_at: second(7),
    }));
    assert_eq!(book.comparison(0, now).unwrap().official.map(plain), Some(100.0));
}

#[test]
fn median_ignores_order_and_stays_within() {
    let prices = [(104.0, 1u8), (100.0, 3), (103.0, 2), (101.0, 2), (99.0, 1)];
    let mut forward: Vec<(Binary64, u8)> =
        prices.iter().map(|(price, weight)| (number(*price), *weight)).collect();
    let mut backward: Vec<(Binary64, u8)> = forward.iter().rev().copied().collect();
    let first = weighted_median(&mut forward).map(plain);
    assert_eq!(first, Some(101.0));
    assert_eq!(weighted_median(&mut backward).map(plain), first);
    assert_eq!(weighted_median(&mut []), None);
}

#[test]
fn comparison_counts_fresh_sources() {
    let now = second(10);
    let mut book = OracleBook::new(2, Duration::from_secs(1), Duration::from_secs(6));
    assert!(book.comparison(0, now).is_none());
    assert!(book.comparison(2, now).is_none());
    assert!(book.apply_quote(quote(Venue::Binance, 99.0, 101.0, now)));
    assert!(book.apply_quote(quote(Venue::Kraken, 100.0, 104.0, second(9))));
    assert!(book.apply_quote(quote(Venue::Mexc, 1.0, 1.0, second(8))));
    assert!(book.apply_official(OfficialUpdate {
        asset: 0,
        oracle: number(99.9),
        received_at: second(4),
    }));
    let value = book.comparison(0, now).unwrap();
    assert_eq!(plain(value.local), 100.0);
    assert_eq!(value.sources, 2);
    assert_eq!(value.total_weight, 4);
    assert_eq!(
        value.active_venues,
        [true, false, false, true, false, false, false, false]
    );
    assert_eq!(
        value.difference_bps.map(plain),
        Some(10_000.0 * (100.0 / 99.9 - 1.0))
    );
    let later = Instant { nanos: now.nanos + 1 };
    let value = book.comparison(0, later).unwrap();
    assert_eq!(value.official, None);
    assert_eq!(value.difference_bps, None);
    assert_eq!(value.sources, 1);
    assert!(book.comparison(1, now).is_none());
}

#[test]
fn invalid_updates_leave_the_book_alone() {
    let now = second(1);
    let mut book = OracleBook::new(1, Duration::from_secs(1), Duration::from_secs(6));
    assert!(!book.apply_quote(quote(Venue::Okx, 0.0, 1.0, now)));
    assert!(!book.apply_quote(quote(Venue::Okx, -1.0, 1.0, now)));
    assert!(!book.apply_quote(quote(Venue::Okx, 1.0, f64::INFINITY, now)));
    assert!(!book.apply_quote(quote(Venue::Okx, f64::NAN, 1.0, now)));
    let mut unknown = quote(Venue::Okx, 1.0, 1.0, now);
    unknown.asset = 1;
    assert!(!book.apply_quote(unknown));
    let invalid = OfficialUpdate { asset: 0, oracle: number(0.0), received_at: now };
    assert!(!book.apply_official(invalid));
    assert!(!book.apply_official(OfficialUpdate { asset: 1, oracle: number(1.0), ..invalid }));
    assert!(book.comparison(0, now).is_none());
}

#[test]
fn mids_lie_between_bid_and_ask() {
    let now = second(1);
    for (bid, ask) in [(1.0, 1.0), (0.1, 0.30000000000000004), (5e-324, 1e-323), (f64::MAX, f64::MAX)]
    {
        assert!(valid_bbo(number(bid), number(ask)));
        let mut book = OracleBook::new(1, Duration::from_secs(1), Duration::from_secs(1));
        assert!(book.apply_quote(quote(Venue::Gate, bid, ask, now)));
        let middle = plain(book.comparison(0, now).unwrap().local);
        assert_eq!(middle, f64::midpoint(bid, ask));
        assert!(bid <= middle && middle <= ask);
    }
}

#[test]
fn equal_prices_have_no_difference() {
    let now = second(1);
    let mut book = OracleBook::new(1, Duration::from_secs(1), Duration::from_secs(1));
    assert!(book.apply_quote(quote(Venue::Gate, 0.3, 0.3, now)));
    assert!(book.apply_official(OfficialUpdate { asset: 0, oracle: number(0.3), received_at: now }));
    let value = book.comparison(0, now).unwrap();
    assert_eq!(value.difference_bps.map(plain), Some(0.0));
    assert!(value.is_same(&value));
    let mut other = value;
    other.difference_bps = Some(number(-0.0));
    assert!(value == other);
    other.difference_bps = Some(number(f64::NAN));
    assert!(value != other && other != other.clone());
    other.difference_bps = value.difference_bps;
    other.active_venues[0] = true;
    assert!(value != other);
}

#[test]
fn venues_and_weights() {
    let weights: Vec<u8> = Venue::ALL.iter().map(|venue| venue.weight()).collect();
    assert_eq!(weights, [3, 2, 2, 1, 1, 1, 1, 1]);
    let names: Vec<&str> = Venue::ALL.iter().map(|venue| venue.name()).collect();
    assert_eq!(
        names,
        ["binance", "okx", "bybit", "kraken", "kucoin", "gate", "mexc", "hyperliquid_spot"]
    );
}

#[test]
fn drops_are_counted() {
    let mut stats = FeedStats::default();
    assert_eq!(stats.dropped_updates(), 0);
    stats.record_drop();
    stats.record_drop();
    assert_eq!(stats.dropped_updates(), 2);
}

#[test]
fn drops_add_up() {
    let mut stats = FeedStats::default();
    for _ in 0..1_000 {
        stats.record_drop();
    }
    assert_eq!(stats.dropped_updates(), 1_000);
}

#[test]
fn differences_have_the_sign_of_the_prices() {
    let now = second(10);
    let prices = [f64::from_bits(1), 1e-300, 0.1, 1.0, 64_000.0, 1e300, f64::MAX];
    for published in prices {
        let below = f64::from_bits(published.to_bits() - 1);
        let above = f64::from_bits(published.to_bits() + 1);
        for (local, sign) in [(below, -1.0), (published, 0.0), (above, 1.0)] {
            if local <= 0.0 || !local.is_finite() {
                continue;
            }
            let mut book = OracleBook::new(1, Duration::from_secs(1), Duration::from_secs(1));
            assert!(book.apply_quote(quote(Venue::Okx, local, local, now)));
            let update = OfficialUpdate { asset: 0, oracle: number(published), received_at: now };
            assert!(book.apply_official(update));
            let value = book.comparison(0, now).unwrap();
            let difference = plain(value.difference_bps.unwrap());
            assert_eq!(difference, ((local / published) - 1.0) * 10_000.0);
            if sign == 0.0 {
                assert_eq!(difference, 0.0);
            } else {
                assert!(difference * sign > 0.0);
            }
        }
    }
}

#[test]
fn the_official_price_ignores_the_window_of_quotes() {
    for millis in [10, 100_000] {
        let mut book = OracleBook::new(1, Duration::from_millis(millis), Duration::from_secs(6));
        let update = OfficialUpdate { asset: 0, oracle: number(99.0), received_at: second(10) };
        assert!(book.apply_official(update));
        for (now, expected) in [(second(16), Some(99.0)), (second(17), None)] {
            assert!(book.apply_quote(quote(Venue::Okx, 98.0, 98.0, now)));
            let value = book.comparison(0, now).unwrap();
            assert_eq!(value.official.map(plain), expected);
            assert_eq!(value.difference_bps.is_some(), expected.is_some());
        }
    }
}

#[test]
fn the_median_orders_a_slice() {
    let mut values = [(number(3.0), 1), (number(-0.0), 1), (number(0.0), 1), (number(-2.0), 9)];
    assert_eq!(weighted_median(&mut values).map(plain), Some(-2.0));
    let prices: Vec<u64> = values.iter().map(|(price, _)| price.bits).collect();
    let expected = [-2.0f64, -0.0, 0.0, 3.0].map(f64::to_bits);
    assert_eq!(prices, expected);
    assert_eq!(weighted_median(&mut values[1..]).map(plain), Some(0.0));
}
