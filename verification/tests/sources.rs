use hl_oracle::config::build_assets;
use hl_oracle::sources::{
    asset_index, asset_index_perp, asset_index_spot, heartbeat_message, hyperliquid_subscriptions,
    kucoin_ws_url, subscriptions, venue_symbol_matches, venue_url, venues_to_run,
};
use hl_oracle::{Asset, Venue};

fn assets(coins: &[&str], external: &[&str]) -> Vec<Asset> {
    let coins: Vec<String> = coins.iter().map(|coin| coin.to_string()).collect();
    let external: Vec<String> = external.iter().map(|coin| coin.to_string()).collect();
    build_assets(&coins, &[], &external).unwrap()
}

#[test]
fn subscriptions_name_every_external_coin() {
    let assets = assets(&["BTC", "HYPE", "ETH"], &[]);
    let one = |venue: Venue| {
        let texts = subscriptions(venue, &assets, 1_700_000_000);
        assert_eq!(texts.len(), 1);
        texts[0].clone()
    };
    assert_eq!(
        one(Venue::Binance),
        r#"{"method":"SUBSCRIBE","params":["btcusdt@bookTicker","ethusdt@bookTicker"],"id":1}"#
    );
    assert_eq!(
        one(Venue::Okx),
        r#"{"op":"subscribe","args":[{"channel":"tickers","instId":"BTC-USDT"},{"channel":"tickers","instId":"ETH-USDT"}]}"#
    );
    assert_eq!(
        one(Venue::Bybit),
        r#"{"op":"subscribe","args":["orderbook.1.BTCUSDT","orderbook.1.ETHUSDT"]}"#
    );
    assert_eq!(
        one(Venue::Kraken),
        r#"{"method":"subscribe","params":{"channel":"ticker","event_trigger":"bbo","symbol":["BTC/USD","ETH/USD"]}}"#
    );
    assert_eq!(
        one(Venue::Kucoin),
        r#"{"id":"oracle-sub","type":"subscribe","topic":"/market/ticker:BTC-USDT,ETH-USDT","response":true}"#
    );
    assert_eq!(
        one(Venue::Gate),
        r#"{"time":1700000000,"channel":"spot.book_ticker","event":"subscribe","payload":["BTC_USDT","ETH_USDT"]}"#
    );
    assert_eq!(
        one(Venue::Mexc),
        r#"{"method":"SUBSCRIPTION","params":["spot@public.aggre.bookTicker.v3.api.pb@10ms@BTCUSDT","spot@public.aggre.bookTicker.v3.api.pb@10ms@ETHUSDT"]}"#
    );
    assert!(subscriptions(Venue::Hyperliquid, &assets, 0).is_empty());
}

#[test]
fn hyperliquid_subscriptions_cover_oracles_and_spot_books() {
    assert_eq!(
        hyperliquid_subscriptions(&assets(&["BTC", "HYPE"], &[])),
        [
            r#"{"method":"subscribe","subscription":{"type":"activeAssetCtx","coin":"BTC"}}"#,
            r#"{"method":"subscribe","subscription":{"type":"activeAssetCtx","coin":"HYPE"}}"#,
            r#"{"method":"subscribe","subscription":{"type":"bbo","coin":"HYPE/USDC"}}"#,
        ]
    );
}

#[test]
fn heartbeats() {
    let beat = |name: &str| heartbeat_message(name, 42);
    assert_eq!(beat("okx").as_deref(), Some("ping"));
    assert_eq!(beat("bybit").as_deref(), Some(r#"{"op":"ping"}"#));
    assert_eq!(beat("kraken").as_deref(), Some(r#"{"method":"ping"}"#));
    assert_eq!(beat("kucoin").as_deref(), Some(r#"{"id":"oracle-ping","type":"ping"}"#));
    assert_eq!(beat("gate").as_deref(), Some(r#"{"time":42,"channel":"spot.ping"}"#));
    assert_eq!(beat("mexc").as_deref(), Some(r#"{"method":"PING"}"#));
    assert_eq!(beat("hyperliquid").as_deref(), Some(r#"{"method":"ping"}"#));
    assert_eq!(beat("binance"), None);
}

#[test]
fn symbols_lead_back_to_their_coins() {
    let assets = assets(&["BTC", "HYPE", "ETH"], &["HYPE"]);
    for (index, asset) in assets.iter().enumerate() {
        for venue in Venue::ALL {
            if venue != Venue::Hyperliquid {
                let symbol = asset.venue_symbol(venue);
                assert!(venue_symbol_matches(venue, &asset.coin, &symbol));
                assert_eq!(asset_index(venue, &symbol, &assets), Some(index as u16));
            }
        }
        assert_eq!(asset_index_perp(&asset.coin, &assets), Some(index as u16));
    }
    assert_eq!(assets[1].venue_symbol(Venue::Hyperliquid), "HYPE/USDC");
    assert_eq!(assets[0].venue_symbol(Venue::Hyperliquid), "");
    assert_eq!(asset_index_spot("HYPE/USDC", &assets), Some(1));
    assert_eq!(asset_index_spot("BTC/USDC", &assets), None);
    assert_eq!(asset_index_perp("btc", &assets), None);
    assert_eq!(asset_index(Venue::Okx, "BTCUSDT", &assets), None);
    assert!(!venue_symbol_matches(Venue::Hyperliquid, "BTC", "BTCUSDT"));
    assert!(venue_symbol_matches(Venue::Gate, "BTC", "btc_USDT"));
}

#[test]
fn external_venues_run_only_when_needed() {
    assert_eq!(venues_to_run(&assets(&["HYPE"], &[])), [Venue::Hyperliquid]);
    assert_eq!(venues_to_run(&assets(&["HYPE", "BTC"], &[])), Venue::ALL);
}

#[test]
fn addresses() {
    assert_eq!(venue_url(Venue::Binance), Some("wss://stream.binance.com:9443/ws"));
    assert_eq!(venue_url(Venue::Okx), Some("wss://ws.okx.com:8443/ws/v5/public"));
    assert_eq!(venue_url(Venue::Bybit), Some("wss://stream.bybit.com/v5/public/spot"));
    assert_eq!(venue_url(Venue::Kraken), Some("wss://ws.kraken.com/v2"));
    assert_eq!(venue_url(Venue::Gate), Some("wss://api.gateio.ws/ws/v4/"));
    assert_eq!(venue_url(Venue::Mexc), Some("wss://wbs-api.mexc.com/ws"));
    assert_eq!(venue_url(Venue::Kucoin), None);
    assert_eq!(venue_url(Venue::Hyperliquid), None);
    assert_eq!(
        kucoin_ws_url(&["wss://a/endpoint".to_owned(), "wss://b".to_owned()], "t0").as_deref(),
        Some("wss://a/endpoint?token=t0&connectId=hl-oracle")
    );
    assert_eq!(kucoin_ws_url(&[], "t0"), None);
}

#[test]
fn symbols_are_lowered_beyond_ascii() {
    let asset = Asset {
        coin: "ÄB".to_owned(),
        hyperliquid_spot: None,
        include_external: true,
    };
    assert_eq!(
        subscriptions(Venue::Binance, &[asset], 0),
        [r#"{"method":"SUBSCRIBE","params":["äbusdt@bookTicker"],"id":1}"#]
    );
}
