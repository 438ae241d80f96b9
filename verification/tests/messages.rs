use hl_oracle::config::build_assets;
use hl_oracle::float::Binary64;
use hl_oracle::messages::{
    channel, hyperliquid_update, latency_in_range, message_in_range, parse_external,
    parse_hyperliquid, quote_update, Channel, ExternalMessage, HyperliquidData, HyperliquidMessage,
    KrakenTicker, OkxTicker, ParsedQuote, PriceField,
};
use hl_oracle::mexc::{decode_push, parse_mexc_bbo};
use hl_oracle::model::{OfficialUpdate, QuoteUpdate, Update};
use hl_oracle::price::{parse_price, valid_price};
use hl_oracle::time::Instant;
use hl_oracle::timestamp::{parse_rfc3339_millis, timestamp_in_range};
use hl_oracle::Venue;
use serde_json::Value;

fn number(value: f64) -> Binary64 {
    Binary64 { bits: value.to_bits() }
}

fn plain(value: Binary64) -> f64 {
    f64::from_bits(value.bits)
}

fn json(input: &[u8]) -> Value {
    serde_json::from_slice(input).unwrap()
}

fn text(value: &Value) -> String {
    value.as_str().unwrap().to_owned()
}

fn optional(value: &Value) -> Option<String> {
    value.as_str().map(str::to_owned)
}

fn field(value: &Value) -> PriceField {
    match value {
        Value::String(text) => PriceField::Text(text.clone()),
        Value::Number(number) => match (number.as_u64(), number.as_i64()) {
            (Some(whole), _) => PriceField::Unsigned(whole),
            (None, Some(whole)) => PriceField::Signed(whole),
            _ => PriceField::Number(Binary64 { bits: number.as_f64().unwrap().to_bits() }),
        },
        _ => panic!("no price"),
    }
}

fn seen(quote: Option<ParsedQuote>) -> Option<(String, f64, f64, Option<i64>)> {
    quote.map(|quote| (quote.symbol, plain(quote.bid), plain(quote.ask), quote.server_ms))
}

fn found(symbol: &str, server_ms: Option<i64>) -> Option<(String, f64, f64, Option<i64>)> {
    Some((symbol.to_owned(), 100.0, 101.0, server_ms))
}

fn kraken(data: Vec<KrakenTicker>) -> ExternalMessage {
    ExternalMessage::Kraken { data }
}

fn kraken_ticker(bid: PriceField, ask: PriceField, timestamp: Option<&str>) -> KrakenTicker {
    KrakenTicker {
        symbol: "BTC/USD".to_owned(),
        bid,
        ask,
        timestamp: timestamp.map(str::to_owned),
    }
}

#[test]
fn parses_binance_bbo() {
    let input = br#"{"s":"BTCUSDT","b":"100.0","a":"101.0"}"#;
    let value = json(input);
    let message = ExternalMessage::Binance {
        symbol: text(&value["s"]),
        bid: text(&value["b"]),
        ask: text(&value["a"]),
    };
    assert_eq!(
        seen(parse_external(Venue::Binance, &message)),
        Some(("BTCUSDT".to_owned(), 100.0, 101.0, None))
    );
}

#[test]
fn parses_current_kucoin_bbo() {
    let input = br#"{"topic":"/market/ticker:BTC-USDT","type":"message","subject":"trade.ticker","data":{"bestAsk":"101.0","bestAskSize":"1","bestBid":"100.0","bestBidSize":"1","price":"100.5","time":1700000000000}}"#;
    let value = json(input);
    let message = ExternalMessage::Kucoin {
        topic: text(&value["topic"]),
        bid: text(&value["data"]["bestBid"]),
        ask: text(&value["data"]["bestAsk"]),
        time: value["data"]["time"].as_i64(),
    };
    assert_eq!(
        seen(parse_external(Venue::Kucoin, &message)),
        Some(("BTC-USDT".to_owned(), 100.0, 101.0, Some(1_700_000_000_000)))
    );
}

#[test]
fn parses_okx_bbo_with_timestamp() {
    let input = br#"{"arg":{"channel":"tickers","instId":"BTC-USDT"},"data":[{"instId":"BTC-USDT","bidPx":"100.0","askPx":"101.0","ts":"1700000000000"}]}"#;
    let value = json(input);
    let data = value["data"]
        .as_array()
        .unwrap()
        .iter()
        .map(|ticker| OkxTicker {
            symbol: text(&ticker["instId"]),
            bid: text(&ticker["bidPx"]),
            ask: text(&ticker["askPx"]),
            ts: optional(&ticker["ts"]),
        })
        .collect();
    assert_eq!(
        seen(parse_external(Venue::Okx, &ExternalMessage::Okx { data })),
        Some(("BTC-USDT".to_owned(), 100.0, 101.0, Some(1_700_000_000_000)))
    );
}

#[test]
fn parses_kraken_bbo_with_timestamp() {
    let input = br#"{"channel":"ticker","type":"update","data":[{"symbol":"BTC/USD","bid":100.0,"ask":101.0,"timestamp":"2023-11-14T22:13:20.000000Z"}]}"#;
    let value = json(input);
    let data = value["data"]
        .as_array()
        .unwrap()
        .iter()
        .map(|ticker| KrakenTicker {
            symbol: text(&ticker["symbol"]),
            bid: field(&ticker["bid"]),
            ask: field(&ticker["ask"]),
            timestamp: optional(&ticker["timestamp"]),
        })
        .collect();
    let message = kraken(data);
    assert!(message_in_range(Venue::Kraken, &message));
    assert_eq!(
        seen(parse_external(Venue::Kraken, &message)),
        Some(("BTC/USD".to_owned(), 100.0, 101.0, Some(1_700_000_000_000)))
    );
}

#[test]
fn parses_mexc_protobuf_bbo() {
    let mut ticker = Vec::new();
    prost::encoding::string::encode(1, &"100.0".to_owned(), &mut ticker);
    prost::encoding::string::encode(3, &"101.0".to_owned(), &mut ticker);
    let mut payload = Vec::new();
    prost::encoding::string::encode(3, &"BTCUSDT".to_owned(), &mut payload);
    prost::encoding::int64::encode(6, &1_700_000_000_000, &mut payload);
    prost::encoding::bytes::encode(315, &ticker, &mut payload);
    assert_eq!(
        seen(parse_mexc_bbo(&payload)),
        Some(("BTCUSDT".to_owned(), 100.0, 101.0, Some(1_700_000_000_000)))
    );
}

#[test]
fn rfc3339_millis_matches_known_epoch() {
    // 2023-11-14T22:13:20Z == 1_700_000_000 s.
    assert_eq!(
        parse_rfc3339_millis("2023-11-14T22:13:20.000000Z"),
        Some(1_700_000_000_000)
    );
    assert_eq!(
        parse_rfc3339_millis("2023-11-14T22:13:20.123Z"),
        Some(1_700_000_000_123)
    );
    // No fractional part is fine.
    assert_eq!(
        parse_rfc3339_millis("2023-11-14T22:13:20Z"),
        Some(1_700_000_000_000)
    );
    // A malformed non-ASCII fraction must not panic.
    assert!(parse_rfc3339_millis("2023-11-14T22:13:20.é9Z").is_some());
}

#[test]
fn parses_official_hyperliquid_oracle() {
    let input =
        br#"{"channel":"activeAssetCtx","data":{"coin":"BTC","ctx":{"oraclePx":"100000"}}}"#;
    let value = json(input);
    assert_eq!(channel(&text(&value["channel"])), Some(Channel::Official));
    let data = HyperliquidData::Official {
        coin: text(&value["data"]["coin"]),
        oracle: field(&value["data"]["ctx"]["oraclePx"]),
    };
    let Some(HyperliquidMessage::Official { coin, oracle }) = parse_hyperliquid(&data) else {
        panic!("missing official update")
    };
    assert_eq!((coin.as_str(), plain(oracle)), ("BTC", 100000.0));
}

#[test]
fn parses_numeric_hyperliquid_oracle() {
    let input =
        br#"{"channel":"activeAssetCtx","data":{"coin":"BTC","ctx":{"oraclePx":100000.5}}}"#;
    let value = json(input);
    assert_eq!(channel(&text(&value["channel"])), Some(Channel::Official));
    let data = HyperliquidData::Official {
        coin: text(&value["data"]["coin"]),
        oracle: field(&value["data"]["ctx"]["oraclePx"]),
    };
    let Some(HyperliquidMessage::Official { coin, oracle }) = parse_hyperliquid(&data) else {
        panic!("missing official update")
    };
    assert_eq!((coin.as_str(), plain(oracle)), ("BTC", 100000.5));
}

#[test]
fn whole_hyperliquid_oracles_are_prices() {
    for (oracle, price) in [
        (PriceField::Unsigned(100_000), Some(100_000.0)),
        (PriceField::Signed(7), Some(7.0)),
        (PriceField::Unsigned(u64::MAX), Some(u64::MAX as f64)),
        (PriceField::Unsigned(0), None),
        (PriceField::Signed(-7), None),
        (PriceField::Number(number(-0.5)), None),
        (PriceField::Number(number(f64::INFINITY)), None),
        (PriceField::Text("NaN".to_owned()), None),
    ] {
        assert_eq!(oracle.price().map(plain), price);
    }
}

#[test]
fn parses_hyperliquid_spot_books() {
    assert_eq!(channel("bbo"), Some(Channel::Spot));
    assert_eq!(channel("trades"), None);
    let full = HyperliquidData::Spot {
        coin: "HYPE/USDC".to_owned(),
        bid: Some("40.5".to_owned()),
        ask: Some("41".to_owned()),
        time: Some(5),
    };
    let Some(HyperliquidMessage::Spot { coin, bid, ask, time }) = parse_hyperliquid(&full) else {
        panic!("missing spot update")
    };
    assert_eq!((coin.as_str(), plain(bid), plain(ask), time), ("HYPE/USDC", 40.5, 41.0, Some(5)));
    let half = HyperliquidData::Spot {
        coin: "HYPE/USDC".to_owned(),
        bid: Some("40.5".to_owned()),
        ask: None,
        time: Some(5),
    };
    assert!(parse_hyperliquid(&half).is_none());
}

#[test]
fn gate_and_bybit_books() {
    let gate = ExternalMessage::Gate {
        symbol: "BTC_USDT".to_owned(),
        bid: "100".to_owned(),
        ask: "101".to_owned(),
        time: Some(9),
    };
    assert_eq!(seen(parse_external(Venue::Gate, &gate)), found("BTC_USDT", Some(9)));
    let bybit = |bids: &[&str], asks: &[&str]| ExternalMessage::Bybit {
        symbol: "BTCUSDT".to_owned(),
        bids: bids.iter().map(|price| price.to_string()).collect(),
        asks: asks.iter().map(|price| price.to_string()).collect(),
        ts: None,
    };
    assert_eq!(
        seen(parse_external(Venue::Bybit, &bybit(&["100.0", "99"], &["101.0"]))),
        found("BTCUSDT", None)
    );
    assert!(parse_external(Venue::Bybit, &bybit(&[], &["101.0"])).is_none());
    assert!(parse_external(Venue::Bybit, &bybit(&["100.0"], &[])).is_none());
    assert!(parse_external(Venue::Bybit, &bybit(&["0"], &["101.0"])).is_none());
}

#[test]
fn quotes_come_from_own_messages() {
    let gate = ExternalMessage::Gate {
        symbol: "BTC_USDT".to_owned(),
        bid: "100".to_owned(),
        ask: "101".to_owned(),
        time: None,
    };
    for venue in Venue::ALL {
        assert_eq!(parse_external(venue, &gate).is_some(), venue == Venue::Gate);
    }
}

#[test]
fn okx_and_kucoin_details() {
    let okx = |ts: Option<&str>| ExternalMessage::Okx {
        data: vec![OkxTicker {
            symbol: "BTC-USDT".to_owned(),
            bid: "100".to_owned(),
            ask: "101".to_owned(),
            ts: ts.map(str::to_owned),
        }],
    };
    assert_eq!(seen(parse_external(Venue::Okx, &okx(None))), found("BTC-USDT", None));
    assert_eq!(seen(parse_external(Venue::Okx, &okx(Some("x")))), found("BTC-USDT", None));
    assert_eq!(seen(parse_external(Venue::Okx, &okx(Some("-12")))), found("BTC-USDT", Some(-12)));
    assert!(parse_external(Venue::Okx, &ExternalMessage::Okx { data: Vec::new() }).is_none());
    let kucoin = |topic: &str| ExternalMessage::Kucoin {
        topic: topic.to_owned(),
        bid: "100".to_owned(),
        ask: "101".to_owned(),
        time: Some(3),
    };
    assert_eq!(
        seen(parse_external(Venue::Kucoin, &kucoin("/market/ticker:ETH-USDT,BTC-USDT"))),
        found("ETH-USDT", Some(3))
    );
    assert!(parse_external(Venue::Kucoin, &kucoin("/market/level2:ETH-USDT")).is_none());
}

#[test]
fn kraken_messages_need_prices_throughout() {
    let good = || kraken_ticker(PriceField::Unsigned(100), PriceField::Text("101".to_owned()), None);
    let bad = kraken_ticker(PriceField::Unsigned(100), PriceField::Signed(-1), None);
    assert_eq!(
        seen(parse_external(Venue::Kraken, &kraken(vec![good(), good()]))),
        found("BTC/USD", None)
    );
    assert!(parse_external(Venue::Kraken, &kraken(vec![good(), bad])).is_none());
    assert!(parse_external(Venue::Kraken, &kraken(Vec::new())).is_none());
    let far = kraken_ticker(
        PriceField::Unsigned(100),
        PriceField::Unsigned(101),
        Some("9223372036854775807-01-01T00:00:00Z"),
    );
    assert!(!message_in_range(Venue::Kraken, &kraken(vec![far])));
}

#[test]
fn timestamps_follow_the_calendar() {
    for (text, millis) in [
        ("1970-01-01T00:00:00Z", Some(0)),
        ("1969-12-31T23:59:59.5Z", Some(-500)),
        ("2000-02-29T00:00:00Z", Some(951_782_400_000)),
        ("2000-03-01T00:00:00Z", Some(951_868_800_000)),
        ("2100-03-01T00:00:00Z", Some(4_107_542_400_000)),
        ("2026-07-10T14:20:14.823647Z", Some(1_783_693_214_823)),
        ("2023-11-14T22:13:20.1-2x3Z", Some(1_700_000_000_123)),
        ("2023-11-14-99T22:13:20:77Z", Some(1_700_000_000_000)),
        ("2023-11-14T22:13:20", None),
        ("2023-11-14 22:13:20Z", None),
        ("2023-11T22:13:20Z", None),
        ("2023-11-14T22:13Z", None),
        ("2023-x-14T22:13:20Z", None),
        ("2023-11-14T22:13:.5Z", None),
    ] {
        assert!(timestamp_in_range(text));
        assert_eq!(parse_rfc3339_millis(text), millis, "{}", text);
    }
    assert!(!timestamp_in_range("2023-11-14T9223372036854775807:00:00Z"));
}

#[test]
fn prices_are_the_nearest_doubles() {
    for text in [
        "100000.5", "0.1", "0.30", "1e3", "1E-3", "+7.", ".5", "5e-324", "3e-324", "2.2250738585072011e-308",
        "1.7976931348623157e308", "9007199254740993", "0.000000000000000000000000000001234567890123456789",
        "123456789012345678901234567890.123456789", "4.35e+2",
    ] {
        assert_eq!(parse_price(text).map(plain), Some(text.parse::<f64>().unwrap()), "{}", text);
    }
    for text in [
        "", "-1", "0", "0.000", "1e-400", "1e400", "inf", "NaN", "1..2", "1e", "1e+", "e5", ".", "1 ", " 1",
        "0x10", "1_000", "+", "1e99999999999999999999", "2e-324",
    ] {
        assert_eq!(parse_price(text), None, "{}", text);
    }
    assert_eq!(valid_price(number(1.5)), Some(number(1.5)));
    assert_eq!(valid_price(number(-1.5)), None);
}

#[test]
fn mexc_fields_merge_and_unknown_ones_are_skipped() {
    let mut first = Vec::new();
    prost::encoding::string::encode(1, &"1".to_owned(), &mut first);
    let mut second = Vec::new();
    prost::encoding::string::encode(2, &"size".to_owned(), &mut second);
    prost::encoding::string::encode(3, &"101".to_owned(), &mut second);
    prost::encoding::string::encode(1, &"100".to_owned(), &mut second);
    prost::encoding::encode_key(9, prost::encoding::WireType::StartGroup, &mut second);
    prost::encoding::int64::encode(4, &5, &mut second);
    prost::encoding::encode_key(9, prost::encoding::WireType::EndGroup, &mut second);
    let mut payload = Vec::new();
    prost::encoding::string::encode(1, &"channel".to_owned(), &mut payload);
    prost::encoding::fixed32::encode(20, &7, &mut payload);
    prost::encoding::fixed64::encode(21, &7, &mut payload);
    prost::encoding::int64::encode(6, &-1, &mut payload);
    prost::encoding::bytes::encode(315, &first, &mut payload);
    prost::encoding::string::encode(3, &"ETHUSDT".to_owned(), &mut payload);
    prost::encoding::string::encode(3, &"BTCUSDT".to_owned(), &mut payload);
    prost::encoding::bytes::encode(315, &second, &mut payload);
    prost::encoding::encode_key(30, prost::encoding::WireType::StartGroup, &mut payload);
    prost::encoding::encode_key(30, prost::encoding::WireType::EndGroup, &mut payload);
    assert_eq!(seen(parse_mexc_bbo(&payload)), found("BTCUSDT", Some(-1)));
    let push = decode_push(&payload).unwrap();
    assert_eq!(push.symbol.as_deref(), Some("BTCUSDT"));
    assert_eq!(push.send_time, Some(-1));
    assert_eq!(push.ticker.unwrap().bid_price, "100");
    assert!(decode_push(&payload[..payload.len() - 1]).is_none());
}

#[test]
fn malformed_mexc_payloads_are_refused() {
    let mut wrong_type = Vec::new();
    prost::encoding::int64::encode(3, &5, &mut wrong_type);
    let mut not_text = Vec::new();
    prost::encoding::bytes::encode(3, &vec![0xff_u8], &mut not_text);
    let mut short = Vec::new();
    prost::encoding::string::encode(3, &"BTCUSDT".to_owned(), &mut short);
    short.pop();
    let mut open_group = Vec::new();
    prost::encoding::encode_key(30, prost::encoding::WireType::StartGroup, &mut open_group);
    let mut closing = Vec::new();
    prost::encoding::encode_key(30, prost::encoding::WireType::EndGroup, &mut closing);
    let mut time_as_text = Vec::new();
    prost::encoding::string::encode(6, &"1".to_owned(), &mut time_as_text);
    let mut ticker_as_number = Vec::new();
    prost::encoding::int64::encode(315, &1, &mut ticker_as_number);
    for payload in [
        wrong_type, not_text, short, open_group, closing, time_as_text, ticker_as_number,
        vec![0], vec![0x80], vec![0x07], vec![0xff; 11],
    ] {
        assert!(decode_push(&payload).is_none());
        assert!(parse_mexc_bbo(&payload).is_none());
    }
    let empty = decode_push(&[]).unwrap();
    assert!(empty.symbol.is_none() && empty.ticker.is_none() && empty.send_time.is_none());
    assert!(parse_mexc_bbo(&[]).is_none());
}

#[test]
fn deep_groups_are_refused_one_level_earlier_in_a_ticker() {
    let nested = |depth: u32| {
        let mut bytes = Vec::new();
        for _ in 0..depth {
            prost::encoding::encode_key(9, prost::encoding::WireType::StartGroup, &mut bytes);
        }
        for _ in 0..depth {
            prost::encoding::encode_key(9, prost::encoding::WireType::EndGroup, &mut bytes);
        }
        bytes
    };
    let in_ticker = |depth: u32| {
        let mut bytes = Vec::new();
        prost::encoding::bytes::encode(315, &nested(depth), &mut bytes);
        bytes
    };
    assert!(decode_push(&nested(100)).is_some());
    assert!(decode_push(&nested(101)).is_none());
    assert!(decode_push(&in_ticker(99)).is_some());
    assert!(decode_push(&in_ticker(100)).is_none());
}

#[test]
fn quotes_lead_to_updates() {
    let assets = build_assets(&["HYPE".to_owned(), "BTC".to_owned()], &[], &[]).unwrap();
    let at = Instant { nanos: 77 };
    let quote = |symbol: &str, server_ms: Option<i64>| ParsedQuote {
        symbol: symbol.to_owned(),
        bid: number(100.0),
        ask: number(101.0),
        server_ms,
    };
    assert_eq!(
        quote_update(Venue::Binance, &quote("btcUSDT", Some(990)), &assets, at, 1_000),
        Some(Update::Quote(QuoteUpdate {
            venue: Venue::Binance,
            asset: 1,
            bid: number(100.0),
            ask: number(101.0),
            received_at: at,
            latency_ms: Some(10),
        }))
    );
    assert_eq!(quote_update(Venue::Okx, &quote("BTCUSDT", None), &assets, at, 1_000), None);
    assert_eq!(quote_update(Venue::Okx, &quote("HYPE-USDT", None), &assets, at, 1_000), None);
    assert!(latency_in_range(Some(-5), 1_000));
    assert!(!latency_in_range(Some(i64::MIN), 1_000));
    assert!(latency_in_range(None, 1_000));
}

#[test]
fn hyperliquid_messages_lead_to_updates() {
    let assets = build_assets(&["BTC".to_owned(), "HYPE".to_owned()], &[], &[]).unwrap();
    let at = Instant { nanos: 77 };
    let official = |coin: &str| HyperliquidMessage::Official {
        coin: coin.to_owned(),
        oracle: number(40.0),
    };
    assert_eq!(
        hyperliquid_update(&official("HYPE"), &assets, at, 0),
        Some(Update::Official(OfficialUpdate { asset: 1, oracle: number(40.0), received_at: at }))
    );
    assert_eq!(hyperliquid_update(&official("hype"), &assets, at, 0), None);
    let spot = HyperliquidMessage::Spot {
        coin: "HYPE/USDC".to_owned(),
        bid: number(39.0),
        ask: number(41.0),
        time: Some(100),
    };
    assert_eq!(
        hyperliquid_update(&spot, &assets, at, 90),
        Some(Update::Quote(QuoteUpdate {
            venue: Venue::Hyperliquid,
            asset: 1,
            bid: number(39.0),
            ask: number(41.0),
            received_at: at,
            latency_ms: Some(-10),
        }))
    );
}
