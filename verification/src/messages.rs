//! What the venues send, and the updates that follow from it.

use vstd::prelude::*;

use crate::float::arithmetic::{lemma_size_zero, one_in_units, whole_numbers_are_finite};
use crate::float::round::{lemma_nearest_bound, rounding_is_closest};
use crate::float::Binary64;
use crate::model::{OfficialUpdate, QuoteUpdate, Update, Venue};
use crate::price::{parse_price, parse_price_spec, valid_price};
use crate::sources::{
    asset_index, asset_index_perp, asset_index_spot, asset_views,
    conditions_lead_to_the_first_coin, distinct_coins, external_condition, index_where,
    perp_condition, perp_name_leads_back, spot_condition, symbol_leads_back, symbol_matches, Asset,
    AssetView,
};
use crate::text::{
    between, characters, find, find_from, parse_i64, parse_i64_spec, same_text,
    splits_part_at_the_first_separator, strip_prefix, strip_prefix_spec, stripping_undoes_adding,
    text_of,
};
use crate::time::Instant;
use crate::timestamp::{
    fits, parse_rfc3339_millis, parse_rfc3339_millis_spec, timestamp_fits, timestamp_in_range,
};

verus! {

/// A price field that may be a number or a text.
#[derive(Clone, Debug)]
pub enum PriceField {
    /// A number with a fraction or an exponent.
    Number(Binary64),
    /// A whole number that is not negative.
    Unsigned(u64),
    /// A whole number.
    Signed(i64),
    /// A text.
    Text(String),
}

impl PriceField {
    /// The price that the field holds, if it holds one.
    pub open spec fn price_spec(self) -> Option<Binary64> {
        match self {
            PriceField::Number(value) => if value.positive_finite() {
                Some(value)
            } else {
                None
            },
            PriceField::Unsigned(value) => if value > 0 {
                Some(Binary64::whole_spec(value as nat))
            } else {
                None
            },
            PriceField::Signed(value) => if value > 0 {
                Some(Binary64::whole_spec(value as nat))
            } else {
                None
            },
            PriceField::Text(text) => parse_price_spec(text@),
        }
    }

    /// The price that the field holds, if it holds one.
    pub fn price(&self) -> (result: Option<Binary64>)
        ensures
            result == self.price_spec(),
    {
        match self {
            PriceField::Number(value) => valid_price(*value),
            PriceField::Unsigned(value) => whole_price(*value),
            PriceField::Signed(value) => if *value > 0 {
                whole_price(*value as u64)
            } else {
                None
            },
            PriceField::Text(text) => parse_price(text.as_str()),
        }
    }
}

fn whole_price(value: u64) -> (result: Option<Binary64>)
    ensures
        result == if value > 0 {
            Some(Binary64::whole_spec(value as nat))
        } else {
            None
        },
{
    if value > 0 {
        Some(Binary64::from_u64(value))
    } else {
        None
    }
}

/// An OKX ticker.
#[derive(Clone, Debug)]
pub struct OkxTicker {
    /// The instrument.
    pub symbol: String,
    /// The best bid.
    pub bid: String,
    /// The best ask.
    pub ask: String,
    /// The send time in milliseconds, as text.
    pub ts: Option<String>,
}

/// A Kraken ticker.
#[derive(Clone, Debug)]
pub struct KrakenTicker {
    /// The pair.
    pub symbol: String,
    /// The best bid.
    pub bid: PriceField,
    /// The best ask.
    pub ask: PriceField,
    /// The send time, as an RFC 3339 timestamp.
    pub timestamp: Option<String>,
}

/// A message of an external venue.
#[derive(Clone, Debug)]
pub enum ExternalMessage {
    /// Binance's `bookTicker`.
    Binance {
        /// The symbol.
        symbol: String,
        /// The best bid.
        bid: String,
        /// The best ask.
        ask: String,
    },
    /// OKX's `tickers`.
    Okx {
        /// The tickers.
        data: Vec<OkxTicker>,
    },
    /// Bybit's `orderbook.1`.
    Bybit {
        /// The symbol.
        symbol: String,
        /// The prices of the bids, best first.
        bids: Vec<String>,
        /// The prices of the asks, best first.
        asks: Vec<String>,
        /// The send time in milliseconds.
        ts: Option<i64>,
    },
    /// Kraken's `ticker`.
    Kraken {
        /// The tickers.
        data: Vec<KrakenTicker>,
    },
    /// KuCoin's `/market/ticker`.
    Kucoin {
        /// The topic, which names the symbol.
        topic: String,
        /// The best bid.
        bid: String,
        /// The best ask.
        ask: String,
        /// The time of the last trade in milliseconds.
        time: Option<i64>,
    },
    /// Gate's `spot.book_ticker`.
    Gate {
        /// The currency pair.
        symbol: String,
        /// The best bid.
        bid: String,
        /// The best ask.
        ask: String,
        /// The send time in milliseconds.
        time: Option<i64>,
    },
}

/// The best bid and ask that a message carries.
#[derive(Clone, Debug)]
pub struct ParsedQuote {
    /// The venue's symbol.
    pub symbol: String,
    /// The best bid.
    pub bid: Binary64,
    /// The best ask.
    pub ask: Binary64,
    /// The exchange's send timestamp in Unix epoch milliseconds, if it gives one.
    pub server_ms: Option<i64>,
}

/// The best bid and ask that a message carries, by the characters of the symbol.
#[verifier::ext_equal]
pub struct ParsedQuoteView {
    /// The venue's symbol.
    pub symbol: Seq<char>,
    /// The best bid.
    pub bid: Binary64,
    /// The best ask.
    pub ask: Binary64,
    /// The exchange's send timestamp in Unix epoch milliseconds, if it gives one.
    pub server_ms: Option<i64>,
}

impl View for ParsedQuote {
    type V = ParsedQuoteView;

    open spec fn view(&self) -> ParsedQuoteView {
        ParsedQuoteView {
            symbol: self.symbol@,
            bid: self.bid,
            ask: self.ask,
            server_ms: self.server_ms,
        }
    }
}

/// The view of a quote, where there is one.
pub open spec fn quote_view(quote: Option<ParsedQuote>) -> Option<ParsedQuoteView> {
    match quote {
        Some(quote) => Some(quote@),
        None => None,
    }
}

/// The quote of two prices, if both are prices.
pub open spec fn quote_of(
    symbol: Seq<char>,
    bid: Option<Binary64>,
    ask: Option<Binary64>,
    server_ms: Option<i64>,
) -> Option<ParsedQuoteView> {
    match (bid, ask) {
        (Some(bid), Some(ask)) => Some(ParsedQuoteView { symbol, bid, ask, server_ms }),
        _ => None,
    }
}

fn make_quote(symbol: String, bid: &str, ask: &str, server_ms: Option<i64>) -> (result: Option<
    ParsedQuote,
>)
    ensures
        quote_view(result) == quote_of(
            symbol@,
            parse_price_spec(bid@),
            parse_price_spec(ask@),
            server_ms,
        ),
{
    match (parse_price(bid), parse_price(ask)) {
        (Some(bid), Some(ask)) => Some(ParsedQuote { symbol, bid, ask, server_ms }),
        _ => None,
    }
}

/// The send time that a ticker's text writes, if it writes one.
pub open spec fn whole_millis(text: Option<String>) -> Option<i64> {
    match text {
        Some(text) => parse_i64_spec(text@),
        None => None,
    }
}

/// The send time that a ticker's timestamp writes, if it writes one.
pub open spec fn timestamp_millis(text: Option<String>) -> Option<i64> {
    match text {
        Some(text) => parse_rfc3339_millis_spec(text@),
        None => None,
    }
}

/// Every ticker holds two prices.
pub open spec fn all_priced(tickers: Seq<KrakenTicker>) -> bool {
    forall|i: int|
        0 <= i < tickers.len() ==> (#[trigger] tickers[i]).bid.price_spec() is Some
            && tickers[i].ask.price_spec() is Some
}

/// The quote in OKX's tickers: the first one's.
pub open spec fn okx_quote(data: Seq<OkxTicker>) -> Option<ParsedQuoteView> {
    if data.len() == 0 {
        None
    } else {
        quote_of(
            data[0].symbol@,
            parse_price_spec(data[0].bid@),
            parse_price_spec(data[0].ask@),
            whole_millis(data[0].ts),
        )
    }
}

/// The quote in a Bybit book: its best prices, where both sides have one.
pub open spec fn bybit_quote(
    symbol: Seq<char>,
    bids: Seq<String>,
    asks: Seq<String>,
    ts: Option<i64>,
) -> Option<ParsedQuoteView> {
    if bids.len() == 0 || asks.len() == 0 {
        None
    } else {
        quote_of(symbol, parse_price_spec(bids[0]@), parse_price_spec(asks[0]@), ts)
    }
}

/// The quote in Kraken's tickers: the first one's. A message in which any ticker
/// lacks a price carries none.
pub open spec fn kraken_quote(data: Seq<KrakenTicker>) -> Option<ParsedQuoteView> {
    if data.len() == 0 || !all_priced(data) {
        None
    } else {
        quote_of(
            data[0].symbol@,
            data[0].bid.price_spec(),
            data[0].ask.price_spec(),
            timestamp_millis(data[0].timestamp),
        )
    }
}

/// The symbol that a KuCoin topic names first.
pub open spec fn kucoin_symbol(topic: Seq<char>) -> Option<Seq<char>> {
    match strip_prefix_spec(topic, "/market/ticker:"@) {
        Some(symbols) => Some(symbols.subrange(0, find_from(symbols, ',', 0))),
        None => None,
    }
}

/// The quote that a venue's message carries. MEXC and Hyperliquid send messages of
/// another kind, and no venue sends another's.
pub open spec fn parse_external_spec(venue: Venue, message: ExternalMessage) -> Option<
    ParsedQuoteView,
> {
    match (venue, message) {
        (Venue::Binance, ExternalMessage::Binance { symbol, bid, ask }) => quote_of(
            symbol@,
            parse_price_spec(bid@),
            parse_price_spec(ask@),
            None,
        ),
        (Venue::Okx, ExternalMessage::Okx { data }) => okx_quote(data@),
        (Venue::Bybit, ExternalMessage::Bybit { symbol, bids, asks, ts }) => bybit_quote(
            symbol@,
            bids@,
            asks@,
            ts,
        ),
        (Venue::Kraken, ExternalMessage::Kraken { data }) => kraken_quote(data@),
        (Venue::Kucoin, ExternalMessage::Kucoin { topic, bid, ask, time }) => match kucoin_symbol(
            topic@,
        ) {
            Some(symbol) => quote_of(symbol, parse_price_spec(bid@), parse_price_spec(ask@), time),
            None => None,
        },
        (Venue::Gate, ExternalMessage::Gate { symbol, bid, ask, time }) => quote_of(
            symbol@,
            parse_price_spec(bid@),
            parse_price_spec(ask@),
            time,
        ),
        _ => None,
    }
}

/// The timestamp that is read, if any, is computed within 64 bits.
pub open spec fn message_fits(venue: Venue, message: ExternalMessage) -> bool {
    match (venue, message) {
        (Venue::Kraken, ExternalMessage::Kraken { data }) => data@.len() > 0 && all_priced(data@)
            ==> (data@[0].timestamp matches Some(text) ==> timestamp_fits(text@)),
        _ => true,
    }
}

fn check_priced(tickers: &[KrakenTicker]) -> (result: bool)
    ensures
        result == all_priced(tickers@),
{
    let mut index: usize = 0;
    while index < tickers.len()
        invariant
            index <= tickers.len(),
            all_priced(tickers@.take(index as int)),
        decreases tickers.len() - index,
    {
        if tickers[index].bid.price().is_none() || tickers[index].ask.price().is_none() {
            return false;
        }
        index = index + 1;
        assert(all_priced(tickers@.take(index as int))) by {
            assert forall|i: int| 0 <= i < index implies (#[trigger] tickers@.take(
                index as int,
            )[i]).bid.price_spec() is Some && tickers@.take(
                index as int,
            )[i].ask.price_spec() is Some by {
                if i < index - 1 {
                    assert(tickers@.take(index - 1)[i] == tickers@[i]);
                }
            }
        }
    }
    assert(tickers@.take(index as int) == tickers@);
    true
}

/// Whether the timestamp that is read from a message, if any, is computed within 64
/// bits.
pub fn message_in_range(venue: Venue, message: &ExternalMessage) -> (result: bool)
    ensures
        result == message_fits(venue, *message),
{
    match (venue, message) {
        (Venue::Kraken, ExternalMessage::Kraken { data }) => if data.len() > 0 && check_priced(
            data,
        ) {
            match &data[0].timestamp {
                Some(text) => timestamp_in_range(text.as_str()),
                None => true,
            }
        } else {
            true
        },
        _ => true,
    }
}

fn parse_okx(data: &[OkxTicker]) -> (result: Option<ParsedQuote>)
    ensures
        quote_view(result) == okx_quote(data@),
{
    if data.len() == 0 {
        return None;
    }
    let server_ms: Option<i64> = match &data[0].ts {
        Some(text) => parse_i64(&characters(text.as_str())),
        None => None,
    };
    make_quote(data[0].symbol.clone(), data[0].bid.as_str(), data[0].ask.as_str(), server_ms)
}

fn parse_bybit(symbol: &String, bids: &[String], asks: &[String], ts: Option<i64>) -> (result:
    Option<ParsedQuote>)
    ensures
        quote_view(result) == bybit_quote(symbol@, bids@, asks@, ts),
{
    if bids.len() == 0 || asks.len() == 0 {
        None
    } else {
        make_quote(symbol.clone(), bids[0].as_str(), asks[0].as_str(), ts)
    }
}

fn parse_kraken(data: &[KrakenTicker]) -> (result: Option<ParsedQuote>)
    requires
        data@.len() > 0 && all_priced(data@) ==> (data@[0].timestamp matches Some(text)
            ==> timestamp_fits(text@)),
    ensures
        quote_view(result) == kraken_quote(data@),
{
    if data.len() == 0 || !check_priced(data) {
        return None;
    }
    let server_ms: Option<i64> = match &data[0].timestamp {
        Some(text) => parse_rfc3339_millis(text.as_str()),
        None => None,
    };
    match (data[0].bid.price(), data[0].ask.price()) {
        (Some(bid), Some(ask)) => Some(
            ParsedQuote { symbol: data[0].symbol.clone(), bid, ask, server_ms },
        ),
        _ => None,
    }
}

fn parse_kucoin(topic: &str, bid: &str, ask: &str, time: Option<i64>) -> (result: Option<
    ParsedQuote,
>)
    ensures
        quote_view(result) == match kucoin_symbol(topic@) {
            Some(symbol) => quote_of(symbol, parse_price_spec(bid@), parse_price_spec(ask@), time),
            None => None,
        },
{
    match strip_prefix(&characters(topic), "/market/ticker:") {
        Some(symbols) => {
            let end: usize = find(&symbols, ',', 0);
            make_quote(text_of(&between(&symbols, 0, end)), bid, ask, time)
        },
        None => None,
    }
}

/// The quote that a venue's message carries.
pub fn parse_external(venue: Venue, message: &ExternalMessage) -> (result: Option<ParsedQuote>)
    requires
        message_fits(venue, *message),
    ensures
        quote_view(result) == parse_external_spec(venue, *message),
{
    match (venue, message) {
        (Venue::Binance, ExternalMessage::Binance { symbol, bid, ask }) => make_quote(
            symbol.clone(),
            bid.as_str(),
            ask.as_str(),
            None,
        ),
        (Venue::Okx, ExternalMessage::Okx { data }) => parse_okx(data),
        (Venue::Bybit, ExternalMessage::Bybit { symbol, bids, asks, ts }) => parse_bybit(
            symbol,
            bids,
            asks,
            *ts,
        ),
        (Venue::Kraken, ExternalMessage::Kraken { data }) => parse_kraken(data),
        (Venue::Kucoin, ExternalMessage::Kucoin { topic, bid, ask, time }) => parse_kucoin(
            topic.as_str(),
            bid.as_str(),
            ask.as_str(),
            *time,
        ),
        (Venue::Gate, ExternalMessage::Gate { symbol, bid, ask, time }) => make_quote(
            symbol.clone(),
            bid.as_str(),
            ask.as_str(),
            *time,
        ),
        _ => None,
    }
}

/// The time between the exchange's send timestamp and the receipt is a 64-bit
/// number.
pub open spec fn latency_fits(server_ms: Option<i64>, received_ms: i64) -> bool {
    match server_ms {
        Some(server) => fits(received_ms - server),
        None => true,
    }
}

/// Whether the time between the exchange's send timestamp and the receipt is a
/// 64-bit number.
pub fn latency_in_range(server_ms: Option<i64>, received_ms: i64) -> (result: bool)
    ensures
        result == latency_fits(server_ms, received_ms),
{
    match server_ms {
        Some(server) => received_ms.checked_sub(server).is_some(),
        None => true,
    }
}

/// The receipt's wall-clock minus the exchange's send timestamp.
pub open spec fn latency_spec(server_ms: Option<i64>, received_ms: i64) -> Option<i64> {
    match server_ms {
        Some(server) => Some((received_ms - server) as i64),
        None => None,
    }
}

fn latency(server_ms: Option<i64>, received_ms: i64) -> (result: Option<i64>)
    requires
        latency_fits(server_ms, received_ms),
    ensures
        result == latency_spec(server_ms, received_ms),
{
    match server_ms {
        Some(server) => Some(received_ms - server),
        None => None,
    }
}

/// The update that a venue's quote leads to, if its symbol names a coin.
pub open spec fn quote_update_spec(
    venue: Venue,
    quote: ParsedQuoteView,
    assets: Seq<AssetView>,
    received_at: Instant,
    received_ms: i64,
) -> Option<Update> {
    match index_where(assets, external_condition(venue, quote.symbol)) {
        Some(asset) => Some(
            Update::Quote(
                QuoteUpdate {
                    venue,
                    asset,
                    bid: quote.bid,
                    ask: quote.ask,
                    received_at,
                    latency_ms: latency_spec(quote.server_ms, received_ms),
                },
            ),
        ),
        None => None,
    }
}

/// The update that a venue's quote leads to, if its symbol names a coin.
pub fn quote_update(
    venue: Venue,
    quote: &ParsedQuote,
    assets: &[Asset],
    received_at: Instant,
    received_ms: i64,
) -> (result: Option<Update>)
    requires
        index_where(asset_views(assets@), external_condition(venue, quote.symbol@)) is Some
            ==> latency_fits(quote.server_ms, received_ms),
    ensures
        result == quote_update_spec(
            venue,
            quote@,
            asset_views(assets@),
            received_at,
            received_ms,
        ),
{
    match asset_index(venue, quote.symbol.as_str(), assets) {
        Some(asset) => Some(
            Update::Quote(
                QuoteUpdate {
                    venue,
                    asset,
                    bid: quote.bid,
                    ask: quote.ask,
                    received_at,
                    latency_ms: latency(quote.server_ms, received_ms),
                },
            ),
        ),
        None => None,
    }
}

/// The Hyperliquid channels that are read.
#[derive(Clone, Copy, Debug, PartialEq, Eq, Structural)]
pub enum Channel {
    /// `activeAssetCtx`, with the published oracle.
    Official,
    /// `bbo`, with the best bid and ask of a spot market.
    Spot,
}

/// The channel of a name.
pub open spec fn channel_spec(name: Seq<char>) -> Option<Channel> {
    if name == "activeAssetCtx"@ {
        Some(Channel::Official)
    } else if name == "bbo"@ {
        Some(Channel::Spot)
    } else {
        None
    }
}

/// The channel of a name.
pub fn channel(name: &str) -> (result: Option<Channel>)
    ensures
        result == channel_spec(name@),
{
    if same_text(name, "activeAssetCtx") {
        Some(Channel::Official)
    } else if same_text(name, "bbo") {
        Some(Channel::Spot)
    } else {
        None
    }
}

/// What a Hyperliquid channel sends.
#[derive(Clone, Debug)]
pub enum HyperliquidData {
    /// On `activeAssetCtx`.
    Official {
        /// The perp coin.
        coin: String,
        /// The published oracle.
        oracle: PriceField,
    },
    /// On `bbo`.
    Spot {
        /// The spot market.
        coin: String,
        /// The best bid, if there is one.
        bid: Option<String>,
        /// The best ask, if there is one.
        ask: Option<String>,
        /// The send time in milliseconds.
        time: Option<i64>,
    },
}

/// A Hyperliquid message with valid prices.
#[derive(Clone, Debug)]
pub enum HyperliquidMessage {
    /// The published oracle.
    Official {
        /// The perp coin.
        coin: String,
        /// The published oracle.
        oracle: Binary64,
    },
    /// The best bid and ask of a spot market.
    Spot {
        /// The spot market.
        coin: String,
        /// The best bid.
        bid: Binary64,
        /// The best ask.
        ask: Binary64,
        /// The send time in milliseconds.
        time: Option<i64>,
    },
}

/// A Hyperliquid message, by the characters of the coin.
#[verifier::ext_equal]
pub enum HyperliquidView {
    /// The published oracle.
    Official {
        /// The perp coin.
        coin: Seq<char>,
        /// The published oracle.
        oracle: Binary64,
    },
    /// The best bid and ask of a spot market.
    Spot(ParsedQuoteView),
}

impl View for HyperliquidMessage {
    type V = HyperliquidView;

    open spec fn view(&self) -> HyperliquidView {
        match *self {
            HyperliquidMessage::Official { coin, oracle } => HyperliquidView::Official {
                coin: coin@,
                oracle,
            },
            HyperliquidMessage::Spot { coin, bid, ask, time } => HyperliquidView::Spot(
                ParsedQuoteView { symbol: coin@, bid, ask, server_ms: time },
            ),
        }
    }
}

/// The view of a message, where there is one.
pub open spec fn message_view(message: Option<HyperliquidMessage>) -> Option<HyperliquidView> {
    match message {
        Some(message) => Some(message@),
        None => None,
    }
}

/// The price that a text writes, where there is a text and it writes one.
pub open spec fn level_price(level: Option<String>) -> Option<Binary64> {
    match level {
        Some(text) => parse_price_spec(text@),
        None => None,
    }
}

fn read_level(level: &Option<String>) -> (price: Option<Binary64>)
    ensures
        price == level_price(*level),
{
    match level {
        Some(text) => parse_price(text.as_str()),
        None => None,
    }
}

/// The message in what a channel sent, if every price in it is one.
pub open spec fn parse_hyperliquid_spec(data: HyperliquidData) -> Option<HyperliquidView> {
    match data {
        HyperliquidData::Official { coin, oracle } => match oracle.price_spec() {
            Some(oracle) => Some(HyperliquidView::Official { coin: coin@, oracle }),
            None => None,
        },
        HyperliquidData::Spot { coin, bid, ask, time } => match quote_of(
            coin@,
            level_price(bid),
            level_price(ask),
            time,
        ) {
            Some(quote) => Some(HyperliquidView::Spot(quote)),
            None => None,
        },
    }
}

/// The message in what a channel sent, if every price in it is one.
pub fn parse_hyperliquid(data: &HyperliquidData) -> (result: Option<HyperliquidMessage>)
    ensures
        message_view(result) == parse_hyperliquid_spec(*data),
{
    match data {
        HyperliquidData::Official { coin, oracle } => match oracle.price() {
            Some(oracle) => Some(HyperliquidMessage::Official { coin: coin.clone(), oracle }),
            None => None,
        },
        HyperliquidData::Spot { coin, bid, ask, time } => match (read_level(bid), read_level(ask)) {
            (Some(bid), Some(ask)) => Some(
                HyperliquidMessage::Spot { coin: coin.clone(), bid, ask, time: *time },
            ),
            _ => None,
        },
    }
}

/// The update that a Hyperliquid message leads to, if it names a coin.
pub open spec fn hyperliquid_update_spec(
    message: HyperliquidView,
    assets: Seq<AssetView>,
    received_at: Instant,
    received_ms: i64,
) -> Option<Update> {
    match message {
        HyperliquidView::Official { coin, oracle } => match index_where(
            assets,
            perp_condition(coin),
        ) {
            Some(asset) => Some(Update::Official(OfficialUpdate { asset, oracle, received_at })),
            None => None,
        },
        HyperliquidView::Spot(quote) => match index_where(assets, spot_condition(quote.symbol)) {
            Some(asset) => Some(
                Update::Quote(
                    QuoteUpdate {
                        venue: Venue::Hyperliquid,
                        asset,
                        bid: quote.bid,
                        ask: quote.ask,
                        received_at,
                        latency_ms: latency_spec(quote.server_ms, received_ms),
                    },
                ),
            ),
            None => None,
        },
    }
}

/// The update that a Hyperliquid message leads to, if it names a coin.
pub fn hyperliquid_update(
    message: &HyperliquidMessage,
    assets: &[Asset],
    received_at: Instant,
    received_ms: i64,
) -> (result: Option<Update>)
    requires
        message@ matches HyperliquidView::Spot(quote) ==> index_where(
            asset_views(assets@),
            spot_condition(quote.symbol),
        ) is Some ==> latency_fits(quote.server_ms, received_ms),
    ensures
        result == hyperliquid_update_spec(
            message@,
            asset_views(assets@),
            received_at,
            received_ms,
        ),
{
    match message {
        HyperliquidMessage::Official { coin, oracle } => match asset_index_perp(
            coin.as_str(),
            assets,
        ) {
            Some(asset) => Some(
                Update::Official(OfficialUpdate { asset, oracle: *oracle, received_at }),
            ),
            None => None,
        },
        HyperliquidMessage::Spot { coin, bid, ask, time } => match asset_index_spot(
            coin.as_str(),
            assets,
        ) {
            Some(asset) => Some(
                Update::Quote(
                    QuoteUpdate {
                        venue: Venue::Hyperliquid,
                        asset,
                        bid: *bid,
                        ask: *ask,
                        received_at,
                        latency_ms: latency(*time, received_ms),
                    },
                ),
            ),
            None => None,
        },
    }
}

/// A price that is read is positive and finite.
pub proof fn read_prices_are_valid(field: PriceField)
    ensures
        field.price_spec() matches Some(price) ==> price.positive_finite(),
{
    if let PriceField::Unsigned(value) = field {
        if value > 0 {
            whole_numbers_are_finite(value as nat);
        }
    }
    if let PriceField::Signed(value) = field {
        if value > 0 {
            whole_numbers_are_finite(value as nat);
        }
    }
}

/// Both prices of a quote that a message carries are positive and finite.
pub proof fn parsed_quotes_are_valid(venue: Venue, message: ExternalMessage)
    ensures
        parse_external_spec(venue, message) matches Some(quote) ==> quote.bid.positive_finite()
            && quote.ask.positive_finite(),
{
    if let ExternalMessage::Kraken { data } = message {
        if data@.len() > 0 {
            read_prices_are_valid(data@[0].bid);
            read_prices_are_valid(data@[0].ask);
        }
    }
}

/// Only Binance, OKX, Bybit, Kraken, KuCoin and Gate send messages of this kind,
/// and a quote comes from the venue's own message alone.
pub proof fn quotes_come_from_own_messages(venue: Venue, message: ExternalMessage)
    ensures
        parse_external_spec(venue, message) is Some ==> match venue {
            Venue::Binance => message is Binance,
            Venue::Okx => message is Okx,
            Venue::Bybit => message is Bybit,
            Venue::Kraken => message is Kraken,
            Venue::Kucoin => message is Kucoin,
            Venue::Gate => message is Gate,
            Venue::Mexc | Venue::Hyperliquid => false,
        },
{
}

/// Among distinct coins, a quote under a venue's own symbol for an externally priced
/// coin becomes an update of that coin, with the quote's prices.
pub proof fn quotes_reach_their_coin(
    venue: Venue,
    quote: ParsedQuoteView,
    assets: Seq<AssetView>,
    index: int,
    received_at: Instant,
    received_ms: i64,
)
    requires
        distinct_coins(assets),
        0 <= index < assets.len() <= 0x1_0000,
        assets[index].external,
        venue != Venue::Hyperliquid,
        quote.symbol == assets[index].symbol(venue),
    ensures
        quote_update_spec(venue, quote, assets, received_at, received_ms) == Some(
            Update::Quote(
                QuoteUpdate {
                    venue,
                    asset: index as u16,
                    bid: quote.bid,
                    ask: quote.ask,
                    received_at,
                    latency_ms: latency_spec(quote.server_ms, received_ms),
                },
            ),
        ),
{
    symbol_leads_back(assets, index, venue);
}

/// Among distinct coins, a published price becomes an update of the coin that it names.
pub proof fn published_prices_reach_their_coin(
    oracle: Binary64,
    assets: Seq<AssetView>,
    index: int,
    received_at: Instant,
    received_ms: i64,
)
    requires
        distinct_coins(assets),
        0 <= index < assets.len() <= 0x1_0000,
    ensures
        hyperliquid_update_spec(
            HyperliquidView::Official { coin: assets[index].coin, oracle },
            assets,
            received_at,
            received_ms,
        ) == Some(
            Update::Official(OfficialUpdate { asset: index as u16, oracle, received_at }),
        ),
{
    perp_name_leads_back(assets, index);
}

/// A quote has the prices that two texts write, and there is one exactly if both write
/// a price.
pub open spec fn carries(
    quote: Option<ParsedQuoteView>,
    symbol: Seq<char>,
    bid: Option<Binary64>,
    ask: Option<Binary64>,
    server_ms: Option<i64>,
) -> bool {
    &&& quote is Some <==> bid is Some && ask is Some
    &&& quote matches Some(found) ==> found.symbol == symbol && Some(found.bid) == bid && Some(
        found.ask,
    ) == ask && found.server_ms == server_ms
}

/// Each venue's message leads to a quote with the symbol, the best bid and ask, and the
/// send time that it carries; Binance's carries no time. OKX's and Kraken's lead to that
/// of their first ticker. KuCoin's names the symbol in its topic.
pub proof fn quotes_carry_what_was_sent(message: ExternalMessage)
    ensures
        match message {
            ExternalMessage::Binance { symbol, bid, ask } => carries(
                parse_external_spec(Venue::Binance, message),
                symbol@,
                parse_price_spec(bid@),
                parse_price_spec(ask@),
                None,
            ),
            ExternalMessage::Okx { data } => {
                let quote = parse_external_spec(Venue::Okx, message);
                &&& data@.len() == 0 ==> quote is None
                &&& data@.len() > 0 ==> carries(
                    quote,
                    data@[0].symbol@,
                    parse_price_spec(data@[0].bid@),
                    parse_price_spec(data@[0].ask@),
                    if data@[0].ts is Some {
                        parse_i64_spec(data@[0].ts->Some_0@)
                    } else {
                        None
                    },
                )
            },
            ExternalMessage::Bybit { symbol, bids, asks, ts } => {
                let quote = parse_external_spec(Venue::Bybit, message);
                &&& bids@.len() == 0 || asks@.len() == 0 ==> quote is None
                &&& bids@.len() > 0 && asks@.len() > 0 ==> carries(
                    quote,
                    symbol@,
                    parse_price_spec(bids@[0]@),
                    parse_price_spec(asks@[0]@),
                    ts,
                )
            },
            ExternalMessage::Kraken { data } => {
                let quote = parse_external_spec(Venue::Kraken, message);
                let priced = forall|i: int|
                    0 <= i < data@.len() ==> (#[trigger] data@[i]).bid.price_spec() is Some
                        && data@[i].ask.price_spec() is Some;
                &&& data@.len() == 0 || !priced ==> quote is None
                &&& data@.len() > 0 && priced ==> quote is Some && carries(
                    quote,
                    data@[0].symbol@,
                    data@[0].bid.price_spec(),
                    data@[0].ask.price_spec(),
                    if data@[0].timestamp is Some {
                        parse_rfc3339_millis_spec(data@[0].timestamp->Some_0@)
                    } else {
                        None
                    },
                )
            },
            ExternalMessage::Kucoin { .. } => true,
            ExternalMessage::Gate { symbol, bid, ask, time } => carries(
                parse_external_spec(Venue::Gate, message),
                symbol@,
                parse_price_spec(bid@),
                parse_price_spec(ask@),
                time,
            ),
        },
{
    match message {
        ExternalMessage::Kraken { data } => {
            let priced = forall|i: int|
                0 <= i < data@.len() ==> (#[trigger] data@[i]).bid.price_spec() is Some
                    && data@[i].ask.price_spec() is Some;
            assert(priced ==> all_priced(data@));
            assert(all_priced(data@) ==> priced);
            if data@.len() > 0 && all_priced(data@) {
                assert(data@[0].bid.price_spec() is Some && data@[0].ask.price_spec() is Some);
            }
        },
        _ => {},
    }
}

/// A KuCoin message leads to a quote for the first symbol that its topic names, with the
/// prices and the time that it carries.
pub proof fn topics_name_the_symbol(message: ExternalMessage, symbol: Seq<char>, rest: Seq<char>)
    requires
        !symbol.contains(','),
    ensures
        message matches ExternalMessage::Kucoin { topic, bid, ask, time } ==> {
            let prefix = "/market/ticker:"@;
            topic@ == prefix + symbol || topic@ == prefix + symbol + seq![','] + rest ==> carries(
                parse_external_spec(Venue::Kucoin, message),
                symbol,
                parse_price_spec(bid@),
                parse_price_spec(ask@),
                time,
            )
        },
{
    lemma_topic(symbol, rest);
}

proof fn lemma_topic(symbol: Seq<char>, rest: Seq<char>)
    requires
        !symbol.contains(','),
    ensures
        kucoin_symbol("/market/ticker:"@ + symbol) == Some(symbol),
        kucoin_symbol("/market/ticker:"@ + symbol + seq![','] + rest) == Some(symbol),
{
    let prefix = "/market/ticker:"@;
    let several = symbol + seq![','] + rest;
    stripping_undoes_adding(symbol, prefix, symbol);
    stripping_undoes_adding(several, prefix, symbol);
    splits_part_at_the_first_separator(symbol, ',', rest);
    assert(prefix + symbol + seq![','] + rest =~= prefix + several);
    assert(several.subrange(0, symbol.len() as int) =~= symbol);
    assert(symbol.subrange(0, symbol.len() as int) =~= symbol);
}

/// A topic that does not begin as a ticker's carries no quote.
pub proof fn other_topics_carry_nothing(message: ExternalMessage)
    ensures
        message matches ExternalMessage::Kucoin { topic, bid, ask, time } ==> {
            let prefix = "/market/ticker:"@;
            topic@.len() < prefix.len() || topic@.subrange(0, prefix.len() as int) != prefix
                ==> parse_external_spec(Venue::Kucoin, message) is None
        },
{
}

/// A number field holds a price exactly if it is above zero and finite: a double is taken
/// as it is, a whole number as the double that no other is nearer to.
pub proof fn fields_hold_positive_numbers(field: PriceField, other: Binary64)
    ensures
        match field {
            PriceField::Number(value) => match field.price_spec() {
                Some(price) => price == value && value.finite() && value.units() > 0,
                None => !value.finite() || value.units() <= 0,
            },
            PriceField::Unsigned(value) => match field.price_spec() {
                Some(price) => value > 0 && price.positive_finite() && (other.positive_finite()
                    ==> distance_between(price.units(), value * one_in_units())
                    <= distance_between(other.units(), value * one_in_units())),
                None => value == 0,
            },
            PriceField::Signed(value) => match field.price_spec() {
                Some(price) => value > 0 && price.positive_finite() && (other.positive_finite()
                    ==> distance_between(price.units(), value * one_in_units())
                    <= distance_between(other.units(), value * one_in_units())),
                None => value <= 0,
            },
            PriceField::Text(text) => field.price_spec() == parse_price_spec(text@),
        },
{
    match field {
        PriceField::Number(value) => {
            lemma_size_zero(value.magnitude_bits());
        },
        PriceField::Unsigned(value) => {
            if value > 0 {
                whole_numbers_are_finite(value as nat);
                lemma_nearest_bound(value as nat * one_in_units(), 1);
                if other.positive_finite() {
                    rounding_is_closest(value as nat * one_in_units(), 1, other.bits as nat);
                }
            }
        },
        PriceField::Signed(value) => {
            if value > 0 {
                whole_numbers_are_finite(value as nat);
                lemma_nearest_bound(value as nat * one_in_units(), 1);
                if other.positive_finite() {
                    rounding_is_closest(value as nat * one_in_units(), 1, other.bits as nat);
                }
            }
        },
        PriceField::Text(_) => {},
    }
}

/// How far apart two numbers are.
pub open spec fn distance_between(left: int, right: int) -> int {
    if left < right {
        right - left
    } else {
        left - right
    }
}

/// A venue's quote becomes an update with its venue, prices and times, of the first coin
/// among those priced externally that its symbol names, and of none exactly if it names
/// none. The latency is the receipt's wall-clock less the send time, where there is one.
pub proof fn quotes_become_updates(
    venue: Venue,
    quote: ParsedQuoteView,
    assets: Seq<AssetView>,
    received_at: Instant,
    received_ms: i64,
)
    requires
        assets.len() <= 0x1_0000,
    ensures
        match quote_update_spec(venue, quote, assets, received_at, received_ms) {
            Some(Update::Quote(update)) => {
                &&& update.asset < assets.len()
                &&& assets[update.asset as int].external
                &&& symbol_matches(venue, assets[update.asset as int].coin, quote.symbol)
                &&& forall|i: int|
                    0 <= i < update.asset && (#[trigger] assets[i]).external ==> !symbol_matches(
                        venue,
                        assets[i].coin,
                        quote.symbol,
                    )
                &&& update.venue == venue && update.bid == quote.bid && update.ask == quote.ask
                &&& update.received_at == received_at
                &&& update.latency_ms is Some <==> quote.server_ms is Some
                &&& quote.server_ms matches Some(sent) ==> i64::MIN <= received_ms - sent
                    <= i64::MAX ==> update.latency_ms->Some_0 + sent == received_ms
            },
            Some(Update::Official(_)) => false,
            None => forall|i: int|
                0 <= i < assets.len() && (#[trigger] assets[i]).external ==> !symbol_matches(
                    venue,
                    assets[i].coin,
                    quote.symbol,
                ),
        },
{
    conditions_lead_to_the_first_coin(assets, external_condition(venue, quote.symbol));
    let condition = external_condition(venue, quote.symbol);
    assert forall|i: int| 0 <= i < assets.len() implies condition(#[trigger] assets[i]) == (
    assets[i].external && symbol_matches(venue, assets[i].coin, quote.symbol)) by {}
}

/// A published price becomes an update of the first coin with exactly that name, a spot
/// quote one of the first coin that the market prices; each with its prices and times.
pub proof fn hyperliquid_messages_become_updates(
    message: HyperliquidView,
    assets: Seq<AssetView>,
    received_at: Instant,
    received_ms: i64,
)
    requires
        assets.len() <= 0x1_0000,
    ensures
        match (
            message,
            hyperliquid_update_spec(message, assets, received_at, received_ms),
        ) {
            (HyperliquidView::Official { coin, oracle }, Some(Update::Official(update))) => {
                &&& update.asset < assets.len()
                &&& assets[update.asset as int].coin == coin
                &&& forall|i: int| 0 <= i < update.asset ==> (#[trigger] assets[i]).coin != coin
                &&& update.oracle == oracle
                &&& update.received_at == received_at
            },
            (HyperliquidView::Official { coin, .. }, None) => forall|i: int|
                0 <= i < assets.len() ==> (#[trigger] assets[i]).coin != coin,
            (HyperliquidView::Spot(quote), Some(Update::Quote(update))) => {
                &&& update.asset < assets.len()
                &&& assets[update.asset as int].spot == Some(quote.symbol)
                &&& forall|i: int|
                    0 <= i < update.asset ==> (#[trigger] assets[i]).spot != Some(quote.symbol)
                &&& update.venue == Venue::Hyperliquid
                &&& update.bid == quote.bid && update.ask == quote.ask
                &&& update.received_at == received_at
                &&& update.latency_ms is Some <==> quote.server_ms is Some
                &&& quote.server_ms matches Some(sent) ==> i64::MIN <= received_ms - sent
                    <= i64::MAX ==> update.latency_ms->Some_0 + sent == received_ms
            },
            (HyperliquidView::Spot(quote), None) => forall|i: int|
                0 <= i < assets.len() ==> (#[trigger] assets[i]).spot != Some(quote.symbol),
            _ => false,
        },
{
    match message {
        HyperliquidView::Official { coin, .. } => {
            let condition = perp_condition(coin);
            conditions_lead_to_the_first_coin(assets, condition);
            assert forall|i: int| 0 <= i < assets.len() implies condition(#[trigger] assets[i]) == (
            assets[i].coin == coin) by {}
        },
        HyperliquidView::Spot(quote) => {
            let condition = spot_condition(quote.symbol);
            conditions_lead_to_the_first_coin(assets, condition);
            assert forall|i: int| 0 <= i < assets.len() implies condition(#[trigger] assets[i]) == (
            assets[i].spot == Some(quote.symbol)) by {}
        },
    }
}

/// What Hyperliquid sends leads to the coin, the prices and the time in it, and to nothing
/// exactly if a price is missing or none.
pub proof fn hyperliquid_messages_carry_what_was_sent(data: HyperliquidData)
    ensures
        match (data, parse_hyperliquid_spec(data)) {
            (HyperliquidData::Official { coin, oracle }, None) => oracle.price_spec() is None,
            (
                HyperliquidData::Official { coin, oracle },
                Some(HyperliquidView::Official { coin: name, oracle: price }),
            ) => name == coin@ && oracle.price_spec() == Some(price),
            (HyperliquidData::Spot { coin, bid, ask, time }, None) => {
                ||| bid is None
                ||| ask is None
                ||| parse_price_spec(bid->Some_0@) is None
                ||| parse_price_spec(ask->Some_0@) is None
            },
            (HyperliquidData::Spot { coin, bid, ask, time }, Some(HyperliquidView::Spot(quote))) => {
                &&& quote.symbol == coin@ && quote.server_ms == time
                &&& bid is Some && parse_price_spec(bid->Some_0@) == Some(quote.bid)
                &&& ask is Some && parse_price_spec(ask->Some_0@) == Some(quote.ask)
            },
            _ => false,
        },
{
}

/// The published oracle comes on one channel, spot books on another, and no other is
/// read.
pub proof fn two_channels_are_read(name: Seq<char>)
    ensures
        channel_spec(name) == Some(Channel::Official) <==> name == "activeAssetCtx"@,
        channel_spec(name) == Some(Channel::Spot) <==> name == "bbo"@,
{
    reveal_strlit("activeAssetCtx");
    reveal_strlit("bbo");
    assert("activeAssetCtx"@.len() != "bbo"@.len());
}

/// The views of quotes and messages show their fields.
pub proof fn quotes_show_their_fields(quote: ParsedQuote, message: HyperliquidMessage)
    ensures
        quote_view(Some(quote)) == Some(quote@) && quote_view(None) is None,
        quote@.symbol == quote.symbol@,
        quote@.bid == quote.bid && quote@.ask == quote.ask,
        quote@.server_ms == quote.server_ms,
        message_view(Some(message)) == Some(message@) && message_view(None) is None,
        message matches HyperliquidMessage::Official { coin, oracle } ==> message@
            == (HyperliquidView::Official { coin: coin@, oracle }),
        message matches HyperliquidMessage::Spot { coin, bid, ask, time } ==> {
            &&& message@ matches HyperliquidView::Spot(spot)
            &&& spot.symbol == coin@ && spot.bid == bid && spot.ask == ask
            &&& spot.server_ms == time
        },
{
}

/// A latency can be taken exactly where there is no send time or the distance from it to
/// the receipt is a 64-bit number; a message can be read unless it is one of Kraken's
/// with a timestamp.
pub proof fn most_messages_are_in_range(
    server_ms: Option<i64>,
    received_ms: i64,
    measurable: bool,
    venue: Venue,
    message: ExternalMessage,
    readable: bool,
)
    requires
        call_ensures(latency_in_range, (server_ms, received_ms), measurable),
        call_ensures(message_in_range, (venue, &message), readable),
    ensures
        server_ms is None ==> measurable,
        server_ms matches Some(server) ==> (measurable <==> i64::MIN <= received_ms - server
            <= i64::MAX),
        venue != Venue::Kraken ==> readable,
        message matches ExternalMessage::Kraken { data } ==> (data@.len() == 0
            || data@[0].timestamp is None) ==> readable,
        !(message is Kraken) ==> readable,
{
}

} // verus!
