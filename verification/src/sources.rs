//! The priced coins, their symbols at each venue, and what is sent to a venue.

use vstd::prelude::*;
use vstd::string::StringExecFns;

use crate::model::{all_venues, Venue, VENUE_COUNT};
use crate::text::{
    characters, decimal, decimal_text, framed, join, joined, lower_case, lowercased,
    joining_parts_in_order, same_ignoring_ascii_case, same_text, strip_suffix, strip_suffix_spec,
    stripping_undoes_adding, to_lowercase, views,
};

verus! {

/// A coin to price.
#[derive(Clone, Debug)]
pub struct Asset {
    /// The perp coin's name.
    pub coin: String,
    /// The Hyperliquid spot market that prices it, if any.
    pub hyperliquid_spot: Option<String>,
    /// Whether the external venues price it.
    pub include_external: bool,
}

/// A coin to price, by the characters of its names.
#[verifier::ext_equal]
pub struct AssetView {
    /// The perp coin's name.
    pub coin: Seq<char>,
    /// The Hyperliquid spot market that prices it, if any.
    pub spot: Option<Seq<char>>,
    /// Whether the external venues price it.
    pub external: bool,
}

impl View for Asset {
    type V = AssetView;

    open spec fn view(&self) -> AssetView {
        AssetView {
            coin: self.coin@,
            spot: match self.hyperliquid_spot {
                Some(spot) => Some(spot@),
                None => None,
            },
            external: self.include_external,
        }
    }
}

/// The views of some coins.
pub open spec fn asset_views(assets: Seq<Asset>) -> Seq<AssetView> {
    assets.map_values(|asset: Asset| asset@)
}

/// What stands behind the coin in an external venue's symbol.
pub open spec fn symbol_suffix(venue: Venue) -> Option<Seq<char>> {
    match venue {
        Venue::Binance | Venue::Bybit | Venue::Mexc => Some("USDT"@),
        Venue::Okx | Venue::Kucoin => Some("-USDT"@),
        Venue::Kraken => Some("/USD"@),
        Venue::Gate => Some("_USDT"@),
        Venue::Hyperliquid => None,
    }
}

/// The sum of the weights of the external venues.
pub open spec fn external_weight(venues: Seq<Venue>) -> nat
    decreases venues.len(),
{
    if venues.len() == 0 {
        0
    } else {
        external_weight(venues.drop_last()) + if venues.last() == Venue::Hyperliquid {
            0
        } else {
            venues.last().weight_spec() as nat
        }
    }
}

impl AssetView {
    /// The number of venues that are configured to price the coin.
    pub open spec fn expected_count(self) -> nat {
        (if self.external { 7nat } else { 0 }) + (if self.spot is Some { 1nat } else { 0 })
    }

    /// The weight of the venues that are configured to price the coin.
    pub open spec fn expected_weight(self) -> nat {
        (if self.external { 11nat } else { 0 }) + (if self.spot is Some { 1nat } else { 0 })
    }

    /// The coin's symbol at a venue.
    pub open spec fn symbol(self, venue: Venue) -> Seq<char> {
        match symbol_suffix(venue) {
            Some(suffix) => self.coin + suffix,
            None => match self.spot {
                Some(spot) => spot,
                None => Seq::empty(),
            },
        }
    }
}

impl Asset {
    /// The number of external venues.
    pub const EXTERNAL_SOURCE_COUNT: u8 = 7;

    /// The weight of all external venues.
    pub const EXTERNAL_SOURCE_WEIGHT: u8 = 11;

    /// The number of venues that are configured to price the coin.
    pub fn expected_source_count(&self) -> (count: u8)
        ensures
            count == self@.expected_count(),
    {
        let external: u8 = if self.include_external { Asset::EXTERNAL_SOURCE_COUNT } else { 0 };
        let spot: u8 = if self.hyperliquid_spot.is_some() { 1 } else { 0 };
        external + spot
    }

    /// The weight of the venues that are configured to price the coin.
    pub fn expected_source_weight(&self) -> (weight: u8)
        ensures
            weight == self@.expected_weight(),
    {
        let external: u8 = if self.include_external { Asset::EXTERNAL_SOURCE_WEIGHT } else { 0 };
        let spot: u8 = if self.hyperliquid_spot.is_some() { 1 } else { 0 };
        external + spot
    }

    /// The coin's symbol at a venue.
    pub fn venue_symbol(&self, venue: Venue) -> (symbol: String)
        ensures
            symbol@ == self@.symbol(venue),
    {
        let suffix: &str = match venue {
            Venue::Binance | Venue::Bybit | Venue::Mexc => "USDT",
            Venue::Okx | Venue::Kucoin => "-USDT",
            Venue::Kraken => "/USD",
            Venue::Gate => "_USDT",
            Venue::Hyperliquid => {
                return match &self.hyperliquid_spot {
                    Some(spot) => spot.clone(),
                    None => String::new(),
                };
            },
        };
        let mut symbol: String = self.coin.clone();
        symbol.append(suffix);
        symbol
    }
}

/// The external venues number seven and weigh eleven, Hyperliquid's spot books one.
pub proof fn expected_totals_follow_from_venues()
    ensures
        all_venues().filter(|venue: Venue| venue != Venue::Hyperliquid).len()
            == Asset::EXTERNAL_SOURCE_COUNT,
        external_weight(all_venues()) == Asset::EXTERNAL_SOURCE_WEIGHT,
        Venue::Hyperliquid.weight_spec() == 1,
{
    reveal_with_fuel(external_weight, 9);
    reveal_with_fuel(Seq::filter, 9);
    let venues = all_venues();
    assert(venues.drop_last().drop_last().drop_last().drop_last().drop_last().drop_last()
        .drop_last().drop_last() =~= Seq::<Venue>::empty());
}

/// Whether a venue's symbol names a coin, whatever the case of its letters.
pub open spec fn symbol_matches(venue: Venue, coin: Seq<char>, symbol: Seq<char>) -> bool {
    match symbol_suffix(venue) {
        Some(suffix) => match strip_suffix_spec(symbol, suffix) {
            Some(base) => lowercased(base) == lowercased(coin),
            None => false,
        },
        None => false,
    }
}

/// Whether a venue's symbol names a coin, whatever the case of its letters.
pub fn venue_symbol_matches(venue: Venue, coin: &str, symbol: &str) -> (result: bool)
    ensures
        result == symbol_matches(venue, coin@, symbol@),
{
    let suffix: &str = match venue {
        Venue::Binance | Venue::Bybit | Venue::Mexc => "USDT",
        Venue::Okx | Venue::Kucoin => "-USDT",
        Venue::Kraken => "/USD",
        Venue::Gate => "_USDT",
        Venue::Hyperliquid => {
            return false;
        },
    };
    match strip_suffix(&characters(symbol), suffix) {
        Some(base) => same_ignoring_ascii_case(&base, &characters(coin)),
        None => false,
    }
}

/// The symbol of a coin at an external venue names that coin.
pub proof fn own_symbol_matches(asset: AssetView, venue: Venue)
    requires
        venue != Venue::Hyperliquid,
    ensures
        symbol_matches(venue, asset.coin, asset.symbol(venue)),
{
    let suffix = symbol_suffix(venue)->Some_0;
    let symbol = asset.coin + suffix;
    assert(symbol.subrange(symbol.len() - suffix.len(), symbol.len() as int) =~= suffix);
    assert(symbol.subrange(0, symbol.len() - suffix.len()) =~= asset.coin);
}

/// The first coin from `from` on that satisfies a condition, or the length.
pub open spec fn first_where(
    assets: Seq<AssetView>,
    condition: spec_fn(AssetView) -> bool,
    from: int,
) -> int
    decreases assets.len() - from,
{
    if from >= assets.len() || condition(assets[from]) {
        from
    } else {
        first_where(assets, condition, from + 1)
    }
}

/// The first coin that satisfies a condition, by its index's low sixteen bits.
pub open spec fn index_where(
    assets: Seq<AssetView>,
    condition: spec_fn(AssetView) -> bool,
) -> Option<u16> {
    let index = first_where(assets, condition, 0);
    if index < assets.len() {
        Some((index % 0x1_0000) as u16)
    } else {
        None
    }
}

/// What `first_where` finds satisfies the condition, and nothing before it does.
pub proof fn lemma_first_where(
    assets: Seq<AssetView>,
    condition: spec_fn(AssetView) -> bool,
    from: int,
)
    requires
        0 <= from <= assets.len(),
    ensures
        from <= first_where(assets, condition, from) <= assets.len(),
        first_where(assets, condition, from) < assets.len() ==> condition(
            assets[first_where(assets, condition, from)],
        ),
        forall|i: int|
            from <= i < first_where(assets, condition, from) ==> !condition(#[trigger] assets[i]),
    decreases assets.len() - from,
{
    if from < assets.len() && !condition(assets[from]) {
        lemma_first_where(assets, condition, from + 1);
    }
}

fn low_bits(index: usize) -> (result: u16)
    ensures
        result == index as int % 0x1_0000,
{
    (index % 0x1_0000) as u16
}

/// The coin that an external venue's symbol is about.
pub open spec fn external_condition(venue: Venue, symbol: Seq<char>) -> spec_fn(AssetView) -> bool {
    |asset: AssetView| asset.external && symbol_matches(venue, asset.coin, symbol)
}

/// The coin with a given perp name.
pub open spec fn perp_condition(coin: Seq<char>) -> spec_fn(AssetView) -> bool {
    |asset: AssetView| asset.coin == coin
}

/// The coin that a given Hyperliquid spot market prices.
pub open spec fn spot_condition(coin: Seq<char>) -> spec_fn(AssetView) -> bool {
    |asset: AssetView| asset.spot == Some(coin)
}

/// The first externally priced coin that a venue's symbol names.
pub fn asset_index(venue: Venue, symbol: &str, assets: &[Asset]) -> (result: Option<u16>)
    ensures
        result == index_where(asset_views(assets@), external_condition(venue, symbol@)),
{
    let ghost all = asset_views(assets@);
    let ghost condition = external_condition(venue, symbol@);
    let mut index: usize = 0;
    while index < assets.len()
        invariant
            index <= assets.len(),
            all == asset_views(assets@),
            condition == external_condition(venue, symbol@),
            first_where(all, condition, 0) == first_where(all, condition, index as int),
        decreases assets.len() - index,
    {
        assert(all[index as int] == assets@[index as int]@);
        if assets[index].include_external && venue_symbol_matches(
            venue,
            assets[index].coin.as_str(),
            symbol,
        ) {
            return Some(low_bits(index));
        }
        index = index + 1;
    }
    None
}

/// The first coin with a given perp name.
pub fn asset_index_perp(coin: &str, assets: &[Asset]) -> (result: Option<u16>)
    ensures
        result == index_where(asset_views(assets@), perp_condition(coin@)),
{
    let ghost all = asset_views(assets@);
    let ghost condition = perp_condition(coin@);
    let mut index: usize = 0;
    while index < assets.len()
        invariant
            index <= assets.len(),
            all == asset_views(assets@),
            condition == perp_condition(coin@),
            first_where(all, condition, 0) == first_where(all, condition, index as int),
        decreases assets.len() - index,
    {
        assert(all[index as int] == assets@[index as int]@);
        if same_text(assets[index].coin.as_str(), coin) {
            return Some(low_bits(index));
        }
        index = index + 1;
    }
    None
}

/// The first coin that a given Hyperliquid spot market prices.
pub fn asset_index_spot(coin: &str, assets: &[Asset]) -> (result: Option<u16>)
    ensures
        result == index_where(asset_views(assets@), spot_condition(coin@)),
{
    let ghost all = asset_views(assets@);
    let ghost condition = spot_condition(coin@);
    let mut index: usize = 0;
    while index < assets.len()
        invariant
            index <= assets.len(),
            all == asset_views(assets@),
            condition == spot_condition(coin@),
            first_where(all, condition, 0) == first_where(all, condition, index as int),
        decreases assets.len() - index,
    {
        assert(all[index as int] == assets@[index as int]@);
        let found: bool = match &assets[index].hyperliquid_spot {
            Some(spot) => same_text(spot.as_str(), coin),
            None => false,
        };
        if found {
            return Some(low_bits(index));
        }
        index = index + 1;
    }
    None
}

/// No two coins have the same name, whatever the case of its letters.
pub open spec fn distinct_coins(assets: Seq<AssetView>) -> bool {
    forall|i: int, j: int|
        0 <= i < j < assets.len() ==> lowercased((#[trigger] assets[i]).coin) != lowercased(
            (#[trigger] assets[j]).coin,
        )
}

/// Among distinct coins, the symbol that a venue uses for an externally priced coin
/// leads back to that coin.
pub proof fn symbol_leads_back(assets: Seq<AssetView>, index: int, venue: Venue)
    requires
        distinct_coins(assets),
        0 <= index < assets.len() <= 0x1_0000,
        assets[index].external,
        venue != Venue::Hyperliquid,
    ensures
        index_where(assets, external_condition(venue, assets[index].symbol(venue))) == Some(
            index as u16,
        ),
{
    let symbol = assets[index].symbol(venue);
    let condition = external_condition(venue, symbol);
    own_symbol_matches(assets[index], venue);
    lemma_first_where(assets, condition, 0);
    let found = first_where(assets, condition, 0);
    assert(condition(assets[index]));
    if found != index {
        assert(found < index);
        assert(condition(assets[found]));
        let base = strip_suffix_spec(symbol, symbol_suffix(venue)->Some_0)->Some_0;
        assert(lowercased(base) == lowercased(assets[found].coin));
        assert(lowercased(base) == lowercased(assets[index].coin));
    }
}

/// Among distinct coins, a coin's perp name leads back to it.
pub proof fn perp_name_leads_back(assets: Seq<AssetView>, index: int)
    requires
        distinct_coins(assets),
        0 <= index < assets.len() <= 0x1_0000,
    ensures
        index_where(assets, perp_condition(assets[index].coin)) == Some(index as u16),
{
    let condition = perp_condition(assets[index].coin);
    lemma_first_where(assets, condition, 0);
    let found = first_where(assets, condition, 0);
    assert(condition(assets[index]));
    if found != index {
        assert(condition(assets[found]));
        assert(lowercased(assets[found].coin) == lowercased(assets[index].coin));
    }
}

/// Some coin is priced by the external venues.
pub open spec fn any_external(assets: Seq<AssetView>) -> bool {
    exists|i: int| 0 <= i < assets.len() && (#[trigger] assets[i]).external
}

/// The venues to connect to: Hyperliquid always, the others if some coin needs them.
pub open spec fn venues_to_run_spec(assets: Seq<AssetView>) -> Seq<Venue> {
    if any_external(assets) {
        all_venues()
    } else {
        seq![Venue::Hyperliquid]
    }
}

/// The venues to connect to: Hyperliquid always, the others if some coin needs them.
pub fn venues_to_run(assets: &[Asset]) -> (venues: Vec<Venue>)
    ensures
        venues@ == venues_to_run_spec(asset_views(assets@)),
{
    let ghost views = asset_views(assets@);
    let mut external: bool = false;
    let mut index: usize = 0;
    while index < assets.len()
        invariant
            index <= assets.len(),
            views == asset_views(assets@),
            external == exists|i: int| 0 <= i < index && (#[trigger] views[i]).external,
        decreases assets.len() - index,
    {
        assert(views[index as int] == assets@[index as int]@);
        if assets[index].include_external {
            external = true;
        }
        index = index + 1;
    }
    let all: [Venue; VENUE_COUNT] = Venue::ALL;
    let mut venues: Vec<Venue> = Vec::new();
    index = if external { 0 } else { VENUE_COUNT - 1 };
    let ghost start = index as int;
    while index < VENUE_COUNT
        invariant
            start <= index <= VENUE_COUNT,
            all@ == all_venues(),
            0 <= start,
            venues@ == all_venues().subrange(start, index as int),
        decreases VENUE_COUNT - index,
    {
        venues.push(all[index]);
        index = index + 1;
        proof {
            assert(venues@ =~= all_venues().subrange(start, index as int));
        }
    }
    proof {
        assert(venues@ =~= venues_to_run_spec(views));
    }
    venues
}

/// Where a venue's stream is. KuCoin's is found out for each connection.
pub open spec fn venue_url_spec(venue: Venue) -> Option<Seq<char>> {
    match venue {
        Venue::Binance => Some("wss://stream.binance.com:9443/ws"@),
        Venue::Okx => Some("wss://ws.okx.com:8443/ws/v5/public"@),
        Venue::Bybit => Some("wss://stream.bybit.com/v5/public/spot"@),
        Venue::Kraken => Some("wss://ws.kraken.com/v2"@),
        Venue::Kucoin => None,
        Venue::Gate => Some("wss://api.gateio.ws/ws/v4/"@),
        Venue::Mexc => Some("wss://wbs-api.mexc.com/ws"@),
        Venue::Hyperliquid => None,
    }
}

/// Where an external venue's stream is. KuCoin's is found out for each connection.
pub fn venue_url(venue: Venue) -> (url: Option<&'static str>)
    ensures
        match url {
            Some(text) => venue_url_spec(venue) == Some(text@),
            None => venue_url_spec(venue) is None,
        },
{
    match venue {
        Venue::Binance => Some("wss://stream.binance.com:9443/ws"),
        Venue::Okx => Some("wss://ws.okx.com:8443/ws/v5/public"),
        Venue::Bybit => Some("wss://stream.bybit.com/v5/public/spot"),
        Venue::Kraken => Some("wss://ws.kraken.com/v2"),
        Venue::Kucoin => None,
        Venue::Gate => Some("wss://api.gateio.ws/ws/v4/"),
        Venue::Mexc => Some("wss://wbs-api.mexc.com/ws"),
        Venue::Hyperliquid => None,
    }
}

/// The symbols of the externally priced coins.
pub open spec fn external_symbols(assets: Seq<AssetView>, venue: Venue) -> Seq<Seq<char>>
    decreases assets.len(),
{
    if assets.len() == 0 {
        Seq::empty()
    } else {
        let earlier = external_symbols(assets.drop_last(), venue);
        if assets.last().external {
            earlier.push(assets.last().symbol(venue))
        } else {
            earlier
        }
    }
}

/// Each text between two others.
pub open spec fn enclosed(texts: Seq<Seq<char>>, before: Seq<char>, after: Seq<char>) -> Seq<
    Seq<char>,
> {
    texts.map_values(|text: Seq<char>| before + text + after)
}

/// The texts that subscribe to a venue's book updates.
pub open spec fn subscriptions_spec(venue: Venue, assets: Seq<AssetView>, seconds: u64) -> Seq<
    Seq<char>,
> {
    let symbols = external_symbols(assets, venue);
    let quoted = joined(enclosed(symbols, "\""@, "\""@), ","@);
    match venue {
        Venue::Binance => seq![
            "{\"method\":\"SUBSCRIBE\",\"params\":["@ + joined(
                enclosed(
                    symbols.map_values(|symbol: Seq<char>| lower_case(symbol)),
                    "\""@,
                    "@bookTicker\""@,
                ),
                ","@,
            ) + "],\"id\":1}"@,
        ],
        Venue::Okx => seq![
            "{\"op\":\"subscribe\",\"args\":["@ + joined(
                enclosed(symbols, "{\"channel\":\"tickers\",\"instId\":\""@, "\"}"@),
                ","@,
            ) + "]}"@,
        ],
        Venue::Bybit => seq![
            "{\"op\":\"subscribe\",\"args\":["@ + joined(
                enclosed(symbols, "\"orderbook.1."@, "\""@),
                ","@,
            ) + "]}"@,
        ],
        Venue::Kraken => seq![
            "{\"method\":\"subscribe\",\"params\":{\"channel\":\"ticker\",\"event_trigger\":\"bbo\",\"symbol\":["@
                + quoted + "]}}"@,
        ],
        Venue::Kucoin => seq![
            "{\"id\":\"oracle-sub\",\"type\":\"subscribe\",\"topic\":\"/market/ticker:"@ + joined(
                symbols,
                ","@,
            ) + "\",\"response\":true}"@,
        ],
        Venue::Gate => seq![
            "{\"time\":"@ + decimal(seconds as nat)
                + ",\"channel\":\"spot.book_ticker\",\"event\":\"subscribe\",\"payload\":["@
                + quoted + "]}"@,
        ],
        Venue::Mexc => seq![
            "{\"method\":\"SUBSCRIPTION\",\"params\":["@ + joined(
                enclosed(symbols, "\"spot@public.aggre.bookTicker.v3.api.pb@10ms@"@, "\""@),
                ","@,
            ) + "]}"@,
        ],
        Venue::Hyperliquid => Seq::empty(),
    }
}

fn enclose_all(texts: &[String], before: &str, after: &str) -> (result: Vec<String>)
    ensures
        views(result@) == enclosed(views(texts@), before@, after@),
{
    let mut result: Vec<String> = Vec::new();
    let mut index: usize = 0;
    while index < texts.len()
        invariant
            index <= texts.len(),
            result@.len() == index,
            forall|i: int|
                0 <= i < index ==> (#[trigger] result@[i])@ == before@ + texts@[i]@ + after@,
        decreases texts.len() - index,
    {
        let mut text: String = String::new();
        text.append(before);
        text.append(texts[index].as_str());
        text.append(after);
        proof {
            assert(text@ =~= before@ + texts@[index as int]@ + after@);
        }
        result.push(text);
        index = index + 1;
    }
    proof {
        assert(views(result@) =~= enclosed(views(texts@), before@, after@));
    }
    result
}

fn lower_all(texts: &[String]) -> (result: Vec<String>)
    ensures
        views(result@) == views(texts@).map_values(
            |symbol: Seq<char>| lower_case(symbol),
        ),
{
    let mut result: Vec<String> = Vec::new();
    let mut index: usize = 0;
    while index < texts.len()
        invariant
            index <= texts.len(),
            result@.len() == index,
            forall|i: int|
                0 <= i < index ==> (#[trigger] result@[i])@ == lower_case(texts@[i]@),
        decreases texts.len() - index,
    {
        result.push(to_lowercase(texts[index].as_str()));
        index = index + 1;
    }
    proof {
        assert(views(result@) =~= views(texts@).map_values(
            |symbol: Seq<char>| lower_case(symbol),
        ));
    }
    result
}

fn collect_symbols(assets: &[Asset], venue: Venue) -> (symbols: Vec<String>)
    ensures
        views(symbols@) == external_symbols(asset_views(assets@), venue),
{
    let ghost all = asset_views(assets@);
    let mut symbols: Vec<String> = Vec::new();
    let mut index: usize = 0;
    proof {
        assert(views(symbols@) =~= Seq::<Seq<char>>::empty());
    }
    while index < assets.len()
        invariant
            index <= assets.len(),
            all == asset_views(assets@),
            views(symbols@) == external_symbols(all.take(index as int), venue),
        decreases assets.len() - index,
    {
        proof {
            assert(all[index as int] == assets@[index as int]@);
            assert(all.take(index + 1).drop_last() =~= all.take(index as int));
        }
        if assets[index].include_external {
            let ghost before = symbols@;
            symbols.push(assets[index].venue_symbol(venue));
            proof {
                assert(views(symbols@) =~= views(before).push(all[index as int].symbol(venue)));
            }
        }
        index = index + 1;
    }
    proof {
        assert(all.take(all.len() as int) =~= all);
    }
    symbols
}

/// The texts that subscribe to a venue's book updates; `seconds` is the Unix time.
pub fn subscriptions(venue: Venue, assets: &[Asset], seconds: u64) -> (result: Vec<String>)
    ensures
        views(result@) == subscriptions_spec(venue, asset_views(assets@), seconds),
{
    let symbols: Vec<String> = collect_symbols(assets, venue);
    let text: String = match venue {
        Venue::Binance => framed(
            "{\"method\":\"SUBSCRIBE\",\"params\":[",
            join(&enclose_all(&lower_all(&symbols), "\"", "@bookTicker\""), ",").as_str(),
            "],\"id\":1}",
        ),
        Venue::Okx => framed(
            "{\"op\":\"subscribe\",\"args\":[",
            join(
                &enclose_all(&symbols, "{\"channel\":\"tickers\",\"instId\":\"", "\"}"),
                ",",
            ).as_str(),
            "]}",
        ),
        Venue::Bybit => framed(
            "{\"op\":\"subscribe\",\"args\":[",
            join(&enclose_all(&symbols, "\"orderbook.1.", "\""), ",").as_str(),
            "]}",
        ),
        // The default trigger ("trades") only refreshes the quote when a trade prints.
        Venue::Kraken => framed(
            "{\"method\":\"subscribe\",\"params\":{\"channel\":\"ticker\",\"event_trigger\":\"bbo\",\"symbol\":[",
            join(&enclose_all(&symbols, "\"", "\""), ",").as_str(),
            "]}}",
        ),
        Venue::Kucoin => framed(
            "{\"id\":\"oracle-sub\",\"type\":\"subscribe\",\"topic\":\"/market/ticker:",
            join(&symbols, ",").as_str(),
            "\",\"response\":true}",
        ),
        Venue::Gate => {
            let head: String = framed(
                "{\"time\":",
                decimal_text(seconds as u128).as_str(),
                ",\"channel\":\"spot.book_ticker\",\"event\":\"subscribe\",\"payload\":[",
            );
            framed(
                head.as_str(),
                join(&enclose_all(&symbols, "\"", "\""), ",").as_str(),
                "]}",
            )
        },
        Venue::Mexc => framed(
            "{\"method\":\"SUBSCRIPTION\",\"params\":[",
            join(
                &enclose_all(&symbols, "\"spot@public.aggre.bookTicker.v3.api.pb@10ms@", "\""),
                ",",
            ).as_str(),
            "]}",
        ),
        Venue::Hyperliquid => {
            let none: Vec<String> = Vec::new();
            proof {
                assert(views(none@) =~= Seq::<Seq<char>>::empty());
            }
            return none;
        },
    };
    let mut result: Vec<String> = Vec::new();
    result.push(text);
    proof {
        assert(views(result@) =~= seq![text@]);
    }
    result
}

/// The texts that subscribe to one coin's published oracle and spot book.
pub open spec fn hyperliquid_requests(asset: AssetView) -> Seq<Seq<char>> {
    let perp = "{\"method\":\"subscribe\",\"subscription\":{\"type\":\"activeAssetCtx\",\"coin\":\""@
        + asset.coin + "\"}}"@;
    match asset.spot {
        Some(spot) => seq![
            perp,
            "{\"method\":\"subscribe\",\"subscription\":{\"type\":\"bbo\",\"coin\":\""@ + spot
                + "\"}}"@,
        ],
        None => seq![perp],
    }
}

/// The texts that subscribe to all coins' published oracles and spot books.
pub open spec fn hyperliquid_subscriptions_spec(assets: Seq<AssetView>) -> Seq<Seq<char>>
    decreases assets.len(),
{
    if assets.len() == 0 {
        Seq::empty()
    } else {
        hyperliquid_subscriptions_spec(assets.drop_last()) + hyperliquid_requests(assets.last())
    }
}

/// The texts that subscribe to all coins' published oracles and spot books.
pub fn hyperliquid_subscriptions(assets: &[Asset]) -> (result: Vec<String>)
    ensures
        views(result@) == hyperliquid_subscriptions_spec(asset_views(assets@)),
{
    let ghost all = asset_views(assets@);
    let mut result: Vec<String> = Vec::new();
    let mut index: usize = 0;
    proof {
        assert(views(result@) =~= Seq::<Seq<char>>::empty());
    }
    while index < assets.len()
        invariant
            index <= assets.len(),
            all == asset_views(assets@),
            views(result@) == hyperliquid_subscriptions_spec(all.take(index as int)),
        decreases assets.len() - index,
    {
        let ghost before = views(result@);
        proof {
            assert(all[index as int] == assets@[index as int]@);
            assert(all.take(index + 1).drop_last() =~= all.take(index as int));
        }
        result.push(
            framed(
                "{\"method\":\"subscribe\",\"subscription\":{\"type\":\"activeAssetCtx\",\"coin\":\"",
                assets[index].coin.as_str(),
                "\"}}",
            ),
        );
        if let Some(spot) = &assets[index].hyperliquid_spot {
            result.push(
                framed(
                    "{\"method\":\"subscribe\",\"subscription\":{\"type\":\"bbo\",\"coin\":\"",
                    spot.as_str(),
                    "\"}}",
                ),
            );
        }
        proof {
            assert(views(result@) =~= before + hyperliquid_requests(all[index as int]));
        }
        index = index + 1;
    }
    proof {
        assert(all.take(all.len() as int) =~= all);
    }
    result
}

/// The text that keeps a stream alive. Binance answers pings on the socket itself
/// and takes no text.
pub open spec fn heartbeat_spec(name: Seq<char>, seconds: u64) -> Option<Seq<char>> {
    if name == "okx"@ {
        Some("ping"@)
    } else if name == "bybit"@ {
        Some("{\"op\":\"ping\"}"@)
    } else if name == "kraken"@ {
        Some("{\"method\":\"ping\"}"@)
    } else if name == "kucoin"@ {
        Some("{\"id\":\"oracle-ping\",\"type\":\"ping\"}"@)
    } else if name == "gate"@ {
        Some("{\"time\":"@ + decimal(seconds as nat) + ",\"channel\":\"spot.ping\"}"@)
    } else if name == "mexc"@ {
        Some("{\"method\":\"PING\"}"@)
    } else if name == "hyperliquid"@ {
        Some("{\"method\":\"ping\"}"@)
    } else {
        None
    }
}

/// The text that keeps a stream alive; `seconds` is the Unix time.
pub fn heartbeat_message(name: &str, seconds: u64) -> (message: Option<String>)
    ensures
        match message {
            Some(text) => heartbeat_spec(name@, seconds) == Some(text@),
            None => heartbeat_spec(name@, seconds) is None,
        },
{
    if same_text(name, "okx") {
        Some("ping".to_owned())
    } else if same_text(name, "bybit") {
        Some("{\"op\":\"ping\"}".to_owned())
    } else if same_text(name, "kraken") {
        Some("{\"method\":\"ping\"}".to_owned())
    } else if same_text(name, "kucoin") {
        Some("{\"id\":\"oracle-ping\",\"type\":\"ping\"}".to_owned())
    } else if same_text(name, "gate") {
        Some(
            framed(
                "{\"time\":",
                decimal_text(seconds as u128).as_str(),
                ",\"channel\":\"spot.ping\"}",
            ),
        )
    } else if same_text(name, "mexc") {
        Some("{\"method\":\"PING\"}".to_owned())
    } else if same_text(name, "hyperliquid") {
        Some("{\"method\":\"ping\"}".to_owned())
    } else {
        None
    }
}

/// The address of a KuCoin stream: the first server offered, with the token.
pub open spec fn kucoin_ws_url_spec(servers: Seq<Seq<char>>, token: Seq<char>) -> Option<
    Seq<char>,
> {
    if servers.len() == 0 {
        None
    } else {
        Some(servers[0] + "?token="@ + token + "&connectId=hl-oracle"@)
    }
}

/// The address of a KuCoin stream, unless no server is offered.
pub fn kucoin_ws_url(servers: &[String], token: &str) -> (url: Option<String>)
    ensures
        match url {
            Some(text) => kucoin_ws_url_spec(views(servers@), token@) == Some(text@),
            None => kucoin_ws_url_spec(views(servers@), token@) is None,
        },
{
    if servers.len() == 0 {
        return None;
    }
    let head: String = framed(servers[0].as_str(), "?token=", token);
    let mut url: String = head;
    url.append("&connectId=hl-oracle");
    Some(url)
}

/// A coin's symbol at a venue is its name and what the venue quotes it in, at Hyperliquid
/// its spot market's name.
pub proof fn symbols_name_the_coin(asset: AssetView)
    ensures
        asset.symbol(Venue::Binance) == asset.coin + "USDT"@,
        asset.symbol(Venue::Okx) == asset.coin + "-USDT"@,
        asset.symbol(Venue::Bybit) == asset.coin + "USDT"@,
        asset.symbol(Venue::Kraken) == asset.coin + "/USD"@,
        asset.symbol(Venue::Kucoin) == asset.coin + "-USDT"@,
        asset.symbol(Venue::Gate) == asset.coin + "_USDT"@,
        asset.symbol(Venue::Mexc) == asset.coin + "USDT"@,
        asset.spot matches Some(market) ==> asset.symbol(Venue::Hyperliquid) == market,
{
}

/// A symbol names a coin exactly if it is the coin's name, in letters of any case, with
/// the venue's suffix behind it; Hyperliquid's markets are not named so.
pub proof fn symbols_match_in_any_case(
    venue: Venue,
    coin: Seq<char>,
    name: Seq<char>,
    symbol: Seq<char>,
)
    ensures
        ({
            let suffix = AssetView { coin: Seq::empty(), spot: None, external: true }.symbol(venue);
            &&& venue != Venue::Hyperliquid ==> (symbol_matches(venue, coin, name + suffix) <==> (
            name.len() == coin.len() && forall|i: int|
                0 <= i < name.len() ==> lowercased(name)[i] == #[trigger] lowercased(coin)[i]))
            &&& venue != Venue::Hyperliquid && symbol_matches(venue, coin, symbol) ==> symbol.len()
                == coin.len() + suffix.len() && symbol.subrange(
                coin.len() as int,
                symbol.len() as int,
            ) == suffix
            &&& !symbol_matches(Venue::Hyperliquid, coin, symbol)
        }),
{
    let suffix = AssetView { coin: Seq::empty(), spot: None, external: true }.symbol(venue);
    if venue != Venue::Hyperliquid {
        assert(suffix =~= symbol_suffix(venue)->Some_0);
        stripping_undoes_adding(name, suffix, symbol);
        if name.len() == coin.len() && forall|i: int|
            0 <= i < name.len() ==> lowercased(name)[i] == #[trigger] lowercased(coin)[i] {
            assert(lowercased(name) =~= lowercased(coin));
        }
        assert(lowercased(name).len() == name.len() && lowercased(coin).len() == coin.len());
        if symbol_matches(venue, coin, symbol) {
            let base = strip_suffix_spec(symbol, suffix)->Some_0;
            assert(lowercased(base).len() == base.len());
            assert(symbol.subrange(coin.len() as int, symbol.len() as int) =~= suffix);
        }
    }
}

/// The symbols that a venue is asked for are those of all coins that the external venues
/// price, in order, whether or not a coin has a spot market as well.
pub proof fn every_external_coin_is_asked_for(assets: Seq<AssetView>, venue: Venue, index: int)
    ensures
        external_symbols(assets, venue) == assets.filter(
            |asset: AssetView| asset.external,
        ).map_values(|asset: AssetView| asset.symbol(venue)),
        0 <= index < assets.len() && assets[index].external ==> external_symbols(
            assets,
            venue,
        ).contains(assets[index].symbol(venue)),
    decreases assets.len(),
{
    let priced = |asset: AssetView| asset.external;
    let name = |asset: AssetView| asset.symbol(venue);
    let symbols = external_symbols(assets, venue);
    reveal(Seq::filter);
    if assets.len() > 0 {
        let earlier = assets.drop_last();
        every_external_coin_is_asked_for(earlier, venue, index);
        let before = earlier.filter(priced);
        assert(before.push(assets.last()).map_values(name) =~= before.map_values(name).push(
            name(assets.last()),
        ));
        assert(symbols =~= assets.filter(priced).map_values(name));
        if 0 <= index < assets.len() && assets[index].external {
            if index == assets.len() - 1 {
                assert(symbols[symbols.len() - 1] == assets[index].symbol(venue));
            } else {
                let known = external_symbols(earlier, venue);
                let place = choose|i: int|
                    0 <= i < known.len() && known[i] == earlier[index].symbol(venue);
                assert(symbols[place] == assets[index].symbol(venue));
            }
        }
    } else {
        assert(assets.filter(priced).map_values(name) =~= symbols);
    }
}

/// What stands before and behind the coins in a venue's subscription.
pub open spec fn request_frame(venue: Venue, seconds: u64) -> (Seq<char>, Seq<char>) {
    match venue {
        Venue::Binance => ("{\"method\":\"SUBSCRIBE\",\"params\":["@, "],\"id\":1}"@),
        Venue::Okx => ("{\"op\":\"subscribe\",\"args\":["@, "]}"@),
        Venue::Bybit => ("{\"op\":\"subscribe\",\"args\":["@, "]}"@),
        Venue::Kraken => (
            "{\"method\":\"subscribe\",\"params\":{\"channel\":\"ticker\",\"event_trigger\":\"bbo\",\"symbol\":["@,
            "]}}"@,
        ),
        Venue::Kucoin => (
            "{\"id\":\"oracle-sub\",\"type\":\"subscribe\",\"topic\":\"/market/ticker:"@,
            "\",\"response\":true}"@,
        ),
        Venue::Gate => (
            "{\"time\":"@ + decimal(seconds as nat)
                + ",\"channel\":\"spot.book_ticker\",\"event\":\"subscribe\",\"payload\":["@,
            "]}"@,
        ),
        Venue::Mexc => ("{\"method\":\"SUBSCRIPTION\",\"params\":["@, "]}"@),
        Venue::Hyperliquid => (Seq::empty(), Seq::empty()),
    }
}

/// How a venue's subscription names one symbol.
pub open spec fn request_item(venue: Venue, symbol: Seq<char>) -> Seq<char> {
    match venue {
        Venue::Binance => "\""@ + lower_case(symbol) + "@bookTicker\""@,
        Venue::Okx => "{\"channel\":\"tickers\",\"instId\":\""@ + symbol + "\"}"@,
        Venue::Bybit => "\"orderbook.1."@ + symbol + "\""@,
        Venue::Kucoin => symbol,
        Venue::Mexc => "\"spot@public.aggre.bookTicker.v3.api.pb@10ms@"@ + symbol + "\""@,
        _ => "\""@ + symbol + "\""@,
    }
}

/// A venue's subscription with one more coin: unless the external venues price the coin it
/// is the same text; else the coin's item comes behind all others, with a comma before it
/// where there are any. Without such coins the subscription names none.
pub proof fn subscriptions_grow_with_the_coins(
    venue: Venue,
    assets: Seq<AssetView>,
    asset: AssetView,
    seconds: u64,
)
    requires
        venue != Venue::Hyperliquid,
    ensures
        ({
            let (head, tail) = request_frame(venue, seconds);
            let texts = subscriptions_spec(venue, assets, seconds);
            let more = subscriptions_spec(venue, assets.push(asset), seconds);
            let text = texts[0];
            let item = request_item(venue, asset.symbol(venue));
            &&& texts.len() == 1
            &&& more.len() == 1
            &&& !any_external(assets) ==> text == head + tail
            &&& !asset.external ==> more[0] == text
            &&& asset.external && !any_external(assets) ==> more[0] == head + item + tail
            &&& asset.external && any_external(assets) ==> more[0] == text.subrange(
                0,
                text.len() - tail.len(),
            ) + ","@ + item + tail
        }),
{
    let (head, tail) = request_frame(venue, seconds);
    let symbols = external_symbols(assets, venue);
    let symbol = asset.symbol(venue);
    let item = request_item(venue, symbol);
    let items = symbols.map_values(|name: Seq<char>| request_item(venue, name));
    let longer = assets.push(asset);
    assert(longer.drop_last() =~= assets);
    lemma_some_symbol(assets, venue);
    lemma_subscription(venue, assets, seconds);
    lemma_subscription(venue, longer, seconds);
    let text = subscriptions_spec(venue, assets, seconds)[0];
    assert(text.subrange(0, text.len() - tail.len()) =~= head + joined(items, ","@));
    if symbols.len() == 0 {
        assert(joined(items, ","@) =~= Seq::<char>::empty());
        assert(text =~= head + tail);
    }
    if asset.external {
        let all = symbols.push(symbol).map_values(|name: Seq<char>| request_item(venue, name));
        assert(all =~= items.push(item));
        assert(items.push(item) =~= items + seq![item]);
        joining_parts_in_order(items, seq![item], ","@, item);
        if symbols.len() == 0 {
            assert(items + seq![item] =~= seq![item]);
            assert(head + item + tail =~= subscriptions_spec(venue, longer, seconds)[0]);
        } else {
            let listed = joined(items, ","@);
            assert(head + (listed + ","@ + item) + tail =~= (head + listed) + ","@ + item + tail);
        }
    }
}

/// There are symbols exactly where some coin is priced by the external venues.
proof fn lemma_some_symbol(assets: Seq<AssetView>, venue: Venue)
    ensures
        any_external(assets) <==> external_symbols(assets, venue).len() > 0,
    decreases assets.len(),
{
    if assets.len() > 0 {
        let earlier = assets.drop_last();
        lemma_some_symbol(earlier, venue);
        if any_external(earlier) {
            let i = choose|i: int| 0 <= i < earlier.len() && (#[trigger] earlier[i]).external;
            assert(assets[i].external);
        }
        if assets.last().external {
            assert(assets[assets.len() - 1].external);
        }
        if any_external(assets) && !assets.last().external {
            let i = choose|i: int| 0 <= i < assets.len() && (#[trigger] assets[i]).external;
            assert(earlier[i].external);
        }
    }
}

proof fn lemma_subscription(venue: Venue, assets: Seq<AssetView>, seconds: u64)
    requires
        venue != Venue::Hyperliquid,
    ensures
        ({
            let (head, tail) = request_frame(venue, seconds);
            let items = external_symbols(assets, venue).map_values(
                |name: Seq<char>| request_item(venue, name),
            );
            subscriptions_spec(venue, assets, seconds) == seq![head + joined(items, ","@) + tail]
        }),
{
    let symbols = external_symbols(assets, venue);
    let items = symbols.map_values(|name: Seq<char>| request_item(venue, name));
    match venue {
        Venue::Binance => {
            assert(items =~= enclosed(
                symbols.map_values(|symbol: Seq<char>| lower_case(symbol)),
                "\""@,
                "@bookTicker\""@,
            ));
        },
        Venue::Okx => {
            assert(items =~= enclosed(
                symbols,
                "{\"channel\":\"tickers\",\"instId\":\""@,
                "\"}"@,
            ));
        },
        Venue::Bybit => {
            assert(items =~= enclosed(symbols, "\"orderbook.1."@, "\""@));
        },
        Venue::Kucoin => {
            assert(items =~= symbols);
        },
        Venue::Mexc => {
            assert(items =~= enclosed(
                symbols,
                "\"spot@public.aggre.bookTicker.v3.api.pb@10ms@"@,
                "\""@,
            ));
        },
        _ => {
            assert(items =~= enclosed(symbols, "\""@, "\""@));
        },
    }
}

/// With one more coin, Hyperliquid is asked for its published oracle as well, and for its
/// spot book where it has one; nothing is asked for without coins.
pub proof fn hyperliquid_is_asked_for_every_coin(assets: Seq<AssetView>, asset: AssetView)
    ensures
        hyperliquid_subscriptions_spec(Seq::empty()).len() == 0,
        ({
            let texts = hyperliquid_subscriptions_spec(assets);
            let more = hyperliquid_subscriptions_spec(assets.push(asset));
            let oracle =
                "{\"method\":\"subscribe\",\"subscription\":{\"type\":\"activeAssetCtx\",\"coin\":\""@
                + asset.coin + "\"}}"@;
            match asset.spot {
                Some(market) => more == texts.push(oracle).push(
                    "{\"method\":\"subscribe\",\"subscription\":{\"type\":\"bbo\",\"coin\":\""@
                        + market + "\"}}"@,
                ),
                None => more == texts.push(oracle),
            }
        }),
{
    assert(assets.push(asset).drop_last() =~= assets);
    assert(hyperliquid_subscriptions_spec(assets.push(asset)) =~= hyperliquid_subscriptions_spec(
        assets,
    ) + hyperliquid_requests(asset));
}

/// The expected sources are the venues that are configured to price the coin, and their
/// weight is the sum of their weights.
pub proof fn expected_sources_are_the_configured_venues(asset: AssetView)
    ensures
        ({
            let prices = |venue: Venue|
                if venue == Venue::Hyperliquid {
                    asset.spot is Some
                } else {
                    asset.external
                };
            let weight = |venue: Venue|
                if prices(venue) {
                    venue.weight_spec() as int
                } else {
                    0
                };
            &&& asset.expected_count() == all_venues().filter(prices).len()
            &&& asset.expected_weight() == weight(Venue::Binance) + weight(Venue::Okx) + weight(
                Venue::Bybit,
            ) + weight(Venue::Kraken) + weight(Venue::Kucoin) + weight(Venue::Gate) + weight(
                Venue::Mexc,
            ) + weight(Venue::Hyperliquid)
        }),
{
    reveal_with_fuel(Seq::filter, 9);
    let venues = all_venues();
    assert(venues.drop_last().drop_last().drop_last().drop_last().drop_last().drop_last()
        .drop_last().drop_last() =~= Seq::<Venue>::empty());
}

/// Among at most 65536 coins, a condition leads to the first coin that meets it, and to
/// none only where no coin does.
pub proof fn conditions_lead_to_the_first_coin(
    assets: Seq<AssetView>,
    condition: spec_fn(AssetView) -> bool,
)
    requires
        assets.len() <= 0x1_0000,
    ensures
        match index_where(assets, condition) {
            Some(found) => found < assets.len() && condition(assets[found as int]) && forall|i: int|
                0 <= i < found ==> !condition(#[trigger] assets[i]),
            None => forall|i: int| 0 <= i < assets.len() ==> !condition(#[trigger] assets[i]),
        },
{
    lemma_first_where(assets, condition, 0);
}

/// Hyperliquid is always connected to, each other venue exactly if some coin needs it,
/// and none twice.
pub proof fn venues_run_where_they_are_needed(assets: Seq<AssetView>, venue: Venue)
    ensures
        venues_to_run_spec(assets).contains(Venue::Hyperliquid),
        venue != Venue::Hyperliquid ==> (venues_to_run_spec(assets).contains(venue) <==> exists|
            i: int,
        | 0 <= i < assets.len() && (#[trigger] assets[i]).external),
        venues_to_run_spec(assets).no_duplicates(),
{
    let all = all_venues();
    assert(all[7] == Venue::Hyperliquid);
    assert(seq![Venue::Hyperliquid][0] == Venue::Hyperliquid);
    assert(all[venue.index_spec() as int] == venue);
    assert forall|i: int, j: int| 0 <= i < 8 && 0 <= j < 8 && i != j implies all[i] != all[j] by {
        assert(all[i].index_spec() == i && all[j].index_spec() == j);
    }
}

/// A KuCoin stream's address begins with the first server offered and carries the token;
/// there is none exactly if no server is offered.
pub proof fn kucoin_streams_carry_the_token(servers: Seq<Seq<char>>, token: Seq<char>)
    ensures
        kucoin_ws_url_spec(servers, token) is None <==> servers.len() == 0,
        kucoin_ws_url_spec(servers, token) matches Some(url) ==> {
            let query = "?token="@;
            let from = servers[0].len() + query.len();
            &&& url.len() == from + token.len() + "&connectId=hl-oracle"@.len()
            &&& url.subrange(0, servers[0].len() as int) == servers[0]
            &&& url.subrange(servers[0].len() as int, from as int) == query
            &&& url.subrange(from as int, (from + token.len()) as int) == token
            &&& url.subrange((from + token.len()) as int, url.len() as int)
                == "&connectId=hl-oracle"@
        },
{
    if let Some(url) = kucoin_ws_url_spec(servers, token) {
        let query = "?token="@;
        let from = servers[0].len() + query.len();
        assert(url.subrange(0, servers[0].len() as int) =~= servers[0]);
        assert(url.subrange(servers[0].len() as int, from as int) =~= query);
        assert(url.subrange(from as int, (from + token.len()) as int) =~= token);
        assert(url.subrange((from + token.len()) as int, url.len() as int)
            =~= "&connectId=hl-oracle"@);
    }
}

/// The views of coins show their fields, in order.
pub proof fn assets_show_their_fields(assets: Seq<Asset>, index: int)
    requires
        0 <= index < assets.len(),
    ensures
        asset_views(assets).len() == assets.len(),
        asset_views(assets)[index].coin == assets[index].coin@,
        asset_views(assets)[index].external == assets[index].include_external,
        asset_views(assets)[index].spot is Some <==> assets[index].hyperliquid_spot is Some,
        assets[index].hyperliquid_spot matches Some(spot) ==> asset_views(assets)[index].spot
            == Some(spot@),
{
}

} // verus!
