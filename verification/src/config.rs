//! From the names on a command line to the coins to price.

use vstd::prelude::*;
use vstd::string::StringExecFns;

use crate::sources::{asset_views, distinct_coins, Asset, AssetView};
use crate::text::{
    all_plain, ascii_lower, ascii_upper, characters, lowercased, quoted, quoted_text, same_text,
    searches_find_the_first_place, split_once, split_once_spec,
    splits_part_at_the_first_separator, text_of, to_ascii_uppercase, uppercased, views,
};

verus! {

/// The most coins that the external venues can price in one process.
pub const MAX_EXTERNAL_COINS: usize = 30;

/// Why a configuration is refused.
#[derive(Clone, Debug, PartialEq, Eq)]
pub enum ConfigError {
    /// A spot mapping without an equals sign.
    MalformedMapping(String),
    /// A spot mapping whose coin or market has an invalid name.
    InvalidMapping(String),
    /// A coin with an invalid name.
    UnsupportedCoin(String),
    /// A coin that is named twice.
    DuplicateCoin(String),
    /// External venues are asked for a coin that is not requested.
    UnknownExternalCoin(String),
    /// More coins than an external venue lets one connection subscribe to.
    TooManyExternalCoins,
}

/// Why a configuration is refused, by the characters of the culprit.
pub enum ConfigErrorView {
    /// A spot mapping without an equals sign.
    MalformedMapping(Seq<char>),
    /// A spot mapping whose coin or market has an invalid name.
    InvalidMapping(Seq<char>),
    /// A coin with an invalid name.
    UnsupportedCoin(Seq<char>),
    /// A coin that is named twice.
    DuplicateCoin(Seq<char>),
    /// External venues are asked for a coin that is not requested.
    UnknownExternalCoin(Seq<char>),
    /// More coins than an external venue lets one connection subscribe to.
    TooManyExternalCoins,
}

impl View for ConfigError {
    type V = ConfigErrorView;

    open spec fn view(&self) -> ConfigErrorView {
        match self {
            ConfigError::MalformedMapping(text) => ConfigErrorView::MalformedMapping(text@),
            ConfigError::InvalidMapping(text) => ConfigErrorView::InvalidMapping(text@),
            ConfigError::UnsupportedCoin(text) => ConfigErrorView::UnsupportedCoin(text@),
            ConfigError::DuplicateCoin(text) => ConfigErrorView::DuplicateCoin(text@),
            ConfigError::UnknownExternalCoin(text) => ConfigErrorView::UnknownExternalCoin(text@),
            ConfigError::TooManyExternalCoins => ConfigErrorView::TooManyExternalCoins,
        }
    }
}

impl ConfigErrorView {
    /// The error in words.
    pub open spec fn words(self) -> Seq<char> {
        match self {
            ConfigErrorView::MalformedMapping(text) => "invalid --hl-spot mapping "@ + quoted_text(
                text,
            ) + "; expected COIN=SPOT_COIN"@,
            ConfigErrorView::InvalidMapping(text) => "invalid --hl-spot mapping "@ + quoted_text(
                text,
            ),
            ConfigErrorView::UnsupportedCoin(text) => "unsupported coin name "@ + quoted_text(text),
            ConfigErrorView::DuplicateCoin(text) => "duplicate coin "@ + quoted_text(text),
            ConfigErrorView::UnknownExternalCoin(text) =>
            "--include-external-for must name a requested coin: "@ + quoted_text(text),
            ConfigErrorView::TooManyExternalCoins =>
            "at most 30 external coins are supported per process because MEXC limits a WebSocket connection to 30 subscriptions"@,
        }
    }
}

impl ConfigError {
    /// The error in words.
    pub fn message(&self) -> (message: String)
        ensures
            message@ == self@.words(),
    {
        let (start, culprit, end): (&str, &String, &str) = match self {
            ConfigError::MalformedMapping(text) => (
                "invalid --hl-spot mapping ",
                text,
                "; expected COIN=SPOT_COIN",
            ),
            ConfigError::InvalidMapping(text) => ("invalid --hl-spot mapping ", text, ""),
            ConfigError::UnsupportedCoin(text) => ("unsupported coin name ", text, ""),
            ConfigError::DuplicateCoin(text) => ("duplicate coin ", text, ""),
            ConfigError::UnknownExternalCoin(text) => (
                "--include-external-for must name a requested coin: ",
                text,
                "",
            ),
            ConfigError::TooManyExternalCoins => {
                return "at most 30 external coins are supported per process because MEXC limits a WebSocket connection to 30 subscriptions".to_owned();
            },
        };
        let mut message: String = start.to_owned();
        message.append(quoted(culprit.as_str()).as_str());
        message.append(end);
        proof {
            reveal_strlit("");
            assert(message@ =~= start@ + quoted_text(culprit@) + end@);
            assert(end@.len() == 0 ==> message@ =~= start@ + quoted_text(culprit@));
        }
        message
    }
}

/// An ASCII letter or digit.
pub open spec fn ascii_alphanumeric(character: char) -> bool {
    ('a' <= character <= 'z') || ('A' <= character <= 'Z') || ('0' <= character <= '9')
}

/// A character that coin names may have.
pub open spec fn coin_character(character: char) -> bool {
    ascii_alphanumeric(character) || character == ':' || character == '-'
}

/// A character that names of spot markets may have.
pub open spec fn spot_character(character: char) -> bool {
    coin_character(character) || character == '_' || character == '/'
}

/// A name that a coin can have.
pub open spec fn valid_coin_spec(name: Seq<char>) -> bool {
    name.len() > 0 && forall|i: int| 0 <= i < name.len() ==> coin_character(#[trigger] name[i])
}

/// A name that a spot market can have.
pub open spec fn valid_spot_symbol_spec(name: Seq<char>) -> bool {
    name.len() > 0 && forall|i: int| 0 <= i < name.len() ==> spot_character(#[trigger] name[i])
}

fn is_coin_character(character: char) -> (result: bool)
    ensures
        result == coin_character(character),
{
    ('a' <= character && character <= 'z') || ('A' <= character && character <= 'Z') || ('0'
        <= character && character <= '9') || character == ':' || character == '-'
}

/// Whether a coin can have this name.
pub fn valid_coin(value: &str) -> (result: bool)
    ensures
        result == valid_coin_spec(value@),
{
    let name: Vec<char> = characters(value);
    let mut index: usize = 0;
    while index < name.len()
        invariant
            index <= name.len(),
            name@ == value@,
            forall|i: int| 0 <= i < index ==> coin_character(#[trigger] name@[i]),
        decreases name.len() - index,
    {
        if !is_coin_character(name[index]) {
            return false;
        }
        index = index + 1;
    }
    name.len() > 0
}

/// Whether a spot market can have this name.
pub fn valid_spot_symbol(value: &str) -> (result: bool)
    ensures
        result == valid_spot_symbol_spec(value@),
{
    let name: Vec<char> = characters(value);
    let mut index: usize = 0;
    while index < name.len()
        invariant
            index <= name.len(),
            name@ == value@,
            forall|i: int| 0 <= i < index ==> spot_character(#[trigger] name@[i]),
        decreases name.len() - index,
    {
        let character: char = name[index];
        if !(is_coin_character(character) || character == '_' || character == '/') {
            return false;
        }
        index = index + 1;
    }
    name.len() > 0
}

/// Spot markets by coin.
pub type SpotTable = Map<Seq<char>, Seq<char>>;

/// The spot market that is there without any mapping.
pub open spec fn default_spots() -> SpotTable {
    Map::empty().insert("HYPE"@, "HYPE/USDC"@)
}

/// The table with one more mapping; a coin's later mapping replaces its earlier one.
pub open spec fn add_mapping(table: SpotTable, mapping: Seq<char>) -> Result<
    SpotTable,
    ConfigErrorView,
> {
    match split_once_spec(mapping, '=') {
        None => Err(ConfigErrorView::MalformedMapping(mapping)),
        Some((coin, symbol)) => if valid_coin_spec(uppercased(coin)) && valid_spot_symbol_spec(
            uppercased(symbol),
        ) {
            Ok(table.insert(uppercased(coin), uppercased(symbol)))
        } else {
            Err(ConfigErrorView::InvalidMapping(mapping))
        },
    }
}

/// The table of all mappings, or the first error among them.
pub open spec fn spot_table(mappings: Seq<Seq<char>>) -> Result<SpotTable, ConfigErrorView>
    decreases mappings.len(),
{
    if mappings.len() == 0 {
        Ok(default_spots())
    } else {
        match spot_table(mappings.drop_last()) {
            Ok(table) => add_mapping(table, mappings.last()),
            Err(error) => Err(error),
        }
    }
}

/// The requested coins in upper case, or the first error among them.
pub open spec fn requested_coins(coins: Seq<Seq<char>>) -> Result<Seq<Seq<char>>, ConfigErrorView>
    decreases coins.len(),
{
    if coins.len() == 0 {
        Ok(Seq::empty())
    } else {
        let coin = uppercased(coins.last());
        match requested_coins(coins.drop_last()) {
            Ok(earlier) => if !valid_coin_spec(coin) {
                Err(ConfigErrorView::UnsupportedCoin(coin))
            } else if earlier.contains(coin) {
                Err(ConfigErrorView::DuplicateCoin(coin))
            } else {
                Ok(earlier.push(coin))
            },
            Err(error) => Err(error),
        }
    }
}

/// The coins with external venues by request, or the first error among them.
pub open spec fn external_coins(names: Seq<Seq<char>>, coins: Seq<Seq<char>>) -> Result<
    Set<Seq<char>>,
    ConfigErrorView,
>
    decreases names.len(),
{
    if names.len() == 0 {
        Ok(Set::empty())
    } else {
        let coin = uppercased(names.last());
        match external_coins(names.drop_last(), coins) {
            Ok(earlier) => if valid_coin_spec(coin) && coins.contains(coin) {
                Ok(earlier.insert(coin))
            } else {
                Err(ConfigErrorView::UnknownExternalCoin(coin))
            },
            Err(error) => Err(error),
        }
    }
}

/// One coin: its spot market if it has one; external venues if it has none or by
/// request.
pub open spec fn asset_for(
    coin: Seq<char>,
    table: SpotTable,
    external: Set<Seq<char>>,
) -> AssetView {
    AssetView {
        coin,
        spot: if table.contains_key(coin) {
            Some(table[coin])
        } else {
            None
        },
        external: !table.contains_key(coin) || external.contains(coin),
    }
}

/// All coins.
pub open spec fn assets_for(
    coins: Seq<Seq<char>>,
    table: SpotTable,
    external: Set<Seq<char>>,
) -> Seq<AssetView> {
    coins.map_values(|coin: Seq<char>| asset_for(coin, table, external))
}

/// The number of coins that the external venues price.
pub open spec fn external_count(assets: Seq<AssetView>) -> nat
    decreases assets.len(),
{
    if assets.len() == 0 {
        0
    } else {
        external_count(assets.drop_last()) + if assets.last().external {
            1nat
        } else {
            0
        }
    }
}

/// The coins to price, or why the configuration is refused.
pub open spec fn build_assets_spec(
    coins: Seq<Seq<char>>,
    mappings: Seq<Seq<char>>,
    external_for: Seq<Seq<char>>,
) -> Result<Seq<AssetView>, ConfigErrorView> {
    match spot_table(mappings) {
        Err(error) => Err(error),
        Ok(table) => match requested_coins(coins) {
            Err(error) => Err(error),
            Ok(names) => match external_coins(external_for, names) {
                Err(error) => Err(error),
                Ok(external) => {
                    let assets = assets_for(names, table, external);
                    if external_count(assets) > MAX_EXTERNAL_COINS {
                        Err(ConfigErrorView::TooManyExternalCoins)
                    } else {
                        Ok(assets)
                    }
                },
            },
        },
    }
}

/// The pairs list each coin of the table once, with its market.
spec fn lists(pairs: Seq<(String, String)>, table: SpotTable) -> bool {
    &&& forall|i: int|
        0 <= i < pairs.len() ==> table.contains_key((#[trigger] pairs[i]).0@)
            && table[pairs[i].0@] == pairs[i].1@
    &&& forall|coin: Seq<char>| #[trigger]
        table.contains_key(coin) ==> exists|i: int|
            0 <= i < pairs.len() && (#[trigger] pairs[i]).0@ == coin
    &&& forall|i: int, j: int|
        0 <= i < j < pairs.len() ==> (#[trigger] pairs[i]).0@ != (#[trigger] pairs[j]).0@
}

fn position_of(pairs: &[(String, String)], coin: &str) -> (position: usize)
    ensures
        position <= pairs@.len(),
        position < pairs@.len() ==> pairs@[position as int].0@ == coin@,
        position == pairs@.len() ==> forall|i: int|
            0 <= i < pairs@.len() ==> (#[trigger] pairs@[i]).0@ != coin@,
{
    let mut index: usize = 0;
    while index < pairs.len()
        invariant
            index <= pairs.len(),
            forall|i: int| 0 <= i < index ==> (#[trigger] pairs@[i]).0@ != coin@,
        decreases pairs.len() - index,
    {
        if same_text(pairs[index].0.as_str(), coin) {
            return index;
        }
        index = index + 1;
    }
    index
}

fn read_mappings(mappings: &[String]) -> (result: Result<Vec<(String, String)>, ConfigError>)
    ensures
        match result {
            Ok(pairs) => spot_table(views(mappings@)) matches Ok(table) && lists(pairs@, table),
            Err(error) => spot_table(views(mappings@)) == Err::<SpotTable, ConfigErrorView>(error@),
        },
{
    let ghost all = views(mappings@);
    let ghost mut table = default_spots();
    let mut pairs: Vec<(String, String)> = Vec::new();
    pairs.push(("HYPE".to_owned(), "HYPE/USDC".to_owned()));
    proof {
        assert(pairs@[0].0@ == "HYPE"@);
    }
    let mut index: usize = 0;
    while index < mappings.len()
        invariant
            index <= mappings.len(),
            all == views(mappings@),
            spot_table(all.take(index as int)) == Ok::<SpotTable, ConfigErrorView>(table),
            lists(pairs@, table),
        decreases mappings.len() - index,
    {
        proof {
            assert(all.take(index + 1).drop_last() =~= all.take(index as int));
            assert(all.take(index + 1).last() == mappings@[index as int]@);
            lemma_first_error_stays_spot(all, index + 1);
        }
        let mapping: &String = &mappings[index];
        let (coin, symbol): (Vec<char>, Vec<char>) = match split_once(
            &characters(mapping.as_str()),
            '=',
        ) {
            Some(parts) => parts,
            None => {
                return Err(ConfigError::MalformedMapping(mapping.clone()));
            },
        };
        let coin: String = to_ascii_uppercase(text_of(&coin).as_str());
        let symbol: String = to_ascii_uppercase(text_of(&symbol).as_str());
        if !valid_coin(coin.as_str()) || !valid_spot_symbol(symbol.as_str()) {
            return Err(ConfigError::InvalidMapping(mapping.clone()));
        }
        let ghost before = pairs@;
        let ghost next = table.insert(coin@, symbol@);
        let place: usize = position_of(&pairs, coin.as_str());
        if place < pairs.len() {
            let ghost name = coin@;
            let ghost market = symbol@;
            pairs[place] = (coin, symbol);
            proof {
                assert forall|c: Seq<char>| #[trigger] next.contains_key(c) implies exists|i: int|
                    0 <= i < pairs@.len() && (#[trigger] pairs@[i]).0@ == c by {
                    if c == name {
                        assert(pairs@[place as int].0@ == c);
                    } else {
                        assert(table.contains_key(c));
                        let i = choose|i: int|
                            0 <= i < before.len() && (#[trigger] before[i]).0@ == c;
                        assert(pairs@[i] == before[i]);
                    }
                }
                assert forall|i: int| 0 <= i < pairs@.len() implies next.contains_key(
                    (#[trigger] pairs@[i]).0@,
                ) && next[pairs@[i].0@] == pairs@[i].1@ by {
                    if i != place {
                        assert(pairs@[i] == before[i]);
                        assert(before[i].0@ != before[place as int].0@);
                    }
                }
                assert forall|i: int, j: int| 0 <= i < j < pairs@.len() implies (
                #[trigger] pairs@[i]).0@ != (#[trigger] pairs@[j]).0@ by {
                    assert(before[i].0@ != before[j].0@);
                }
            }
        } else {
            let ghost name = coin@;
            pairs.push((coin, symbol));
            proof {
                assert forall|c: Seq<char>| #[trigger] next.contains_key(c) implies exists|i: int|
                    0 <= i < pairs@.len() && (#[trigger] pairs@[i]).0@ == c by {
                    if c == name {
                        assert(pairs@[before.len() as int].0@ == c);
                    } else {
                        assert(table.contains_key(c));
                        let i = choose|i: int|
                            0 <= i < before.len() && (#[trigger] before[i]).0@ == c;
                        assert(pairs@[i] == before[i]);
                    }
                }
                assert forall|i: int| 0 <= i < pairs@.len() implies next.contains_key(
                    (#[trigger] pairs@[i]).0@,
                ) && next[pairs@[i].0@] == pairs@[i].1@ by {
                    if i < before.len() {
                        assert(pairs@[i] == before[i]);
                    }
                }
                assert forall|i: int, j: int| 0 <= i < j < pairs@.len() implies (
                #[trigger] pairs@[i]).0@ != (#[trigger] pairs@[j]).0@ by {
                    assert(pairs@[i] == before[i]);
                }
            }
        }
        proof {
            table = next;
        }
        index = index + 1;
    }
    proof {
        assert(all.take(all.len() as int) =~= all);
    }
    Ok(pairs)
}

/// An error among the first mappings is the error of all of them.
proof fn lemma_first_error_stays_spot(all: Seq<Seq<char>>, length: int)
    requires
        0 <= length <= all.len(),
    ensures
        spot_table(all.take(length)) is Err ==> spot_table(all) == spot_table(all.take(length)),
    decreases all.len(),
{
    if length == all.len() {
        assert(all.take(length) =~= all);
    } else {
        lemma_first_error_stays_spot(all.drop_last(), length);
        assert(all.drop_last().take(length) =~= all.take(length));
    }
}

/// An error among the first coins is the error of all of them.
proof fn lemma_first_error_stays_coins(all: Seq<Seq<char>>, length: int)
    requires
        0 <= length <= all.len(),
    ensures
        requested_coins(all.take(length)) is Err ==> requested_coins(all) == requested_coins(
            all.take(length),
        ),
    decreases all.len(),
{
    if length == all.len() {
        assert(all.take(length) =~= all);
    } else {
        lemma_first_error_stays_coins(all.drop_last(), length);
        assert(all.drop_last().take(length) =~= all.take(length));
    }
}

/// An error among the first names is the error of all of them.
proof fn lemma_first_error_stays_external(
    all: Seq<Seq<char>>,
    coins: Seq<Seq<char>>,
    length: int,
)
    requires
        0 <= length <= all.len(),
    ensures
        external_coins(all.take(length), coins) is Err ==> external_coins(all, coins)
            == external_coins(all.take(length), coins),
    decreases all.len(),
{
    if length == all.len() {
        assert(all.take(length) =~= all);
    } else {
        lemma_first_error_stays_external(all.drop_last(), coins, length);
        assert(all.drop_last().take(length) =~= all.take(length));
    }
}

fn contains_text(texts: &[String], wanted: &str) -> (result: bool)
    ensures
        result == views(texts@).contains(wanted@),
{
    let ghost all = views(texts@);
    let mut index: usize = 0;
    while index < texts.len()
        invariant
            index <= texts.len(),
            all == views(texts@),
            forall|i: int| 0 <= i < index ==> all[i] != wanted@,
        decreases texts.len() - index,
    {
        assert(all[index as int] == texts@[index as int]@);
        if same_text(texts[index].as_str(), wanted) {
            return true;
        }
        index = index + 1;
    }
    false
}

fn read_coins(coins: &[String]) -> (result: Result<Vec<String>, ConfigError>)
    ensures
        match result {
            Ok(names) => requested_coins(views(coins@)) == Ok::<Seq<Seq<char>>, ConfigErrorView>(
                views(names@),
            ),
            Err(error) => requested_coins(views(coins@)) == Err::<
                Seq<Seq<char>>,
                ConfigErrorView,
            >(error@),
        },
{
    let ghost all = views(coins@);
    let mut names: Vec<String> = Vec::new();
    let mut index: usize = 0;
    proof {
        assert(views(names@) =~= Seq::<Seq<char>>::empty());
    }
    while index < coins.len()
        invariant
            index <= coins.len(),
            all == views(coins@),
            requested_coins(all.take(index as int)) == Ok::<Seq<Seq<char>>, ConfigErrorView>(
                views(names@),
            ),
        decreases coins.len() - index,
    {
        proof {
            assert(all.take(index + 1).drop_last() =~= all.take(index as int));
            assert(all.take(index + 1).last() == coins@[index as int]@);
            lemma_first_error_stays_coins(all, index + 1);
        }
        let coin: String = to_ascii_uppercase(coins[index].as_str());
        if !valid_coin(coin.as_str()) {
            return Err(ConfigError::UnsupportedCoin(coin));
        }
        if contains_text(&names, coin.as_str()) {
            return Err(ConfigError::DuplicateCoin(coin));
        }
        let ghost before = names@;
        let ghost name = coin@;
        names.push(coin);
        proof {
            assert(views(names@) =~= views(before).push(name));
        }
        index = index + 1;
    }
    proof {
        assert(all.take(all.len() as int) =~= all);
    }
    Ok(names)
}

fn read_external(names: &[String], coins: &[String]) -> (result: Result<
    Vec<String>,
    ConfigError,
>)
    ensures
        match result {
            Ok(chosen) => external_coins(views(names@), views(coins@)) == Ok::<
                Set<Seq<char>>,
                ConfigErrorView,
            >(views(chosen@).to_set()),
            Err(error) => external_coins(views(names@), views(coins@)) == Err::<
                Set<Seq<char>>,
                ConfigErrorView,
            >(error@),
        },
{
    let ghost all = views(names@);
    let mut chosen: Vec<String> = Vec::new();
    let mut index: usize = 0;
    proof {
        assert(views(chosen@).to_set() =~= Set::<Seq<char>>::empty());
    }
    while index < names.len()
        invariant
            index <= names.len(),
            all == views(names@),
            external_coins(all.take(index as int), views(coins@)) == Ok::<
                Set<Seq<char>>,
                ConfigErrorView,
            >(views(chosen@).to_set()),
        decreases names.len() - index,
    {
        proof {
            assert(all.take(index + 1).drop_last() =~= all.take(index as int));
            assert(all.take(index + 1).last() == names@[index as int]@);
            lemma_first_error_stays_external(all, views(coins@), index + 1);
        }
        let coin: String = to_ascii_uppercase(names[index].as_str());
        if !valid_coin(coin.as_str()) || !contains_text(coins, coin.as_str()) {
            return Err(ConfigError::UnknownExternalCoin(coin));
        }
        let ghost before = chosen@;
        let ghost name = coin@;
        chosen.push(coin);
        proof {
            assert(views(chosen@) =~= views(before).push(name));
            let grown = views(chosen@);
            assert forall|c: Seq<char>| #[trigger]
                grown.to_set().contains(c) == views(before).to_set().insert(name).contains(c) by {
                if c == name {
                    assert(grown[before.len() as int] == name);
                } else if views(before).contains(c) {
                    let i = choose|i: int| 0 <= i < before.len() && views(before)[i] == c;
                    assert(grown[i] == c);
                }
            }
            assert(grown.to_set() =~= views(before).to_set().insert(name));
        }
        index = index + 1;
    }
    proof {
        assert(all.take(all.len() as int) =~= all);
    }
    Ok(chosen)
}

/// The coins to price: every requested coin in upper case, with its spot market and
/// whether the external venues price it.
pub fn build_assets(
    coins: &[String],
    mappings: &[String],
    external_for: &[String],
) -> (result: Result<Vec<Asset>, ConfigError>)
    ensures
        match result {
            Ok(assets) => build_assets_spec(
                views(coins@),
                views(mappings@),
                views(external_for@),
            ) == Ok::<Seq<AssetView>, ConfigErrorView>(asset_views(assets@)),
            Err(error) => build_assets_spec(
                views(coins@),
                views(mappings@),
                views(external_for@),
            ) == Err::<Seq<AssetView>, ConfigErrorView>(error@),
        },
{
    let spots: Vec<(String, String)> = match read_mappings(mappings) {
        Ok(pairs) => pairs,
        Err(error) => {
            return Err(error);
        },
    };
    let names: Vec<String> = match read_coins(coins) {
        Ok(names) => names,
        Err(error) => {
            return Err(error);
        },
    };
    let chosen: Vec<String> = match read_external(external_for, &names) {
        Ok(chosen) => chosen,
        Err(error) => {
            return Err(error);
        },
    };
    let ghost table = spot_table(views(mappings@))->Ok_0;
    let ghost external = views(chosen@).to_set();
    let ghost wanted = assets_for(views(names@), table, external);
    let mut assets: Vec<Asset> = Vec::new();
    let mut externals: usize = 0;
    let mut index: usize = 0;
    proof {
        assert(asset_views(assets@) =~= wanted.take(0));
    }
    while index < names.len()
        invariant
            index <= names.len(),
            lists(spots@, table),
            external == views(chosen@).to_set(),
            wanted == assets_for(views(names@), table, external),
            asset_views(assets@) == wanted.take(index as int),
            externals == external_count(wanted.take(index as int)),
            externals <= index,
        decreases names.len() - index,
    {
        let coin: &String = &names[index];
        let place: usize = position_of(&spots, coin.as_str());
        let hyperliquid_spot: Option<String> = if place < spots.len() {
            Some(spots[place].1.clone())
        } else {
            None
        };
        let include_external: bool = place >= spots.len() || contains_text(
            &chosen,
            coin.as_str(),
        );
        let asset: Asset = Asset { coin: coin.clone(), hyperliquid_spot, include_external };
        let ghost before = assets@;
        proof {
            assert(views(names@)[index as int] == coin@);
            assert(wanted[index as int] == asset_for(coin@, table, external));
            if place >= spots@.len() {
                assert(!table.contains_key(coin@));
            }
            assert(asset@ =~= wanted[index as int]);
            assert(wanted.take(index + 1).drop_last() =~= wanted.take(index as int));
        }
        if asset.include_external {
            externals = externals + 1;
        }
        assets.push(asset);
        proof {
            assert(asset_views(assets@) =~= wanted.take(index + 1));
        }
        index = index + 1;
    }
    proof {
        assert(wanted.take(wanted.len() as int) =~= wanted);
    }
    if externals > MAX_EXTERNAL_COINS {
        return Err(ConfigError::TooManyExternalCoins);
    }
    Ok(assets)
}

/// Upper-casing again changes nothing.
pub proof fn uppercasing_settles(text: Seq<char>)
    ensures
        uppercased(uppercased(text)) == uppercased(text),
{
    assert(uppercased(uppercased(text)) =~= uppercased(text));
}

/// Two upper-case texts that differ still differ in lower case.
proof fn lemma_case_keeps_apart(left: Seq<char>, right: Seq<char>)
    requires
        uppercased(left) == left,
        uppercased(right) == right,
        lowercased(left) == lowercased(right),
    ensures
        left == right,
{
    assert(lowercased(left).len() == left.len());
    assert(lowercased(right).len() == right.len());
    assert forall|i: int| 0 <= i < left.len() implies left[i] == right[i] by {
        assert(uppercased(left)[i] == ascii_upper(left[i]));
        assert(uppercased(right)[i] == ascii_upper(right[i]));
        assert(lowercased(left)[i] == ascii_lower(left[i]));
        assert(lowercased(right)[i] == ascii_lower(right[i]));
    }
    assert(left =~= right);
}

/// The accepted coins are valid, in upper case and each there once.
proof fn lemma_requested(coins: Seq<Seq<char>>)
    ensures
        requested_coins(coins) matches Ok(names) ==> {
            &&& names == coins.map_values(|coin: Seq<char>| uppercased(coin))
            &&& forall|i: int| 0 <= i < names.len() ==> valid_coin_spec(#[trigger] names[i])
            &&& names.no_duplicates()
        },
    decreases coins.len(),
{
    if coins.len() > 0 {
        lemma_requested(coins.drop_last());
        if let Ok(names) = requested_coins(coins) {
            let earlier = requested_coins(coins.drop_last())->Ok_0;
            assert(names =~= coins.map_values(|coin: Seq<char>| uppercased(coin)));
            assert forall|i: int| 0 <= i < names.len() implies valid_coin_spec(
                #[trigger] names[i],
            ) by {
                if i < earlier.len() {
                    assert(names[i] == earlier[i]);
                }
            }
        }
    } else if let Ok(names) = requested_coins(coins) {
        assert(names =~= coins.map_values(|coin: Seq<char>| uppercased(coin)));
    }
}

/// An accepted configuration has one asset for each requested coin, in order and in
/// upper case; its names are valid and distinct whatever the case of their letters;
/// and the external venues price at most thirty of them.
pub proof fn accepted_assets_are_sound(
    coins: Seq<Seq<char>>,
    mappings: Seq<Seq<char>>,
    external_for: Seq<Seq<char>>,
)
    requires
        build_assets_spec(coins, mappings, external_for) is Ok,
    ensures
        ({
            let assets = build_assets_spec(coins, mappings, external_for)->Ok_0;
            &&& assets.len() == coins.len()
            &&& forall|i: int|
                0 <= i < assets.len() ==> (#[trigger] assets[i]).coin == uppercased(coins[i])
                    && valid_coin_spec(assets[i].coin)
            &&& distinct_coins(assets)
            &&& external_count(assets) <= 30
        }),
{
    lemma_requested(coins);
    let assets = build_assets_spec(coins, mappings, external_for)->Ok_0;
    let names = requested_coins(coins)->Ok_0;
    assert forall|i: int| 0 <= i < assets.len() implies (#[trigger] assets[i]).coin == uppercased(
        coins[i],
    ) && valid_coin_spec(assets[i].coin) by {
        assert(assets[i].coin == names[i]);
    }
    assert forall|i: int, j: int| 0 <= i < j < assets.len() implies lowercased(
        (#[trigger] assets[i]).coin,
    ) != lowercased((#[trigger] assets[j]).coin) by {
        uppercasing_settles(coins[i]);
        uppercasing_settles(coins[j]);
        assert(assets[i].coin == names[i] && assets[j].coin == names[j]);
        if lowercased(assets[i].coin) == lowercased(assets[j].coin) {
            lemma_case_keeps_apart(assets[i].coin, assets[j].coin);
        }
    }
}

/// Every accepted coin is priced by some venue: external venues are left out only
/// where a Hyperliquid spot market prices the coin.
pub proof fn every_coin_has_a_source(
    coins: Seq<Seq<char>>,
    mappings: Seq<Seq<char>>,
    external_for: Seq<Seq<char>>,
    index: int,
)
    requires
        build_assets_spec(coins, mappings, external_for) is Ok,
        0 <= index < coins.len(),
    ensures
        build_assets_spec(coins, mappings, external_for)->Ok_0.len() == coins.len(),
        ({
            let asset = build_assets_spec(coins, mappings, external_for)->Ok_0[index];
            &&& asset.external || asset.spot is Some
            &&& asset.expected_count() >= 1
            &&& asset.expected_weight() >= 1
        }),
{
    lemma_requested(coins);
}

/// Without any mapping, a coin other than HYPE is priced by the seven external
/// venues alone, and HYPE by its Hyperliquid spot market alone unless external
/// venues are asked for.
pub proof fn default_source_policy(
    coins: Seq<Seq<char>>,
    external_for: Seq<Seq<char>>,
    index: int,
)
    requires
        build_assets_spec(coins, Seq::empty(), external_for) is Ok,
        0 <= index < coins.len(),
    ensures
        ({
            let asset = build_assets_spec(coins, Seq::empty(), external_for)->Ok_0[index];
            &&& asset.coin != "HYPE"@ ==> asset.spot is None && asset.external
                && asset.expected_count() == 7 && asset.expected_weight() == 11
            &&& asset.coin == "HYPE"@ ==> asset.spot == Some("HYPE/USDC"@)
            &&& asset.coin == "HYPE"@ && external_for.len() == 0 ==> !asset.external
                && asset.expected_count() == 1 && asset.expected_weight() == 1
        }),
{
    lemma_requested(coins);
}

/// A mapping writes a coin's name, an equals sign and a market's name; in upper case they
/// are these.
pub open spec fn maps(mapping: Seq<char>, coin: Seq<char>, market: Seq<char>) -> bool {
    exists|name: Seq<char>, symbol: Seq<char>|
        !name.contains('=') && mapping == #[trigger] (name + seq!['='] + symbol) && uppercased(name)
            == coin && uppercased(symbol) == market
}

/// A mapping is about a coin.
pub open spec fn maps_coin(mapping: Seq<char>, coin: Seq<char>) -> bool {
    exists|market: Seq<char>| #[trigger] maps(mapping, coin, market)
}

/// What a mapping says, by its two parts.
proof fn lemma_maps(mapping: Seq<char>, coin: Seq<char>, market: Seq<char>)
    ensures
        maps(mapping, coin, market) <==> (split_once_spec(mapping, '=') matches Some((name, symbol))
            && uppercased(name) == coin && uppercased(symbol) == market),
{
    if maps(mapping, coin, market) {
        let (name, symbol) = choose|name: Seq<char>, symbol: Seq<char>|
            !name.contains('=') && mapping == #[trigger] (name + seq!['='] + symbol) && uppercased(
                name,
            ) == coin && uppercased(symbol) == market;
        splits_part_at_the_first_separator(name, '=', symbol);
    }
    if let Some((name, symbol)) = split_once_spec(mapping, '=') {
        lemma_split(mapping);
        assert(mapping == name + seq!['='] + symbol);
    }
}

proof fn lemma_split(mapping: Seq<char>)
    ensures
        match split_once_spec(mapping, '=') {
            Some((name, symbol)) => !name.contains('=') && mapping == name + seq!['='] + symbol,
            None => !mapping.contains('='),
        },
{
    searches_find_the_first_place(mapping, '=', 0);
    if let Some((name, symbol)) = split_once_spec(mapping, '=') {
        assert(mapping =~= name + seq!['='] + symbol);
        if name.contains('=') {
            let i = choose|i: int| 0 <= i < name.len() && name[i] == '=';
            assert(mapping[i] == '=');
        }
    } else if mapping.contains('=') {
        let i = choose|i: int| 0 <= i < mapping.len() && mapping[i] == '=';
        assert(mapping[i] == '=');
    }
}

/// The markets that accepted mappings give a coin.
proof fn lemma_table(mappings: Seq<Seq<char>>, coin: Seq<char>, market: Seq<char>, index: int)
    requires
        spot_table(mappings) is Ok,
    ensures
        ({
            let table = spot_table(mappings)->Ok_0;
            &&& 0 <= index < mappings.len() && maps(mappings[index], coin, market) && (forall|
                j: int,
            |
                index < j < mappings.len() ==> !maps_coin(#[trigger] mappings[j], coin))
                ==> table.contains_key(coin) && table[coin] == market
            &&& (forall|j: int| 0 <= j < mappings.len() ==> !maps_coin(#[trigger] mappings[j], coin))
                ==> (table.contains_key(coin) <==> coin == "HYPE"@) && (coin == "HYPE"@
                ==> table[coin] == "HYPE/USDC"@)
        }),
    decreases mappings.len(),
{
    if mappings.len() > 0 {
        let earlier = mappings.drop_last();
        let last = mappings.last();
        assert(mappings[mappings.len() - 1] == last);
        assert(spot_table(earlier) is Ok);
        lemma_table(earlier, coin, market, index);
        let (name, symbol) = split_once_spec(last, '=')->Some_0;
        lemma_maps(last, coin, market);
        lemma_maps(last, uppercased(name), uppercased(symbol));
        if 0 <= index < mappings.len() && maps(mappings[index], coin, market) && forall|j: int|
            index < j < mappings.len() ==> !maps_coin(#[trigger] mappings[j], coin) {
            if index < mappings.len() - 1 {
                assert(earlier[index] == mappings[index]);
                assert(!maps_coin(mappings[mappings.len() - 1], coin));
                assert(uppercased(name) != coin);
                assert forall|j: int| index < j < earlier.len() implies !maps_coin(
                    #[trigger] earlier[j],
                    coin,
                ) by {
                    assert(earlier[j] == mappings[j]);
                }
            }
        }
        if forall|j: int| 0 <= j < mappings.len() ==> !maps_coin(#[trigger] mappings[j], coin) {
            assert(!maps_coin(mappings[mappings.len() - 1], coin));
            assert(uppercased(name) != coin);
            assert forall|j: int| 0 <= j < earlier.len() implies !maps_coin(
                #[trigger] earlier[j],
                coin,
            ) by {
                assert(earlier[j] == mappings[j]);
            }
        }
    }
}

/// A coin's market is the one that the last mapping about it gives; without any mapping
/// HYPE has its default one, and another coin none. The external venues price a coin
/// exactly if it has no market or they are asked for.
pub proof fn assets_follow_the_mappings(
    coins: Seq<Seq<char>>,
    mappings: Seq<Seq<char>>,
    external_for: Seq<Seq<char>>,
    index: int,
    mapping: int,
    market: Seq<char>,
)
    requires
        build_assets_spec(coins, mappings, external_for) is Ok,
        0 <= index < coins.len(),
    ensures
        build_assets_spec(coins, mappings, external_for)->Ok_0.len() == coins.len(),
        ({
            let asset = build_assets_spec(coins, mappings, external_for)->Ok_0[index];
            let coin = uppercased(coins[index]);
            &&& asset.coin == coin
            &&& 0 <= mapping < mappings.len() && maps(mappings[mapping], coin, market) && (forall|
                j: int,
            |
                mapping < j < mappings.len() ==> !maps_coin(#[trigger] mappings[j], coin))
                ==> asset.spot == Some(market)
            &&& (forall|j: int| 0 <= j < mappings.len() ==> !maps_coin(#[trigger] mappings[j], coin))
                ==> asset.spot == if coin == "HYPE"@ {
                Some("HYPE/USDC"@)
            } else {
                None
            }
            &&& asset.external <==> asset.spot is None || exists|i: int|
                0 <= i < external_for.len() && uppercased(#[trigger] external_for[i]) == coin
        }),
{
    lemma_requested(coins);
    let names = requested_coins(coins)->Ok_0;
    let coin = uppercased(coins[index]);
    assert(names[index] == coin);
    lemma_table(mappings, coin, market, mapping);
    lemma_external(external_for, names, coin);
}

proof fn lemma_external(external_for: Seq<Seq<char>>, names: Seq<Seq<char>>, coin: Seq<char>)
    requires
        external_coins(external_for, names) is Ok,
    ensures
        external_coins(external_for, names)->Ok_0.contains(coin) <==> exists|i: int|
            0 <= i < external_for.len() && uppercased(#[trigger] external_for[i]) == coin,
    decreases external_for.len(),
{
    if external_for.len() > 0 {
        let earlier = external_for.drop_last();
        lemma_external(earlier, names, coin);
        let chosen = external_coins(external_for, names)->Ok_0;
        if chosen.contains(coin) {
            if uppercased(external_for.last()) == coin {
                assert(uppercased(external_for[external_for.len() - 1]) == coin);
            } else {
                let i = choose|i: int|
                    0 <= i < earlier.len() && uppercased(#[trigger] earlier[i]) == coin;
                assert(uppercased(external_for[i]) == coin);
            }
        }
        if exists|i: int|
            0 <= i < external_for.len() && uppercased(#[trigger] external_for[i]) == coin {
            let i = choose|i: int|
                0 <= i < external_for.len() && uppercased(#[trigger] external_for[i]) == coin;
            if i < earlier.len() {
                assert(uppercased(earlier[i]) == coin);
            }
        }
    }
}

/// A mapping can be accepted: it has an equals sign, a coin's name before the first one and
/// a market's behind it.
pub open spec fn acceptable_mapping(mapping: Seq<char>) -> bool {
    exists|coin: Seq<char>, market: Seq<char>|
        #[trigger] maps(mapping, coin, market) && valid_coin_spec(coin) && valid_spot_symbol_spec(
            market,
        )
}

proof fn lemma_acceptable(mapping: Seq<char>)
    ensures
        acceptable_mapping(mapping) <==> (split_once_spec(mapping, '=') matches Some((name, symbol))
            && valid_coin_spec(uppercased(name)) && valid_spot_symbol_spec(uppercased(symbol))),
{
    if acceptable_mapping(mapping) {
        let (coin, market) = choose|coin: Seq<char>, market: Seq<char>|
            #[trigger] maps(mapping, coin, market) && valid_coin_spec(coin)
                && valid_spot_symbol_spec(market);
        lemma_maps(mapping, coin, market);
    }
    if let Some((name, symbol)) = split_once_spec(mapping, '=') {
        lemma_maps(mapping, uppercased(name), uppercased(symbol));
    }
}

proof fn lemma_table_accepted(mappings: Seq<Seq<char>>)
    ensures
        spot_table(mappings) is Ok <==> forall|i: int|
            0 <= i < mappings.len() ==> acceptable_mapping(#[trigger] mappings[i]),
        spot_table(mappings) matches Err(error) ==> match error {
            ConfigErrorView::MalformedMapping(text) => mappings.contains(text) && !text.contains(
                '=',
            ),
            ConfigErrorView::InvalidMapping(text) => mappings.contains(text) && text.contains('=')
                && !acceptable_mapping(text),
            _ => false,
        },
    decreases mappings.len(),
{
    if mappings.len() > 0 {
        let earlier = mappings.drop_last();
        let last = mappings.last();
        lemma_table_accepted(earlier);
        lemma_acceptable(last);
        lemma_split(last);
        assert(mappings[mappings.len() - 1] == last);
        if let Some((name, symbol)) = split_once_spec(last, '=') {
            assert(last[name.len() as int] == '=');
        }
        if spot_table(mappings) is Ok {
            assert forall|i: int| 0 <= i < mappings.len() implies acceptable_mapping(
                #[trigger] mappings[i],
            ) by {
                if i < earlier.len() {
                    assert(earlier[i] == mappings[i]);
                }
            }
        }
        if forall|i: int| 0 <= i < mappings.len() ==> acceptable_mapping(#[trigger] mappings[i]) {
            assert forall|i: int| 0 <= i < earlier.len() implies acceptable_mapping(
                #[trigger] earlier[i],
            ) by {
                assert(earlier[i] == mappings[i]);
            }
        }
        if spot_table(earlier) is Err {
            match spot_table(earlier)->Err_0 {
                ConfigErrorView::MalformedMapping(text) | ConfigErrorView::InvalidMapping(text) => {
                    let i = choose|i: int| 0 <= i < earlier.len() && earlier[i] == text;
                    assert(mappings[i] == text);
                },
                _ => {},
            }
        }
    }
}

/// Two requested coins are the same but for the case of their letters.
pub open spec fn named_twice(coins: Seq<Seq<char>>, coin: Seq<char>) -> bool {
    exists|i: int, j: int|
        0 <= i < j < coins.len() && uppercased(#[trigger] coins[i]) == coin && uppercased(
            #[trigger] coins[j],
        ) == coin
}

proof fn lemma_coins_accepted(coins: Seq<Seq<char>>)
    ensures
        requested_coins(coins) is Ok <==> (forall|i: int|
            0 <= i < coins.len() ==> valid_coin_spec(uppercased(#[trigger] coins[i]))) && (forall|
            coin: Seq<char>,
        | !#[trigger] named_twice(coins, coin)),
        requested_coins(coins) matches Err(error) ==> match error {
            ConfigErrorView::UnsupportedCoin(coin) => !valid_coin_spec(coin) && exists|i: int|
                0 <= i < coins.len() && uppercased(#[trigger] coins[i]) == coin,
            ConfigErrorView::DuplicateCoin(coin) => named_twice(coins, coin),
            _ => false,
        },
    decreases coins.len(),
{
    lemma_requested(coins);
    if coins.len() > 0 {
        let earlier = coins.drop_last();
        let last = coins.len() - 1;
        let coin = uppercased(coins.last());
        lemma_coins_accepted(earlier);
        lemma_requested(earlier);
        assert(coins[last] == coins.last());
        assert forall|other: Seq<char>| #[trigger] named_twice(earlier, other) implies named_twice(
            coins,
            other,
        ) by {
            let (i, j) = choose|i: int, j: int|
                0 <= i < j < earlier.len() && uppercased(#[trigger] earlier[i]) == other
                    && uppercased(#[trigger] earlier[j]) == other;
            assert(uppercased(coins[i]) == other && uppercased(coins[j]) == other);
        }
        if let Ok(names) = requested_coins(earlier) {
            if names.contains(coin) {
                let i = choose|i: int| 0 <= i < names.len() && names[i] == coin;
                assert(names[i] == uppercased(earlier[i]));
                assert(uppercased(coins[i]) == coin && uppercased(coins[last]) == coin);
                assert(named_twice(coins, coin));
            }
            if requested_coins(coins) is Ok {
                assert forall|other: Seq<char>| !#[trigger] named_twice(coins, other) by {
                    if named_twice(coins, other) {
                        let (i, j) = choose|i: int, j: int|
                            0 <= i < j < coins.len() && uppercased(#[trigger] coins[i]) == other
                                && uppercased(#[trigger] coins[j]) == other;
                        let all = requested_coins(coins)->Ok_0;
                        assert(all[i] == other && all[j] == other);
                    }
                }
                assert forall|i: int| 0 <= i < coins.len() implies valid_coin_spec(
                    uppercased(#[trigger] coins[i]),
                ) by {
                    if i < last {
                        assert(earlier[i] == coins[i]);
                    }
                }
            }
        }
        if requested_coins(earlier) is Err {
            match requested_coins(earlier)->Err_0 {
                ConfigErrorView::UnsupportedCoin(other) => {
                    let i = choose|i: int|
                        0 <= i < earlier.len() && uppercased(#[trigger] earlier[i]) == other;
                    assert(uppercased(coins[i]) == other);
                    assert(!valid_coin_spec(uppercased(coins[i])));
                },
                ConfigErrorView::DuplicateCoin(other) => {
                    assert(named_twice(coins, other));
                },
                _ => {},
            }
        }
    } else {
        assert forall|coin: Seq<char>| !#[trigger] named_twice(coins, coin) by {}
    }
}

proof fn lemma_external_accepted(external_for: Seq<Seq<char>>, names: Seq<Seq<char>>)
    requires
        forall|i: int| 0 <= i < names.len() ==> valid_coin_spec(#[trigger] names[i]),
    ensures
        external_coins(external_for, names) is Ok <==> forall|i: int|
            0 <= i < external_for.len() ==> names.contains(uppercased(#[trigger] external_for[i])),
        external_coins(external_for, names) matches Err(error) ==> (error
            matches ConfigErrorView::UnknownExternalCoin(coin) && !names.contains(coin)
            && exists|i: int|
            0 <= i < external_for.len() && uppercased(#[trigger] external_for[i]) == coin),
    decreases external_for.len(),
{
    if external_for.len() > 0 {
        let earlier = external_for.drop_last();
        let last = external_for.len() - 1;
        lemma_external_accepted(earlier, names);
        assert(external_for[last] == external_for.last());
        if external_coins(external_for, names) is Ok {
            assert forall|i: int| 0 <= i < external_for.len() implies names.contains(
                uppercased(#[trigger] external_for[i]),
            ) by {
                if i < last {
                    assert(earlier[i] == external_for[i]);
                }
            }
        }
        if forall|i: int|
            0 <= i < external_for.len() ==> names.contains(uppercased(#[trigger] external_for[i])) {
            assert forall|i: int| 0 <= i < earlier.len() implies names.contains(
                uppercased(#[trigger] earlier[i]),
            ) by {
                assert(earlier[i] == external_for[i]);
            }
        }
        if external_coins(earlier, names) is Err {
            let coin = external_coins(earlier, names)->Err_0->UnknownExternalCoin_0;
            let i = choose|i: int|
                0 <= i < earlier.len() && uppercased(#[trigger] earlier[i]) == coin;
            assert(uppercased(external_for[i]) == coin);
        }
    }
}

/// A configuration is accepted exactly if every mapping is well formed, every coin has a
/// valid name and is requested once, external venues are asked for requested coins only,
/// and they price at most thirty coins. Else the error names a culprit of its kind.
pub proof fn configurations_are_accepted_exactly(
    coins: Seq<Seq<char>>,
    mappings: Seq<Seq<char>>,
    external_for: Seq<Seq<char>>,
)
    ensures
        ({
            let result = build_assets_spec(coins, mappings, external_for);
            let mapped = forall|i: int|
                0 <= i < mappings.len() ==> acceptable_mapping(#[trigger] mappings[i]);
            let valid = forall|i: int|
                0 <= i < coins.len() ==> valid_coin_spec(uppercased(#[trigger] coins[i]));
            let once = forall|coin: Seq<char>| !#[trigger] named_twice(coins, coin);
            let known = forall|i: int|
                0 <= i < external_for.len() ==> coins.map_values(
                    |coin: Seq<char>| uppercased(coin),
                ).contains(uppercased(#[trigger] external_for[i]));
            &&& result matches Ok(assets) ==> mapped && valid && once && known && assets.filter(
                |asset: AssetView| asset.external,
            ).len() <= 30
            &&& result matches Err(error) ==> match error {
                ConfigErrorView::MalformedMapping(text) => mappings.contains(text)
                    && !text.contains('='),
                ConfigErrorView::InvalidMapping(text) => mappings.contains(text) && text.contains(
                    '=',
                ) && !acceptable_mapping(text),
                ConfigErrorView::UnsupportedCoin(coin) => mapped && !valid_coin_spec(coin)
                    && exists|i: int|
                    0 <= i < coins.len() && uppercased(#[trigger] coins[i]) == coin,
                ConfigErrorView::DuplicateCoin(coin) => mapped && named_twice(coins, coin),
                ConfigErrorView::UnknownExternalCoin(coin) => mapped && valid && once
                    && !coins.map_values(|name: Seq<char>| uppercased(name)).contains(coin)
                    && exists|i: int|
                    0 <= i < external_for.len() && uppercased(#[trigger] external_for[i]) == coin,
                ConfigErrorView::TooManyExternalCoins => mapped && valid && once && known
                    && coins.len() > 30,
            }
        }),
{
    lemma_table_accepted(mappings);
    lemma_coins_accepted(coins);
    lemma_requested(coins);
    if spot_table(mappings) is Ok && requested_coins(coins) is Ok {
        let names = requested_coins(coins)->Ok_0;
        lemma_external_accepted(external_for, names);
        if let Ok(external) = external_coins(external_for, names) {
            let assets = assets_for(names, spot_table(mappings)->Ok_0, external);
            lemma_count(assets);
        }
    }
}

proof fn lemma_count(assets: Seq<AssetView>)
    ensures
        external_count(assets) == assets.filter(|asset: AssetView| asset.external).len(),
        external_count(assets) <= assets.len(),
    decreases assets.len(),
{
    reveal(Seq::filter);
    if assets.len() > 0 {
        lemma_count(assets.drop_last());
    }
}

/// Thirty external coins are accepted and one more is not: where all else is in order, a
/// configuration is refused exactly if the external venues would price more than thirty.
pub proof fn at_most_thirty_external_coins(
    coins: Seq<Seq<char>>,
    mappings: Seq<Seq<char>>,
    external_for: Seq<Seq<char>>,
)
    requires
        spot_table(mappings) is Ok,
        requested_coins(coins) is Ok,
        external_coins(external_for, requested_coins(coins)->Ok_0) is Ok,
    ensures
        build_assets_spec(coins, mappings, external_for) is Ok <==> assets_for(
            requested_coins(coins)->Ok_0,
            spot_table(mappings)->Ok_0,
            external_coins(external_for, requested_coins(coins)->Ok_0)->Ok_0,
        ).filter(|asset: AssetView| asset.external).len() <= 30,
{
    lemma_count(
        assets_for(
            requested_coins(coins)->Ok_0,
            spot_table(mappings)->Ok_0,
            external_coins(external_for, requested_coins(coins)->Ok_0)->Ok_0,
        ),
    );
}

/// A name is valid exactly if it has a character and each is an ASCII letter or digit, a
/// colon or a hyphen; a market's may also have underscores and slashes.
pub proof fn names_have_plain_characters(name: Seq<char>)
    ensures
        valid_coin_spec(name) <==> name.len() > 0 && forall|i: int|
            0 <= i < name.len() ==> {
                let code = (#[trigger] name[i]) as int;
                (48 <= code <= 57) || (65 <= code <= 90) || (97 <= code <= 122) || code == 58
                    || code == 45
            },
        valid_spot_symbol_spec(name) <==> name.len() > 0 && forall|i: int|
            0 <= i < name.len() ==> {
                let code = (#[trigger] name[i]) as int;
                (48 <= code <= 57) || (65 <= code <= 90) || (97 <= code <= 122) || code == 58
                    || code == 45 || code == 95 || code == 47
            },
{
}

/// An error says what is wrong and quotes the culprit, whatever printable text without
/// quotes and backslashes that is.
pub proof fn errors_quote_the_culprit(error: ConfigError, culprit: String, message: String)
    requires
        forall|i: int|
            0 <= i < culprit@.len() ==> ' ' <= (#[trigger] culprit@[i]) <= '~' && culprit@[i] != '"'
                && culprit@[i] != '\\',
        call_ensures(ConfigError::message, (&error,), message),
    ensures
        ({
            let quote = seq!['"'] + culprit@ + seq!['"'];
            &&& error == ConfigError::MalformedMapping(culprit) ==> message@
                == "invalid --hl-spot mapping "@ + quote + "; expected COIN=SPOT_COIN"@
            &&& error == ConfigError::InvalidMapping(culprit) ==> message@
                == "invalid --hl-spot mapping "@ + quote
            &&& error == ConfigError::UnsupportedCoin(culprit) ==> message@
                == "unsupported coin name "@ + quote
            &&& error == ConfigError::DuplicateCoin(culprit) ==> message@ == "duplicate coin "@
                + quote
            &&& error == ConfigError::UnknownExternalCoin(culprit) ==> message@
                == "--include-external-for must name a requested coin: "@ + quote
        }),
{
    assert(all_plain(culprit@));
}

} // verus!
