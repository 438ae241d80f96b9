//! Venues, the updates that they send, and the feed's counters.

use vstd::prelude::*;

use crate::float::Binary64;
use crate::time::Instant;

verus! {

/// The number of venues that can price a coin.
pub const VENUE_COUNT: usize = 8;

/// A source of spot prices.
#[derive(Clone, Copy, Debug, PartialEq, Eq, Structural)]
pub enum Venue {
    /// Binance spot.
    Binance,
    /// OKX spot.
    Okx,
    /// Bybit spot.
    Bybit,
    /// Kraken spot.
    Kraken,
    /// KuCoin spot.
    Kucoin,
    /// Gate spot.
    Gate,
    /// MEXC spot.
    Mexc,
    /// Hyperliquid's own spot books.
    Hyperliquid,
}

/// Every venue, in index order.
pub open spec fn all_venues() -> Seq<Venue> {
    seq![
        Venue::Binance,
        Venue::Okx,
        Venue::Bybit,
        Venue::Kraken,
        Venue::Kucoin,
        Venue::Gate,
        Venue::Mexc,
        Venue::Hyperliquid,
    ]
}

impl Venue {
    /// Every venue, in index order.
    pub const ALL: [Venue; VENUE_COUNT] = [
        Venue::Binance,
        Venue::Okx,
        Venue::Bybit,
        Venue::Kraken,
        Venue::Kucoin,
        Venue::Gate,
        Venue::Mexc,
        Venue::Hyperliquid,
    ];

    /// The venue's place among all venues.
    pub open spec fn index_spec(self) -> nat {
        match self {
            Venue::Binance => 0,
            Venue::Okx => 1,
            Venue::Bybit => 2,
            Venue::Kraken => 3,
            Venue::Kucoin => 4,
            Venue::Gate => 5,
            Venue::Mexc => 6,
            Venue::Hyperliquid => 7,
        }
    }

    /// The venue's weight in the oracle's median.
    pub open spec fn weight_spec(self) -> u8 {
        match self {
            Venue::Binance => 3,
            Venue::Okx | Venue::Bybit => 2,
            _ => 1,
        }
    }

    /// The venue's name.
    pub open spec fn name_spec(self) -> Seq<char> {
        match self {
            Venue::Binance => "binance"@,
            Venue::Okx => "okx"@,
            Venue::Bybit => "bybit"@,
            Venue::Kraken => "kraken"@,
            Venue::Kucoin => "kucoin"@,
            Venue::Gate => "gate"@,
            Venue::Mexc => "mexc"@,
            Venue::Hyperliquid => "hyperliquid_spot"@,
        }
    }

    /// The venue's place among all venues.
    pub fn index(self) -> (index: usize)
        ensures
            index == self.index_spec(),
            index < VENUE_COUNT,
            all_venues()[index as int] == self,
    {
        match self {
            Venue::Binance => 0,
            Venue::Okx => 1,
            Venue::Bybit => 2,
            Venue::Kraken => 3,
            Venue::Kucoin => 4,
            Venue::Gate => 5,
            Venue::Mexc => 6,
            Venue::Hyperliquid => 7,
        }
    }

    /// The venue's weight in the oracle's median.
    pub fn weight(self) -> (weight: u8)
        ensures
            weight == self.weight_spec(),
    {
        match self {
            Venue::Binance => 3,
            Venue::Okx | Venue::Bybit => 2,
            _ => 1,
        }
    }

    /// The venue's name.
    pub fn name(self) -> (name: &'static str)
        ensures
            name@ == self.name_spec(),
    {
        match self {
            Venue::Binance => "binance",
            Venue::Okx => "okx",
            Venue::Bybit => "bybit",
            Venue::Kraken => "kraken",
            Venue::Kucoin => "kucoin",
            Venue::Gate => "gate",
            Venue::Mexc => "mexc",
            Venue::Hyperliquid => "hyperliquid_spot",
        }
    }
}

/// The best bid and ask of one venue's book for one coin.
#[derive(Clone, Copy, Debug, PartialEq, Eq, Structural)]
pub struct QuoteUpdate {
    /// The venue that sent it.
    pub venue: Venue,
    /// The coin's index among the configured assets.
    pub asset: u16,
    /// The best bid.
    pub bid: Binary64,
    /// The best ask.
    pub ask: Binary64,
    /// When it was received.
    pub received_at: Instant,
    /// Local receipt wall-clock minus the exchange's send timestamp, in
    /// milliseconds. `None` when the venue does not timestamp its messages.
    pub latency_ms: Option<i64>,
}

/// The oracle price that Hyperliquid publishes for one coin.
#[derive(Clone, Copy, Debug, PartialEq, Eq, Structural)]
pub struct OfficialUpdate {
    /// The coin's index among the configured assets.
    pub asset: u16,
    /// The published price.
    pub oracle: Binary64,
    /// When it was received.
    pub received_at: Instant,
}

/// What a reader hands to the aggregator.
#[derive(Clone, Copy, Debug, PartialEq, Eq, Structural)]
pub enum Update {
    /// A venue's quote.
    Quote(QuoteUpdate),
    /// The published oracle.
    Official(OfficialUpdate),
}

/// The count after one more dropped update; it wraps around.
pub open spec fn one_more_dropped(count: u64) -> u64 {
    if count == u64::MAX {
        0
    } else {
        (count + 1) as u64
    }
}

/// The count after `drops` more dropped updates.
pub open spec fn after_drops(count: u64, drops: nat) -> u64
    decreases drops,
{
    if drops == 0 {
        count
    } else {
        one_more_dropped(after_drops(count, (drops - 1) as nat))
    }
}

/// No drop is lost: after any number of drops the count has grown by that number,
/// modulo 2^64.
pub proof fn drops_add_up(count: u64, drops: nat)
    ensures
        after_drops(count, drops) == (count + drops) % 0x1_0000_0000_0000_0000,
    decreases drops,
{
    if drops > 0 {
        drops_add_up(count, (drops - 1) as nat);
    }
}

/// Counters of a running feed.
#[derive(Clone, Copy, Debug, PartialEq, Eq, Structural)]
pub struct FeedStats {
    dropped_updates: u64,
}

impl FeedStats {
    /// The number of updates that did not enter the queue, modulo 2^64.
    pub closed spec fn dropped(self) -> u64 {
        self.dropped_updates
    }

    /// Counts one more dropped update; the count wraps around.
    pub fn record_drop(&mut self)
        ensures
            final(self).dropped() == one_more_dropped(old(self).dropped()),
    {
        self.dropped_updates = self.dropped_updates.wrapping_add(1);
    }

    /// How many updates were dropped.
    pub fn dropped_updates(&self) -> (count: u64)
        ensures
            count == self.dropped(),
    {
        self.dropped_updates
    }
}

impl Default for FeedStats {
    fn default() -> (stats: FeedStats)
        ensures
            stats.dropped() == 0,
    {
        FeedStats { dropped_updates: 0 }
    }
}

/// Each venue has a place of its own in the list of all, and a name of its own.
pub proof fn venues_have_their_places(left: Venue, right: Venue)
    ensures
        all_venues().len() == VENUE_COUNT,
        left.index_spec() < VENUE_COUNT,
        all_venues()[left.index_spec() as int] == left,
        left != right ==> left.index_spec() != right.index_spec(),
        left != right ==> left.name_spec() != right.name_spec(),
{
    reveal_strlit("binance");
    reveal_strlit("okx");
    reveal_strlit("bybit");
    reveal_strlit("kraken");
    reveal_strlit("kucoin");
    reveal_strlit("gate");
    reveal_strlit("mexc");
    reveal_strlit("hyperliquid_spot");
    assert("binance"@.len() == 7);
    assert("okx"@.len() == 3);
    assert("bybit"@.len() == 5);
    assert("kraken"@.len() == 6 && "kraken"@[1] == 'r');
    assert("kucoin"@.len() == 6 && "kucoin"@[1] == 'u');
    assert("gate"@.len() == 4 && "gate"@[0] == 'g');
    assert("mexc"@.len() == 4 && "mexc"@[0] == 'm');
    assert("hyperliquid_spot"@.len() == 16);
}

} // verus!
