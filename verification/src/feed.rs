//! A feed's configuration, and what it makes of each update.

use vstd::prelude::*;
use vstd::string::StringExecFns;

use crate::config::{
    assets_follow_the_mappings, build_assets, build_assets_spec, ConfigError, ConfigErrorView,
};
use crate::float::arithmetic::lemma_size_zero;
use crate::float::bounds::gap;
use crate::float::Binary64;
use crate::model::{all_venues, FeedStats, Update, Venue, VENUE_COUNT};
use crate::oracle::{
    comparison_is_unique, fresh_quotes_are_all_fresh_quotes, mids_are_in_the_middle,
    valid_bbo_spec, valid_books_are_not_crossed, Comparison, Official, OracleBook, Quote,
};
use crate::sources::{asset_views, Asset, AssetView};
use crate::text::{uppercased, views};
use crate::time::{Duration, Instant};

verus! {

/// Configuration for an [`OracleFeed`]: by default a 1500 ms quote window, a 6000 ms
/// official window, and a queue of 8192.
#[derive(Clone, Debug)]
pub struct OracleBuilder {
    coins: Vec<String>,
    hl_spot: Vec<String>,
    include_external_for: Vec<String>,
    max_quote_age: Duration,
    max_official_age: Duration,
    queue_capacity: usize,
}

/// A feed's configuration, by the characters of its names.
#[verifier::ext_equal]
pub struct BuilderView {
    /// The perp coins.
    pub coins: Seq<Seq<char>>,
    /// The spot mappings.
    pub spot: Seq<Seq<char>>,
    /// The coins that the external venues price as well.
    pub external: Seq<Seq<char>>,
    /// The freshness window for quotes.
    pub max_quote_age: Duration,
    /// The freshness window for published prices.
    pub max_official_age: Duration,
    /// The capacity of the queue.
    pub queue_capacity: usize,
}

impl View for OracleBuilder {
    type V = BuilderView;

    closed spec fn view(&self) -> BuilderView {
        BuilderView {
            coins: views(self.coins@),
            spot: views(self.hl_spot@),
            external: views(self.include_external_for@),
            max_quote_age: self.max_quote_age,
            max_official_age: self.max_official_age,
            queue_capacity: self.queue_capacity,
        }
    }
}

impl OracleBuilder {
    /// Starts a configuration for the given perp coins.
    pub fn new(coins: Vec<String>) -> (builder: OracleBuilder)
        ensures
            builder@ == (BuilderView {
                coins: views(coins@),
                spot: Seq::empty(),
                external: Seq::empty(),
                max_quote_age: Duration { nanos: 1_500_000_000 },
                max_official_age: Duration { nanos: 6_000_000_000 },
                queue_capacity: 8_192,
            }),
    {
        let builder: OracleBuilder = OracleBuilder {
            coins,
            hl_spot: Vec::new(),
            include_external_for: Vec::new(),
            max_quote_age: Duration::from_millis(1_500),
            max_official_age: Duration::from_millis(6_000),
            queue_capacity: 8_192,
        };
        proof {
            assert(builder@.spot =~= Seq::<Seq<char>>::empty());
            assert(builder@.external =~= Seq::<Seq<char>>::empty());
        }
        builder
    }

    /// Maps a coin to a Hyperliquid spot market.
    pub fn hl_spot(self, coin: &str, spot: &str) -> (builder: OracleBuilder)
        ensures
            builder@ == (BuilderView {
                spot: self@.spot.push(coin@ + "="@ + spot@),
                ..self@
            }),
    {
        let mut mapping: String = coin.to_owned();
        mapping.append("=");
        mapping.append(spot);
        self.hl_spot_mapping(mapping)
    }

    /// Adds a raw `COIN=SPOT_COIN` mapping, as accepted on the command line.
    pub fn hl_spot_mapping(self, mapping: String) -> (builder: OracleBuilder)
        ensures
            builder@ == (BuilderView { spot: self@.spot.push(mapping@), ..self@ }),
    {
        let mut builder: OracleBuilder = self;
        builder.hl_spot.push(mapping);
        proof {
            assert(builder@.spot =~= self@.spot.push(mapping@));
        }
        builder
    }

    /// Enables external venues for a coin whose main spot market is on Hyperliquid.
    pub fn include_external_for(self, coin: String) -> (builder: OracleBuilder)
        ensures
            builder@ == (BuilderView { external: self@.external.push(coin@), ..self@ }),
    {
        let mut builder: OracleBuilder = self;
        builder.include_external_for.push(coin);
        proof {
            assert(builder@.external =~= self@.external.push(coin@));
        }
        builder
    }

    /// Freshness window for exchange and Hyperliquid-spot books.
    pub fn max_quote_age(self, age: Duration) -> (builder: OracleBuilder)
        ensures
            builder@ == (BuilderView { max_quote_age: age, ..self@ }),
    {
        let mut builder: OracleBuilder = self;
        builder.max_quote_age = age;
        builder
    }

    /// Freshness window for the published oracle.
    pub fn max_official_age(self, age: Duration) -> (builder: OracleBuilder)
        ensures
            builder@ == (BuilderView { max_official_age: age, ..self@ }),
    {
        let mut builder: OracleBuilder = self;
        builder.max_official_age = age;
        builder
    }

    /// Capacity of the bounded queue between the readers and the consumer.
    pub fn queue_capacity(self, capacity: usize) -> (builder: OracleBuilder)
        ensures
            builder@ == (BuilderView { queue_capacity: capacity, ..self@ }),
    {
        let mut builder: OracleBuilder = self;
        builder.queue_capacity = capacity;
        builder
    }

    /// The capacity of the bounded queue.
    pub fn capacity(&self) -> (capacity: usize)
        ensures
            capacity == self@.queue_capacity,
    {
        self.queue_capacity
    }

    /// Sets up the feed.
    pub fn spawn(self) -> (result: Result<OracleFeed, FeedError>)
        ensures
            spawned(self@, result),
    {
        OracleFeed::spawn(self)
    }
}

/// Why a feed does not start.
#[derive(Clone, Debug)]
pub enum FeedError {
    /// The queue could hold nothing.
    EmptyQueue,
    /// The configuration is refused.
    Config(ConfigError),
}

impl FeedError {
    /// The error in words.
    pub open spec fn words(self) -> Seq<char> {
        match self {
            FeedError::EmptyQueue => "queue_capacity must be greater than zero"@,
            FeedError::Config(error) => error@.words(),
        }
    }

    /// The error in words.
    pub fn message(&self) -> (message: String)
        ensures
            message@ == self.words(),
    {
        match self {
            FeedError::EmptyQueue => "queue_capacity must be greater than zero".to_owned(),
            FeedError::Config(error) => error.message(),
        }
    }
}

/// What setting up a feed gives: an error for an empty queue or a refused
/// configuration, else a feed with the configured coins that has seen nothing.
pub open spec fn spawned(builder: BuilderView, result: Result<OracleFeed, FeedError>) -> bool {
    let assets = build_assets_spec(builder.coins, builder.spot, builder.external);
    match result {
        Ok(feed) => {
            &&& builder.queue_capacity > 0
            &&& assets == Ok::<Seq<AssetView>, ConfigErrorView>(feed.asset_list())
            &&& feed.wf()
            &&& feed.book().quote_window() == builder.max_quote_age
            &&& feed.book().official_window() == builder.max_official_age
            &&& forall|a: int, v: crate::model::Venue|
                0 <= a < feed.asset_list().len() ==> #[trigger] feed.book().quote(a, v) is None
            &&& forall|a: int|
                0 <= a < feed.asset_list().len() ==> #[trigger] feed.book().official(a) is None
            &&& forall|a: int|
                0 <= a < feed.asset_list().len() ==> #[trigger] feed.emitted()[a] is None
        },
        Err(FeedError::EmptyQueue) => builder.queue_capacity == 0,
        Err(FeedError::Config(error)) => builder.queue_capacity > 0 && assets == Err::<
            Seq<AssetView>,
            ConfigErrorView,
        >(error@),
    }
}

/// A change in a coin's comparison, returned by [`OracleFeed::recv`].
#[derive(Clone, Copy, Debug)]
pub struct OracleUpdate {
    /// The coin's index among the feed's assets.
    pub asset: usize,
    /// The recomputed comparison.
    pub comparison: Comparison,
}

/// The coin that an update is about.
pub open spec fn updated_asset(update: Update) -> int {
    match update {
        Update::Quote(quote) => quote.asset as int,
        Update::Official(official) => official.asset as int,
    }
}

/// A book takes over an update: its coin is known, and its prices are valid and not
/// crossed.
pub open spec fn taken(book: OracleBook, update: Update) -> bool {
    match update {
        Update::Quote(quote) => valid_bbo_spec(quote.bid, quote.ask) && quote.asset < book.count(),
        Update::Official(official) => official.oracle.positive_finite() && official.asset
            < book.count(),
    }
}

/// One book is another after an update that it takes over.
pub open spec fn taken_over(before: OracleBook, update: Update, after: OracleBook) -> bool {
    match update {
        Update::Quote(quote) => {
            &&& after.quote(quote.asset as int, quote.venue) == Some(
                Quote {
                    mid: quote.bid.midpoint_spec(quote.ask),
                    received_at: quote.received_at,
                },
            )
            &&& after.same_quotes_except(before, quote.asset as int, quote.venue)
            &&& after.same_officials(before)
        },
        Update::Official(official) => {
            &&& after.official(official.asset as int) == Some(
                Official { price: official.oracle, received_at: official.received_at },
            )
            &&& after.same_officials_except(before, official.asset as int)
            &&& after.same_quotes(before)
        },
    }
}

/// Takes over an update, and says whether the book did.
pub(crate) fn take_over(book: &mut OracleBook, update: Update) -> (accepted: bool)
    requires
        old(book).wf(),
    ensures
        final(book).wf(),
        final(book).count() == old(book).count(),
        accepted == taken(*old(book), update),
        accepted ==> taken_over(*old(book), update, *final(book)),
        !accepted ==> *final(book) == *old(book),
{
    match update {
        Update::Quote(quote) => book.apply_quote(quote),
        Update::Official(official) => book.apply_official(official),
    }
}

/// There is a fresh quote for a coin.
pub open spec fn priced(book: OracleBook, asset: int, now: Instant) -> bool {
    0 <= asset < book.count() && book.fresh_quotes(asset, now, VENUE_COUNT as nat).len() > 0
}

/// The comparison is the one emitted last.
pub open spec fn repeats(last: Option<Comparison>, value: Comparison) -> bool {
    last matches Some(previous) && previous.same(value)
}

/// One feed is another after it received an update, with `result` handed out. The update
/// is taken over or leaves the book as it was. The coin's comparison is handed out exactly
/// where the update was taken over, the coin has a price, and the comparison is not the
/// one emitted last; it is then the one emitted last.
pub open spec fn received(
    before: OracleFeed,
    update: Update,
    now: Instant,
    after: OracleFeed,
    result: Option<OracleUpdate>,
) -> bool {
    let asset = updated_asset(update);
    let accepted = taken(before.book(), update);
    &&& after.asset_list() == before.asset_list()
    &&& accepted ==> taken_over(before.book(), update, after.book())
    &&& !accepted ==> after.book() == before.book()
    &&& match result {
        Some(change) => {
            &&& accepted
            &&& change.asset == asset
            &&& priced(after.book(), asset, now)
            &&& after.book().compares(asset, now, change.comparison)
            &&& !repeats(before.emitted()[asset], change.comparison)
            &&& after.emitted() == before.emitted().update(asset, Some(change.comparison))
        },
        None => {
            &&& after.emitted() == before.emitted()
            &&& accepted && priced(after.book(), asset, now) ==> forall|value: Comparison|
                #[trigger] after.book().compares(asset, now, value) ==> repeats(
                    before.emitted()[asset],
                    value,
                )
        },
    }
}

/// The aggregating side of a feed: the books, and what was emitted last.
pub struct OracleFeed {
    book: OracleBook,
    assets: Vec<Asset>,
    last_emitted: Vec<Option<Comparison>>,
}

impl OracleFeed {
    /// The book of all quotes and published prices.
    pub closed spec fn book(self) -> OracleBook {
        self.book
    }

    /// The configured coins.
    pub closed spec fn asset_list(self) -> Seq<AssetView> {
        asset_views(self.assets@)
    }

    /// For each coin, the comparison that was emitted last.
    pub closed spec fn emitted(self) -> Seq<Option<Comparison>> {
        self.last_emitted@
    }

    /// The book, and the list of what was emitted, have a place for each coin.
    pub open spec fn wf(self) -> bool {
        &&& self.book().wf()
        &&& self.book().count() == self.asset_list().len()
        &&& self.emitted().len() == self.asset_list().len()
    }

    /// Sets up the feed: an empty book and nothing emitted.
    pub fn spawn(builder: OracleBuilder) -> (result: Result<OracleFeed, FeedError>)
        ensures
            spawned(builder@, result),
    {
        if builder.queue_capacity == 0 {
            return Err(FeedError::EmptyQueue);
        }
        let assets: Vec<Asset> = match build_assets(
            &builder.coins,
            &builder.hl_spot,
            &builder.include_external_for,
        ) {
            Ok(assets) => assets,
            Err(error) => {
                return Err(FeedError::Config(error));
            },
        };
        let count: usize = assets.len();
        let mut last_emitted: Vec<Option<Comparison>> = Vec::new();
        let mut index: usize = 0;
        while index < count
            invariant
                index <= count,
                last_emitted@.len() == index,
                forall|i: int| 0 <= i < index ==> #[trigger] last_emitted@[i] is None,
            decreases count - index,
        {
            last_emitted.push(None);
            index = index + 1;
        }
        Ok(
            OracleFeed {
                book: OracleBook::new(count, builder.max_quote_age, builder.max_official_age),
                assets,
                last_emitted,
            },
        )
    }

    /// Takes over an update, and returns the coin's comparison if there is one and it
    /// differs from the one emitted last.
    pub fn recv(&mut self, update: Update, now: Instant) -> (result: Option<OracleUpdate>)
        requires
            old(self).wf(),
        ensures
            final(self).wf(),
            received(*old(self), update, now, *final(self), result),
    {
        let asset: usize = match update {
            Update::Quote(quote) => quote.asset as usize,
            Update::Official(official) => official.asset as usize,
        };
        if !take_over(&mut self.book, update) {
            return None;
        }
        match self.book.comparison(asset, now) {
            None => None,
            Some(comparison) => {
                let repeated: bool = match self.last_emitted[asset] {
                    Some(previous) => previous.is_same(&comparison),
                    None => false,
                };
                if repeated {
                    proof {
                        assert forall|value: Comparison| #[trigger]
                            self.book.compares(asset as int, now, value) implies repeats(
                            self.last_emitted@[asset as int],
                            value,
                        ) by {
                            comparison_is_unique(
                                self.book,
                                asset as int,
                                now,
                                comparison,
                                value,
                            );
                        }
                    }
                    return None;
                }
                self.last_emitted.set(asset, Some(comparison));
                Some(OracleUpdate { asset, comparison })
            },
        }
    }

    /// The current comparison for a coin, computed on demand. `None` before the coin
    /// has any fresh source, or for an out-of-range index.
    pub fn latest(&self, asset: usize, now: Instant) -> (result: Option<Comparison>)
        requires
            self.wf(),
        ensures
            result is Some <==> priced(self.book(), asset as int, now),
            result matches Some(value) ==> self.book().compares(asset as int, now, value),
    {
        if asset >= self.assets.len() {
            return None;
        }
        self.book.comparison(asset, now)
    }

    /// The perp coin name for an asset index.
    pub fn coin(&self, asset: usize) -> (name: Option<&str>)
        ensures
            match name {
                Some(text) => asset < self.asset_list().len() && text@ == self.asset_list()[
                asset as int].coin,
                None => asset >= self.asset_list().len(),
            },
    {
        if asset < self.assets.len() {
            Some(self.assets[asset].coin.as_str())
        } else {
            None
        }
    }

    /// The configured assets, in index order.
    pub fn assets(&self) -> (assets: &[Asset])
        ensures
            asset_views(assets@) == self.asset_list(),
    {
        self.assets.as_slice()
    }

    /// Total updates that the readers dropped because the queue was full.
    pub fn dropped_updates(&self, stats: &FeedStats) -> (count: u64)
        ensures
            count == stats.dropped(),
    {
        stats.dropped_updates()
    }
}

/// One update that a feed received, and what it handed out for it.
pub struct Receipt {
    /// The update.
    pub update: Update,
    /// When it was received.
    pub now: Instant,
    /// What was handed out.
    pub result: Option<OracleUpdate>,
}

/// A feed went through the given states, one more than updates, as it received updates one
/// after the other; at first it had emitted nothing.
pub open spec fn ran(feeds: Seq<OracleFeed>, receipts: Seq<Receipt>) -> bool {
    &&& feeds.len() == receipts.len() + 1
    &&& forall|i: int| 0 <= i < feeds.len() ==> (#[trigger] feeds[i]).wf()
    &&& forall|a: int|
        0 <= a < feeds[0].asset_list().len() ==> #[trigger] feeds[0].emitted()[a] is None
    &&& forall|i: int|
        #![trigger receipts[i]]
        0 <= i < receipts.len() ==> received(
            feeds[i],
            receipts[i].update,
            receipts[i].now,
            feeds[i + 1],
            receipts[i].result,
        )
}

/// The comparison handed out last for a coin.
pub open spec fn handed_out_last(receipts: Seq<Receipt>, asset: int) -> Option<Comparison>
    decreases receipts.len(),
{
    if receipts.len() == 0 {
        None
    } else {
        match receipts.last().result {
            Some(change) => if change.asset == asset {
                Some(change.comparison)
            } else {
                handed_out_last(receipts.drop_last(), asset)
            },
            None => handed_out_last(receipts.drop_last(), asset),
        }
    }
}

/// After any updates, what a feed keeps as emitted last is what it handed out last.
pub proof fn emitted_was_handed_out_last(
    feeds: Seq<OracleFeed>,
    receipts: Seq<Receipt>,
    asset: int,
)
    requires
        ran(feeds, receipts),
        0 <= asset < feeds[0].asset_list().len(),
    ensures
        feeds.last().asset_list() == feeds[0].asset_list(),
        feeds.last().emitted()[asset] == handed_out_last(receipts, asset),
    decreases receipts.len(),
{
    if receipts.len() > 0 {
        let earlier = feeds.drop_last();
        let before = receipts.drop_last();
        assert forall|i: int|
            #![trigger before[i]]
            0 <= i < before.len() implies received(
            earlier[i],
            before[i].update,
            before[i].now,
            earlier[i + 1],
            before[i].result,
        ) by {
            assert(before[i] == receipts[i]);
        }
        emitted_was_handed_out_last(earlier, before, asset);
        let last = receipts.len() - 1;
        assert(receipts[last] == receipts.last());
        assert(feeds[last].wf());
    }
}

/// In any run of updates, a comparison is handed out only right after an update that was
/// taken over: that of the update's own coin, which is one of the feed's, and not the one
/// handed out last for it. An update that is refused changes no book and hands nothing
/// out. Where nothing is handed out after one that was taken over, the coin has no price,
/// or its comparison is the one handed out last.
pub proof fn only_changes_are_handed_out(
    feeds: Seq<OracleFeed>,
    receipts: Seq<Receipt>,
    index: int,
)
    requires
        ran(feeds, receipts),
        0 <= index < receipts.len(),
    ensures
        ({
            let before = feeds[index].book();
            let after = feeds[index + 1].book();
            let receipt = receipts[index];
            let asset = updated_asset(receipt.update);
            let last = handed_out_last(receipts.take(index), asset);
            &&& receipt.result matches Some(change) ==> {
                &&& taken(before, receipt.update)
                &&& taken_over(before, receipt.update, after)
                &&& change.asset == asset
                &&& asset < feeds[0].asset_list().len()
                &&& after.compares(asset, receipt.now, change.comparison)
                &&& !repeats(last, change.comparison)
            }
            &&& !taken(before, receipt.update) ==> receipt.result is None && after == before
            &&& receipt.result is None && taken(before, receipt.update) && priced(
                after,
                asset,
                receipt.now,
            ) ==> forall|value: Comparison|
                #[trigger] after.compares(asset, receipt.now, value) ==> repeats(last, value)
        }),
{
    let earlier = feeds.take(index + 1);
    let before = receipts.take(index);
    assert forall|i: int|
        #![trigger before[i]]
        0 <= i < before.len() implies received(
        earlier[i],
        before[i].update,
        before[i].now,
        earlier[i + 1],
        before[i].result,
    ) by {
        assert(before[i] == receipts[i]);
    }
    assert(feeds[index].wf());
    let asset = updated_asset(receipts[index].update);
    assert(earlier.last() == feeds[index]);
    if taken(feeds[index].book(), receipts[index].update) {
        lemma_same_assets(feeds, receipts, index);
        emitted_was_handed_out_last(earlier, before, asset);
    }
}

/// A feed keeps its coins.
proof fn lemma_same_assets(feeds: Seq<OracleFeed>, receipts: Seq<Receipt>, index: int)
    requires
        ran(feeds, receipts),
        0 <= index < feeds.len(),
    ensures
        feeds[index].asset_list() == feeds[0].asset_list(),
    decreases index,
{
    if index > 0 {
        lemma_same_assets(feeds, receipts, index - 1);
        assert(received(
            feeds[index - 1],
            receipts[index - 1].update,
            receipts[index - 1].now,
            feeds[index - 1 + 1],
            receipts[index - 1].result,
        ));
    }
}

/// A book takes over exactly the updates of its own coins whose prices are positive and
/// finite, a quote's bid not above its ask.
pub proof fn sound_updates_are_taken(book: OracleBook, update: Update)
    ensures
        taken(book, update) <==> match update {
            Update::Quote(quote) => {
                &&& quote.asset < book.count()
                &&& quote.bid.finite() && quote.ask.finite()
                &&& 0 < quote.bid.units() <= quote.ask.units()
            },
            Update::Official(official) => {
                &&& official.asset < book.count()
                &&& official.oracle.finite() && official.oracle.units() > 0
            },
        },
        updated_asset(update) == match update {
            Update::Quote(quote) => quote.asset as int,
            Update::Official(official) => official.asset as int,
        },
{
    if let Update::Quote(quote) = update {
        valid_books_are_not_crossed(quote.bid, quote.ask);
    }
    if let Update::Official(official) = update {
        lemma_size_zero(official.oracle.magnitude_bits());
    }
}

/// A quote that is taken over is the venue's for that coin from then on, with the middle
/// of its prices and the time of its receipt, and replaces nothing else; a published price
/// is the coin's, and replaces no quote.
pub proof fn updates_replace_their_own(
    before: OracleBook,
    update: Update,
    after: OracleBook,
    asset: int,
    venue: Venue,
    other: Binary64,
)
    requires
        taken(before, update),
        taken_over(before, update, after),
        0 <= asset < after.count(),
        other.positive_finite(),
    ensures
        match update {
            Update::Quote(quote) => {
                let held = after.quote(quote.asset as int, quote.venue);
                &&& held is Some && held->Some_0.received_at == quote.received_at
                &&& gap(2 * held->Some_0.mid.units(), quote.bid.units() + quote.ask.units()) <= gap(
                    2 * other.units(),
                    quote.bid.units() + quote.ask.units(),
                )
                &&& asset != quote.asset || venue != quote.venue ==> after.quote(asset, venue)
                    == before.quote(asset, venue)
                &&& after.official(asset) == before.official(asset)
            },
            Update::Official(official) => {
                let held = after.official(official.asset as int);
                &&& held is Some && held->Some_0.received_at == official.received_at
                &&& held->Some_0.price == official.oracle
                &&& asset != official.asset ==> after.official(asset) == before.official(asset)
                &&& after.quote(asset, venue) == before.quote(asset, venue)
            },
        },
        after.count() == before.count(),
        after.quote_window() == before.quote_window(),
        after.official_window() == before.official_window(),
{
    if let Update::Quote(quote) = update {
        mids_are_in_the_middle(quote.bid, quote.ask, other);
    }
}

/// A coin has a price exactly while some venue's quote for it is fresh.
pub proof fn fresh_quotes_price_a_coin(book: OracleBook, asset: int, now: Instant, venue: Venue)
    requires
        0 <= asset < book.count(),
    ensures
        book.fresh(asset, venue, now) ==> priced(book, asset, now),
        (forall|v: Venue| !#[trigger] book.fresh(asset, v, now)) ==> !priced(book, asset, now),
{
    fresh_quotes_are_all_fresh_quotes(book, asset, now, VENUE_COUNT as nat);
    let fresh = |v: Venue| book.fresh(asset, v, now);
    let venues = all_venues();
    assert(venues.take(VENUE_COUNT as int) =~= venues);
    if book.fresh(asset, venue, now) {
        assert(venues[venue.index_spec() as int] == venue);
        venues.lemma_filter_contains(fresh, venue.index_spec() as int);
    }
    if forall|v: Venue| !#[trigger] book.fresh(asset, v, now) {
        if venues.filter(fresh).len() > 0 {
            venues.lemma_filter_pred(fresh, 0);
            assert(book.fresh(asset, venues.filter(fresh)[0], now));
        }
    }
}

/// Nothing repeats what was never emitted, and a value repeats another exactly if the two
/// are the same.
pub proof fn repeats_are_the_same(last: Option<Comparison>, value: Comparison)
    ensures
        last is None ==> !repeats(last, value),
        last matches Some(previous) ==> (repeats(last, value) <==> previous.same(value)),
{
}

/// A feed uses the windows that its configuration names and has one place for each coin
/// asked for, in their order; it begins with an empty book and nothing emitted. An empty
/// queue, and only that, is refused as such.
pub proof fn feeds_are_as_configured(
    coins: Vec<String>,
    quote_age: Duration,
    official_age: Duration,
    capacity: usize,
    start: OracleBuilder,
    second: OracleBuilder,
    third: OracleBuilder,
    last: OracleBuilder,
    shown: usize,
    result: Result<OracleFeed, FeedError>,
)
    requires
        call_ensures(OracleBuilder::new, (coins,), start),
        call_ensures(OracleBuilder::max_quote_age, (start, quote_age), second),
        call_ensures(OracleBuilder::max_official_age, (second, official_age), third),
        call_ensures(OracleBuilder::queue_capacity, (third, capacity), last),
        call_ensures(OracleBuilder::capacity, (&last,), shown),
        call_ensures(OracleBuilder::spawn, (last,), result),
    ensures
        shown == capacity,
        capacity == 0 <==> result matches Err(FeedError::EmptyQueue),
        result matches Ok(feed) ==> {
            &&& feed.wf()
            &&& feed.book().quote_window() == quote_age
            &&& feed.book().official_window() == official_age
            &&& coins@.len() > 0 ==> feed.asset_list().len() == coins@.len()
            &&& forall|i: int|
                0 <= i < coins@.len() ==> {
                    &&& (#[trigger] feed.asset_list()[i]).coin == uppercased(coins@[i]@)
                    &&& feed.book().official(i) is None
                    &&& feed.emitted()[i] is None
                    &&& forall|venue: crate::model::Venue| #[trigger]
                        feed.book().quote(i, venue) is None
                }
        },
{
    if result is Ok {
        let names = views(coins@);
        let none = Seq::<Seq<char>>::empty();
        if coins@.len() > 0 {
            assets_follow_the_mappings(names, none, none, 0, 0, Seq::empty());
        }
        assert forall|i: int| 0 <= i < coins@.len() implies (
        #[trigger] result->Ok_0.asset_list()[i]).coin == uppercased(coins@[i]@) by {
            assets_follow_the_mappings(names, none, none, i, 0, Seq::empty());
            assert(names[i] == coins@[i]@);
        }
        let feed = result->Ok_0;
        assert forall|i: int| 0 <= i < coins@.len() implies feed.book().official(i) is None
            && feed.emitted()[i] is None by {}
        assert forall|i: int, venue: Venue| 0 <= i < coins@.len() implies #[trigger]
        feed.book().quote(i, venue) is None by {}
    }
}

/// Without further settings the windows are one and a half and six seconds and the queue
/// holds 8192 updates.
pub proof fn settings_have_defaults(
    coins: Vec<String>,
    builder: OracleBuilder,
    capacity: usize,
    result: Result<OracleFeed, FeedError>,
)
    requires
        call_ensures(OracleBuilder::new, (coins,), builder),
        call_ensures(OracleBuilder::capacity, (&builder,), capacity),
        call_ensures(OracleFeed::spawn, (builder,), result),
    ensures
        capacity == 8_192,
        !(result matches Err(FeedError::EmptyQueue)),
        result matches Ok(feed) ==> {
            &&& feed.book().quote_window().nanos == 1_500_000_000
            &&& feed.book().official_window().nanos == 6_000_000_000
        },
{
}

/// Each setting changes its own part of a configuration: a mapping joins a coin and its
/// market by an equals sign and stands behind the earlier ones, and so does a coin that
/// the external venues price.
pub proof fn settings_change_their_own_part(
    builder: OracleBuilder,
    coin: &str,
    spot: &str,
    mapping: String,
    name: String,
    by_names: OracleBuilder,
    by_text: OracleBuilder,
    by_coin: OracleBuilder,
)
    requires
        call_ensures(OracleBuilder::hl_spot, (builder, coin, spot), by_names),
        call_ensures(OracleBuilder::hl_spot_mapping, (builder, mapping), by_text),
        call_ensures(OracleBuilder::include_external_for, (builder, name), by_coin),
    ensures
        mapping@ == coin@ + seq!['='] + spot@ ==> by_names@ == by_text@,
        by_text@.spot.drop_last() == builder@.spot && by_text@.spot.last() == mapping@,
        by_coin@.external.drop_last() == builder@.external && by_coin@.external.last() == name@,
        by_text@.coins == builder@.coins && by_coin@.coins == builder@.coins,
        by_text@.external == builder@.external && by_coin@.spot == builder@.spot,
        by_text@.max_quote_age == builder@.max_quote_age,
        by_coin@.max_quote_age == builder@.max_quote_age,
        by_text@.max_official_age == builder@.max_official_age,
        by_coin@.max_official_age == builder@.max_official_age,
        by_text@.queue_capacity == builder@.queue_capacity,
        by_coin@.queue_capacity == builder@.queue_capacity,
{
    reveal_strlit("=");
    assert("="@ =~= seq!['=']);
}

/// A feed shows its coins by their index, the comparison that its book makes, and how
/// many updates were dropped.
pub proof fn feeds_show_what_they_hold(
    feed: OracleFeed,
    asset: usize,
    now: Instant,
    name: Option<&str>,
    latest: Option<Comparison>,
    stats: FeedStats,
    count: u64,
    dropped: u64,
)
    requires
        feed.wf(),
        call_ensures(OracleFeed::coin, (&feed, asset), name),
        call_ensures(OracleFeed::latest, (&feed, asset, now), latest),
        call_ensures(OracleFeed::dropped_updates, (&feed, &stats), count),
        call_ensures(FeedStats::dropped_updates, (&stats,), dropped),
    ensures
        count == dropped,
        name is None <==> asset >= feed.asset_list().len(),
        name matches Some(text) ==> text@ == feed.asset_list()[asset as int].coin,
        latest is Some <==> asset < feed.asset_list().len() && exists|venue: Venue| #[trigger]
            feed.book().fresh(asset as int, venue, now),
        latest matches Some(value) ==> feed.book().compares(asset as int, now, value),
{
    if asset < feed.asset_list().len() {
        let book = feed.book();
        if exists|venue: Venue| #[trigger] book.fresh(asset as int, venue, now) {
            let venue = choose|venue: Venue| #[trigger] book.fresh(asset as int, venue, now);
            fresh_quotes_price_a_coin(book, asset as int, now, venue);
        } else {
            fresh_quotes_price_a_coin(book, asset as int, now, Venue::Binance);
        }
    }
}

} // verus!
