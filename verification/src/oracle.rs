//! The book of quotes and the weighted median over its fresh ones.

use vstd::arithmetic::power2::pow2;
use vstd::prelude::*;

use crate::float::arithmetic::{lemma_size_zero, one_in_units};
use crate::float::bounds::{gap, sums_are_exact};
use crate::float::round::{
    doubles_lie_apart, doubles_round_to_themselves, lemma_magnitude_increases, lemma_magnitude_of, lemma_magnitude_step,
    lemma_nearest_bound, lemma_nearest_is, lemma_nearest_zero, lemma_powers, magnitude, nearest,
    reached_is_a_bound, rounding_is_closest, rounding_keeps_sides, INFINITY_BITS,
};
use crate::float::Binary64;
use crate::model::{all_venues, OfficialUpdate, QuoteUpdate, Venue, VENUE_COUNT};
use crate::time::{Duration, Instant};

verus! {

/// A price and the weight of its source.
pub type Weighted = (Binary64, u8);

/// The sum of all weights.
pub open spec fn total_weight(values: Seq<Weighted>) -> nat
    decreases values.len(),
{
    if values.len() == 0 {
        0
    } else {
        total_weight(values.drop_last()) + values.last().1 as nat
    }
}

/// The sum of the weights of all prices up to a place in the total order.
pub open spec fn weight_up_to(values: Seq<Weighted>, position: int) -> nat
    decreases values.len(),
{
    if values.len() == 0 {
        0
    } else {
        weight_up_to(values.drop_last(), position) + if values.last().0.total_position()
            <= position {
            values.last().1 as nat
        } else {
            0
        }
    }
}

/// `price` is the lowest of the prices up to which the sources have at least half
/// of all weight.
pub open spec fn is_weighted_median(values: Seq<Weighted>, price: Binary64) -> bool {
    &&& exists|i: int| 0 <= i < values.len() && (#[trigger] values[i]).0 == price
    &&& 2 * weight_up_to(values, price.total_position()) >= total_weight(values)
    &&& forall|i: int|
        0 <= i < values.len() && (#[trigger] values[i]).0.total_position()
            < price.total_position() ==> 2 * weight_up_to(values, values[i].0.total_position())
            < total_weight(values)
}

/// Prices in total order.
pub open spec fn ascending(values: Seq<Weighted>) -> bool {
    forall|i: int, j: int|
        0 <= i <= j < values.len() ==> (#[trigger] values[i]).0.total_position() <= (
        #[trigger] values[j]).0.total_position()
}

proof fn lemma_total_of_part(values: Seq<Weighted>, length: int)
    requires
        0 <= length <= values.len(),
    ensures
        total_weight(values.take(length)) <= total_weight(values),
        length < values.len() ==> total_weight(values.take(length + 1)) == total_weight(
            values.take(length),
        ) + values[length].1,
    decreases values.len(),
{
    if length == values.len() {
        assert(values.take(length) =~= values);
    } else {
        lemma_total_of_part(values.drop_last(), length);
        assert(values.drop_last().take(length) =~= values.take(length));
        assert(values.take(length + 1).drop_last() =~= values.take(length));
    }
}

/// Where the first `length` prices lie up to a place, they count up to it.
proof fn lemma_prefix_counts(values: Seq<Weighted>, position: int, length: int)
    requires
        0 <= length <= values.len(),
        forall|i: int|
            0 <= i < length ==> (#[trigger] values[i]).0.total_position() <= position,
    ensures
        total_weight(values.take(length)) <= weight_up_to(values, position),
    decreases values.len(),
{
    if length == values.len() {
        assert(values.take(length) =~= values);
        if length > 0 {
            assert forall|i: int| 0 <= i < length - 1 implies (
            #[trigger] values.drop_last()[i]).0.total_position() <= position by {
                assert(values[i].0.total_position() <= position);
            }
            lemma_prefix_counts(values.drop_last(), position, length - 1);
            assert(values.drop_last().take(length - 1) =~= values.drop_last());
            assert(values[length - 1].0.total_position() <= position);
        }
    } else {
        assert forall|i: int| 0 <= i < length implies (
        #[trigger] values.drop_last()[i]).0.total_position() <= position by {
            assert(values[i].0.total_position() <= position);
        }
        lemma_prefix_counts(values.drop_last(), position, length);
        assert(values.drop_last().take(length) =~= values.take(length));
    }
}

/// Where the prices from `length` on lie above a place, they do not count.
proof fn lemma_suffix_does_not_count(values: Seq<Weighted>, position: int, length: int)
    requires
        0 <= length <= values.len(),
        forall|i: int|
            length <= i < values.len() ==> (#[trigger] values[i]).0.total_position() > position,
    ensures
        weight_up_to(values, position) <= total_weight(values.take(length)),
    decreases values.len(),
{
    if values.len() > 0 {
        let shorter = values.drop_last();
        if length == values.len() {
            lemma_suffix_does_not_count(shorter, position, length - 1);
            assert(shorter.take(length - 1) =~= shorter);
            assert(values.take(length) =~= values);
        } else {
            assert forall|i: int| length <= i < shorter.len() implies (
            #[trigger] shorter[i]).0.total_position() > position by {
                assert(values[i].0.total_position() > position);
            }
            lemma_suffix_does_not_count(shorter, position, length);
            assert(shorter.take(length) =~= values.take(length));
            assert(values[values.len() - 1].0.total_position() > position);
        }
    }
}

/// Taking one value out lowers the sums by its weight.
proof fn lemma_sums_without(values: Seq<Weighted>, index: int, position: int)
    requires
        0 <= index < values.len(),
    ensures
        total_weight(values) == total_weight(values.remove(index)) + values[index].1,
        weight_up_to(values, position) == weight_up_to(values.remove(index), position) + if values[
            index].0.total_position() <= position {
            values[index].1 as nat
        } else {
            0
        },
    decreases values.len(),
{
    if index == values.len() - 1 {
        assert(values.remove(index) =~= values.drop_last());
    } else {
        lemma_sums_without(values.drop_last(), index, position);
        assert(values.remove(index).drop_last() =~= values.drop_last().remove(index));
        assert(values.remove(index).last() == values.last());
    }
}

/// The sums over weights do not depend on the order of the values.
pub proof fn sums_ignore_order(left: Seq<Weighted>, right: Seq<Weighted>, position: int)
    requires
        left.to_multiset() == right.to_multiset(),
    ensures
        total_weight(left) == total_weight(right),
        weight_up_to(left, position) == weight_up_to(right, position),
    decreases left.len(),
{
    broadcast use vstd::seq_lib::group_to_multiset_ensures;

    assert(left.len() == left.to_multiset().len());
    assert(right.len() == right.to_multiset().len());
    if left.len() > 0 {
        let last = left.last();
        assert(left.to_multiset().count(last) > 0);
        assert(right.contains(last));
        let at = choose|i: int| 0 <= i < right.len() && right[i] == last;
        lemma_sums_without(left, left.len() - 1, position);
        lemma_sums_without(right, at, position);
        assert(left.remove(left.len() - 1).to_multiset() =~= left.to_multiset().remove(last));
        assert(right.remove(at).to_multiset() =~= right.to_multiset().remove(last));
        sums_ignore_order(left.remove(left.len() - 1), right.remove(at), position);
    }
}

/// A place in the total order belongs to one double.
pub proof fn total_order_separates(left: Binary64, right: Binary64)
    requires
        left.total_position() == right.total_position(),
    ensures
        left == right,
{
}

/// At most one price is the weighted median of given values.
pub proof fn median_is_unique(values: Seq<Weighted>, left: Binary64, right: Binary64)
    requires
        is_weighted_median(values, left),
        is_weighted_median(values, right),
    ensures
        left == right,
{
    let i = choose|i: int| 0 <= i < values.len() && (#[trigger] values[i]).0 == left;
    let j = choose|j: int| 0 <= j < values.len() && (#[trigger] values[j]).0 == right;
    assert(values[i].0.total_position() >= right.total_position());
    assert(values[j].0.total_position() >= left.total_position());
    total_order_separates(left, right);
}

/// The weighted median does not depend on the order in which the sources come.
pub proof fn median_ignores_order(left: Seq<Weighted>, right: Seq<Weighted>, price: Binary64)
    requires
        left.to_multiset() == right.to_multiset(),
        is_weighted_median(left, price),
    ensures
        is_weighted_median(right, price),
{
    broadcast use vstd::seq_lib::group_to_multiset_ensures;

    let i = choose|i: int| 0 <= i < left.len() && (#[trigger] left[i]).0 == price;
    assert(left.to_multiset().count(left[i]) > 0);
    assert(right.contains(left[i]));
    sums_ignore_order(left, right, price.total_position());
    assert forall|j: int|
        0 <= j < right.len() && (#[trigger] right[j]).0.total_position()
            < price.total_position() implies 2 * weight_up_to(
        right,
        right[j].0.total_position(),
    ) < total_weight(right) by {
        assert(right.to_multiset().count(right[j]) > 0);
        assert(left.contains(right[j]));
        let k = choose|k: int| 0 <= k < left.len() && left[k] == right[j];
        sums_ignore_order(left, right, right[j].0.total_position());
        assert(left[k].0.total_position() < price.total_position());
    }
}

/// The weighted median is one of the prices and lies between the lowest and the
/// highest of them.
pub proof fn median_lies_within(values: Seq<Weighted>, price: Binary64, low: int, high: int)
    requires
        is_weighted_median(values, price),
        forall|i: int|
            0 <= i < values.len() ==> low <= (#[trigger] values[i]).0.total_position() <= high,
    ensures
        low <= price.total_position() <= high,
{
    let i = choose|i: int| 0 <= i < values.len() && (#[trigger] values[i]).0 == price;
    assert(values[i].0 == price);
}

/// Exchanges two neighbours.
fn exchange(values: &mut [Weighted], place: usize)
    requires
        0 < place < old(values)@.len(),
    ensures
        final(values)@ == old(values)@.update(place as int, old(values)@[place - 1]).update(
            place - 1,
            old(values)@[place as int],
        ),
        final(values)@.to_multiset() == old(values)@.to_multiset(),
{
    let left: Weighted = values[place - 1];
    let right: Weighted = values[place];
    values[place - 1] = right;
    values[place] = left;
    proof {
        broadcast use vstd::seq_lib::group_to_multiset_ensures;

        let before = old(values)@;
        let without = before.remove(place - 1);
        assert(values@ =~= without.insert(place as int, left));
        assert(without.to_multiset() =~= before.to_multiset().remove(left));
        assert(before.to_multiset().count(left) > 0);
        assert(values@.to_multiset() =~= before.to_multiset());
    }
}

/// Puts the values in total order of their prices.
fn sort_by_price(values: &mut [Weighted])
    ensures
        ascending(final(values)@),
        final(values)@.to_multiset() == old(values)@.to_multiset(),
        final(values)@.len() == old(values)@.len(),
{
    let mut sorted: usize = 0;
    while sorted < values.len()
        invariant
            sorted <= values@.len() == old(values)@.len(),
            ascending(values@.take(sorted as int)),
            values@.to_multiset() == old(values)@.to_multiset(),
        decreases values.len() - sorted,
    {
        let mut place: usize = sorted;
        proof {
            let head = values@.take(sorted as int);
            assert forall|i: int, j: int| 0 <= i <= j < sorted implies (
            #[trigger] values@[i]).0.total_position() <= (
            #[trigger] values@[j]).0.total_position() by {
                assert(head[i] == values@[i] && head[j] == values@[j]);
            }
        }
        while place > 0 && values[place].0.total_order() < values[place - 1].0.total_order()
            invariant
                place <= sorted < values@.len() == old(values)@.len(),
                values@.to_multiset() == old(values)@.to_multiset(),
                forall|i: int, j: int|
                    0 <= i <= j <= sorted && i != place && j != place ==> (
                    #[trigger] values@[i]).0.total_position() <= (
                    #[trigger] values@[j]).0.total_position(),
                forall|j: int|
                    place < j <= sorted ==> values@[place as int].0.total_position() <= (
                    #[trigger] values@[j]).0.total_position(),
            decreases place,
        {
            exchange(values, place);
            place = place - 1;
        }
        proof {
            let now = values@.take(sorted + 1);
            assert forall|i: int, j: int| 0 <= i <= j < now.len() implies (
            #[trigger] now[i]).0.total_position() <= (#[trigger] now[j]).0.total_position() by {
                assert(now[i] == values@[i] && now[j] == values@[j]);
                if j == place && i < place {
                    assert(values@[i].0.total_position() <= values@[place - 1].0.total_position());
                }
            }
        }
        sorted = sorted + 1;
    }
    proof {
        assert(values@.take(values@.len() as int) =~= values@);
    }
}

/// Lowest price whose cumulative source weight reaches half of all valid weight.
/// The values are left in the order of their prices.
pub fn weighted_median(values: &mut [Weighted]) -> (result: Option<Binary64>)
    requires
        total_weight(old(values)@) <= u16::MAX,
    ensures
        ascending(final(values)@),
        final(values)@.to_multiset() == old(values)@.to_multiset(),
        result is None <==> old(values)@.len() == 0,
        result matches Some(price) ==> is_weighted_median(old(values)@, price),
{
    if values.len() == 0 {
        return None;
    }
    sort_by_price(values);
    let ghost sorted = values@;
    proof {
        sums_ignore_order(old(values)@, sorted, 0);
    }
    let mut total: u16 = 0;
    let mut index: usize = 0;
    while index < values.len()
        invariant
            index <= values@.len(),
            values@ == sorted,
            total == total_weight(sorted.take(index as int)),
            total_weight(sorted) <= u16::MAX,
        decreases values.len() - index,
    {
        proof {
            lemma_total_of_part(sorted, index as int);
            lemma_total_of_part(sorted, index + 1);
        }
        total = total + values[index].1 as u16;
        index = index + 1;
    }
    proof {
        assert(sorted.take(sorted.len() as int) =~= sorted);
    }
    let threshold: u16 = total / 2 + total % 2;
    let mut cumulative: u16 = 0;
    index = 0;
    while index < values.len()
        invariant
            index <= values@.len(),
            values@ == sorted,
            ascending(sorted),
            sorted.to_multiset() == old(values)@.to_multiset(),
            cumulative == total_weight(sorted.take(index as int)),
            total == total_weight(sorted),
            threshold == (total + 1) / 2,
            index > 0 ==> cumulative < threshold,
            sorted.len() > 0,
        decreases values.len() - index,
    {
        proof {
            lemma_total_of_part(sorted, index as int);
            lemma_total_of_part(sorted, index + 1);
        }
        let (price, weight): (Binary64, u8) = values[index];
        let ghost before = cumulative;
        cumulative = cumulative + weight as u16;
        if cumulative >= threshold {
            proof {
                let place = price.total_position();
                assert(sorted[index as int].0 == price);
                assert forall|i: int| 0 <= i < index + 1 implies (
                #[trigger] sorted[i]).0.total_position() <= place by {
                    assert(sorted[index as int].0.total_position() == place);
                }
                lemma_prefix_counts(sorted, place, index + 1);
                assert forall|i: int|
                    0 <= i < sorted.len() && (#[trigger] sorted[i]).0.total_position()
                        < place implies 2 * weight_up_to(sorted, sorted[i].0.total_position())
                    < total_weight(sorted) by {
                    let low = sorted[i].0.total_position();
                    assert forall|j: int| index <= j < sorted.len() implies (
                    #[trigger] sorted[j]).0.total_position() > low by {
                        assert(sorted[index as int].0.total_position()
                            <= sorted[j].0.total_position());
                    }
                    assert(i < index) by {
                        if i >= index {
                            assert(sorted[index as int].0.total_position()
                                <= sorted[i].0.total_position());
                        }
                    }
                    lemma_suffix_does_not_count(sorted, low, index as int);
                }
                assert(is_weighted_median(sorted, price));
                median_ignores_order(sorted, old(values)@, price);
            }
            return Some(price);
        }
        index = index + 1;
    }
    proof {
        assert(sorted.take(sorted.len() as int) =~= sorted);
    }
    None
}

/// The middle of a venue's book and when it was received.
#[derive(Clone, Copy, Debug, PartialEq, Eq, Structural)]
pub struct Quote {
    /// The middle between bid and ask.
    pub mid: Binary64,
    /// When the quote was received.
    pub received_at: Instant,
}

/// The published oracle and when it was received.
#[derive(Clone, Copy, Debug, PartialEq, Eq, Structural)]
pub struct Official {
    /// The published price.
    pub price: Binary64,
    /// When it was received.
    pub received_at: Instant,
}

/// What is known of one coin.
#[derive(Debug)]
struct AssetState {
    quotes: Vec<Option<Quote>>,
    official: Option<Official>,
}

impl AssetState {
    fn new() -> (state: AssetState)
        ensures
            state.quotes@ == Seq::new(VENUE_COUNT as nat, |i: int| None::<Quote>),
            state.official is None,
    {
        let mut quotes: Vec<Option<Quote>> = Vec::new();
        let mut index: usize = 0;
        while index < VENUE_COUNT
            invariant
                index <= VENUE_COUNT,
                quotes@ == Seq::new(index as nat, |i: int| None::<Quote>),
            decreases VENUE_COUNT - index,
        {
            quotes.push(None);
            index = index + 1;
            proof {
                assert(quotes@ =~= Seq::new(index as nat, |i: int| None::<Quote>));
            }
        }
        AssetState { quotes, official: None }
    }
}

/// A positive, finite bid and a finite ask that is not below it.
pub open spec fn valid_bbo_spec(bid: Binary64, ask: Binary64) -> bool {
    bid.positive_finite() && ask.finite() && bid.at_most(ask)
}

/// Whether a book's best prices are positive, finite and not crossed.
pub fn valid_bbo(bid: Binary64, ask: Binary64) -> (result: bool)
    ensures
        result == valid_bbo_spec(bid, ask),
{
    bid.is_positive_finite() && ask.is_finite() && bid.is_at_most(ask)
}

/// A valid ask is positive.
proof fn lemma_valid_ask(bid: Binary64, ask: Binary64)
    requires
        valid_bbo_spec(bid, ask),
    ensures
        ask.positive_finite(),
{
    lemma_size_zero(bid.magnitude_bits());
    lemma_size_zero(ask.magnitude_bits());
}

/// The bits of 1.
pub const ONE_BITS: u64 = 0x3ff0_0000_0000_0000;

/// The bits of 10000.
pub const TEN_THOUSAND_BITS: u64 = 0x40c3_8800_0000_0000;

/// How far `local` lies above `official`, in basis points.
pub open spec fn difference_bps_spec(local: Binary64, official: Binary64) -> Binary64 {
    let one = Binary64 { bits: ONE_BITS };
    let ten_thousand = Binary64 { bits: TEN_THOUSAND_BITS };
    ten_thousand.times_spec(local.over_spec(official).minus_spec(one))
}

/// The local oracle of one coin beside the published one.
#[derive(Clone, Copy, Debug)]
pub struct Comparison {
    /// The weighted median of the fresh quotes.
    pub local: Binary64,
    /// The published oracle, if it is fresh.
    pub official: Option<Binary64>,
    /// How far the local value lies above the published one, in basis points.
    pub difference_bps: Option<Binary64>,
    /// The number of fresh quotes.
    pub sources: u8,
    /// The weight of the fresh quotes.
    pub total_weight: u8,
    /// For each venue, whether its quote is fresh.
    pub active_venues: [bool; VENUE_COUNT],
}

/// Equal numbers, or both absent.
pub open spec fn same_number(left: Option<Binary64>, right: Option<Binary64>) -> bool {
    match (left, right) {
        (Some(first), Some(second)) => first.equals(second),
        (None, None) => true,
        _ => false,
    }
}

fn equal_numbers(left: Option<Binary64>, right: Option<Binary64>) -> (result: bool)
    ensures
        result == same_number(left, right),
{
    match (left, right) {
        (Some(first), Some(second)) => first.is_equal(second),
        (None, None) => true,
        _ => false,
    }
}

impl Comparison {
    /// All fields are equal, numbers as numbers.
    pub open spec fn same(self, other: Comparison) -> bool {
        &&& self.local.equals(other.local)
        &&& same_number(self.official, other.official)
        &&& same_number(self.difference_bps, other.difference_bps)
        &&& self.sources == other.sources
        &&& self.total_weight == other.total_weight
        &&& self.active_venues@ == other.active_venues@
    }

    /// Whether all fields are equal, numbers as numbers.
    pub fn is_same(&self, other: &Comparison) -> (result: bool)
        ensures
            result == self.same(*other),
    {
        let mut index: usize = 0;
        while index < VENUE_COUNT
            invariant
                index <= VENUE_COUNT,
                forall|i: int|
                    0 <= i < index ==> self.active_venues@[i] == other.active_venues@[i],
            decreases VENUE_COUNT - index,
        {
            if self.active_venues[index] != other.active_venues[index] {
                return false;
            }
            index = index + 1;
        }
        proof {
            assert(self.active_venues@ =~= other.active_venues@);
        }
        self.local.is_equal(other.local) && equal_numbers(self.official, other.official)
            && equal_numbers(self.difference_bps, other.difference_bps) && self.sources
            == other.sources && self.total_weight == other.total_weight
    }
}

impl PartialEq for Comparison {
    fn eq(&self, other: &Comparison) -> (result: bool) {
        self.is_same(other)
    }
}

impl vstd::std_specs::cmp::PartialEqSpecImpl for Comparison {
    open spec fn obeys_eq_spec() -> bool {
        true
    }

    open spec fn eq_spec(&self, other: &Comparison) -> bool {
        self.same(*other)
    }
}

/// The quotes and published prices of all coins.
#[derive(Debug)]
pub struct OracleBook {
    assets: Vec<AssetState>,
    max_quote_age: Duration,
    max_official_age: Duration,
}

impl OracleBook {
    /// The book has a place for each venue's quote of each coin, and all its prices are
    /// positive and finite.
    pub closed spec fn wf(self) -> bool {
        &&& forall|i: int|
            0 <= i < self.assets@.len() ==> (#[trigger] self.assets@[i]).quotes@.len()
                == VENUE_COUNT
        &&& forall|i: int, j: int|
            0 <= i < self.assets@.len() && 0 <= j < VENUE_COUNT ==> (
            #[trigger] self.assets@[i].quotes@[j] matches Some(quote)
                ==> quote.mid.positive_finite())
        &&& forall|i: int|
            0 <= i < self.assets@.len() ==> ((#[trigger] self.assets@[i]).official matches Some(
                official,
            ) ==> official.price.positive_finite())
    }

    /// The number of coins.
    pub closed spec fn count(self) -> nat {
        self.assets@.len()
    }

    /// The last accepted quote of a venue for a coin.
    pub closed spec fn quote(self, asset: int, venue: Venue) -> Option<Quote> {
        self.assets@[asset].quotes@[venue.index_spec() as int]
    }

    /// The last accepted published price of a coin.
    pub closed spec fn official(self, asset: int) -> Option<Official> {
        self.assets@[asset].official
    }

    /// The freshness window for quotes.
    pub closed spec fn quote_window(self) -> Duration {
        self.max_quote_age
    }

    /// The freshness window for published prices.
    pub closed spec fn official_window(self) -> Duration {
        self.max_official_age
    }

    /// The two books hold the same quotes, but for one venue of one coin, and the
    /// same windows.
    pub open spec fn same_quotes_except(self, other: OracleBook, asset: int, venue: Venue) -> bool {
        &&& self.count() == other.count()
        &&& self.quote_window() == other.quote_window()
        &&& self.official_window() == other.official_window()
        &&& forall|a: int, v: Venue|
            0 <= a < self.count() && (a != asset || v != venue) ==> #[trigger] self.quote(a, v)
                == other.quote(a, v)
    }

    /// The two books hold the same quotes and windows.
    pub open spec fn same_quotes(self, other: OracleBook) -> bool {
        &&& self.count() == other.count()
        &&& self.quote_window() == other.quote_window()
        &&& self.official_window() == other.official_window()
        &&& forall|a: int, v: Venue|
            0 <= a < self.count() ==> #[trigger] self.quote(a, v) == other.quote(a, v)
    }

    /// The two books hold the same published prices, but for one coin.
    pub open spec fn same_officials_except(self, other: OracleBook, asset: int) -> bool {
        forall|a: int|
            0 <= a < self.count() && a != asset ==> #[trigger] self.official(a) == other.official(a)
    }

    /// The two books hold the same published prices.
    pub open spec fn same_officials(self, other: OracleBook) -> bool {
        forall|a: int|
            0 <= a < self.count() ==> #[trigger] self.official(a) == other.official(a)
    }

    /// A venue's quote for a coin is there and not older than the window.
    pub open spec fn fresh(self, asset: int, venue: Venue, now: Instant) -> bool {
        self.quote(asset, venue) matches Some(quote) && now.nanos_since(quote.received_at)
            <= self.quote_window().nanos
    }

    /// The fresh quotes of the first `venues` venues, with their weights.
    pub open spec fn fresh_quotes(self, asset: int, now: Instant, venues: nat) -> Seq<Weighted>
        decreases venues,
    {
        if venues == 0 {
            Seq::empty()
        } else {
            let earlier = self.fresh_quotes(asset, now, (venues - 1) as nat);
            let venue = all_venues()[venues - 1];
            if self.fresh(asset, venue, now) {
                earlier.push((self.quote(asset, venue)->Some_0.mid, venue.weight_spec()))
            } else {
                earlier
            }
        }
    }

    /// The published price of a coin, if it is not older than its window.
    pub open spec fn fresh_official(self, asset: int, now: Instant) -> Option<Binary64> {
        match self.official(asset) {
            Some(official) => if now.nanos_since(official.received_at)
                <= self.official_window().nanos {
                Some(official.price)
            } else {
                None
            },
            None => None,
        }
    }

    /// What the comparison of a coin is at a point in time.
    pub open spec fn compares(self, asset: int, now: Instant, value: Comparison) -> bool {
        let quotes = self.fresh_quotes(asset, now, VENUE_COUNT as nat);
        &&& is_weighted_median(quotes, value.local)
        &&& value.official == self.fresh_official(asset, now)
        &&& value.difference_bps == match value.official {
            Some(official) => Some(difference_bps_spec(value.local, official)),
            None => None,
        }
        &&& value.sources == quotes.len()
        &&& value.total_weight == total_weight(quotes)
        &&& forall|v: Venue|
            value.active_venues@[#[trigger] v.index_spec() as int] == self.fresh(asset, v, now)
    }

    /// An empty book for `asset_count` coins.
    pub fn new(asset_count: usize, max_quote_age: Duration, max_official_age: Duration) -> (book:
        OracleBook)
        ensures
            book.wf(),
            book.count() == asset_count,
            book.quote_window() == max_quote_age,
            book.official_window() == max_official_age,
            forall|a: int, v: Venue|
                0 <= a < asset_count ==> #[trigger] book.quote(a, v) is None,
            forall|a: int| 0 <= a < asset_count ==> #[trigger] book.official(a) is None,
    {
        let mut assets: Vec<AssetState> = Vec::new();
        let mut index: usize = 0;
        while index < asset_count
            invariant
                index <= asset_count,
                assets@.len() == index,
                forall|i: int|
                    0 <= i < index ==> (#[trigger] assets@[i]).quotes@ == Seq::new(
                        VENUE_COUNT as nat,
                        |i: int| None::<Quote>,
                    ) && assets@[i].official is None,
            decreases asset_count - index,
        {
            assets.push(AssetState::new());
            index = index + 1;
        }
        OracleBook { assets, max_quote_age, max_official_age }
    }

    /// Takes over a quote, unless its book is invalid or crossed or its coin is
    /// unknown; says whether it did.
    pub fn apply_quote(&mut self, update: QuoteUpdate) -> (accepted: bool)
        requires
            old(self).wf(),
        ensures
            final(self).wf(),
            accepted == (valid_bbo_spec(update.bid, update.ask) && update.asset < old(
                self,
            ).count()),
            accepted ==> {
                &&& final(self).quote(update.asset as int, update.venue) == Some(
                    Quote {
                        mid: update.bid.midpoint_spec(update.ask),
                        received_at: update.received_at,
                    },
                )
                &&& final(self).same_quotes_except(*old(self), update.asset as int, update.venue)
                &&& final(self).same_officials(*old(self))
            },
            !accepted ==> *final(self) == *old(self),
    {
        if !valid_bbo(update.bid, update.ask) {
            return false;
        }
        let asset: usize = update.asset as usize;
        if asset >= self.assets.len() {
            return false;
        }
        proof {
            lemma_valid_ask(update.bid, update.ask);
            mid_lies_between(update.bid, update.ask);
        }
        let quote: Quote = Quote {
            mid: update.bid.midpoint(update.ask),
            received_at: update.received_at,
        };
        let venue: usize = update.venue.index();
        self.assets[asset].quotes[venue] = Some(quote);
        proof {
            assert forall|a: int, v: Venue|
                0 <= a < self.count() && (a != update.asset || v
                    != update.venue) implies #[trigger] self.quote(a, v) == old(self).quote(a, v) by {
                lemma_venue_index(v, update.venue);
            }
        }
        true
    }

    /// Takes over a published price, unless it is not positive and finite or its
    /// coin is unknown; says whether it did.
    pub fn apply_official(&mut self, update: OfficialUpdate) -> (accepted: bool)
        requires
            old(self).wf(),
        ensures
            final(self).wf(),
            accepted == (update.oracle.positive_finite() && update.asset < old(self).count()),
            accepted ==> {
                &&& final(self).official(update.asset as int) == Some(
                    Official { price: update.oracle, received_at: update.received_at },
                )
                &&& final(self).same_officials_except(*old(self), update.asset as int)
                &&& final(self).same_quotes(*old(self))
            },
            !accepted ==> *final(self) == *old(self),
    {
        if !update.oracle.is_positive_finite() {
            return false;
        }
        let asset: usize = update.asset as usize;
        if asset >= self.assets.len() {
            return false;
        }
        self.assets[asset].official = Some(
            Official { price: update.oracle, received_at: update.received_at },
        );
        true
    }

    /// Whether a venue's quote for a coin is fresh, and its middle.
    fn fresh_mid(&self, asset: usize, venue: Venue, now: Instant) -> (result: Option<Binary64>)
        requires
            self.wf(),
            asset < self.count(),
        ensures
            result is Some <==> self.fresh(asset as int, venue, now),
            result matches Some(mid) ==> self.quote(asset as int, venue)->Some_0.mid == mid,
    {
        match self.assets[asset].quotes[venue.index()] {
            Some(quote) => if now.saturating_duration_since(quote.received_at).nanos
                <= self.max_quote_age.nanos {
                Some(quote.mid)
            } else {
                None
            },
            None => None,
        }
    }

    /// The comparison of a coin at a point in time: `None` for an unknown coin or
    /// one without any fresh quote.
    pub fn comparison(&self, asset: usize, now: Instant) -> (result: Option<Comparison>)
        requires
            self.wf(),
        ensures
            result is Some <==> asset < self.count() && self.fresh_quotes(
                asset as int,
                now,
                VENUE_COUNT as nat,
            ).len() > 0,
            result matches Some(value) ==> self.compares(asset as int, now, value),
    {
        if asset >= self.assets.len() {
            return None;
        }
        let venues: [Venue; VENUE_COUNT] = Venue::ALL;
        let mut values: Vec<Weighted> = Vec::new();
        let mut active_venues: [bool; VENUE_COUNT] = [
            false,
            false,
            false,
            false,
            false,
            false,
            false,
            false,
        ];
        let mut weight: u8 = 0;
        let mut index: usize = 0;
        while index < VENUE_COUNT
            invariant
                index <= VENUE_COUNT,
                self.wf(),
                asset < self.count(),
                venues@ == all_venues(),
                values@ == self.fresh_quotes(asset as int, now, index as nat),
                values@.len() <= index,
                weight == total_weight(values@),
                weight <= 3 * index,
                forall|i: int|
                    0 <= i < index ==> #[trigger] active_venues@[i] == self.fresh(
                        asset as int,
                        all_venues()[i],
                        now,
                    ),
                forall|i: int|
                    index <= i < VENUE_COUNT ==> #[trigger] active_venues@[i] == false,
            decreases VENUE_COUNT - index,
        {
            let venue: Venue = venues[index];
            if let Some(mid) = self.fresh_mid(asset, venue, now) {
                let ghost before = values@;
                values.push((mid, venue.weight()));
                active_venues[index] = true;
                weight = weight + venue.weight();
                proof {
                    assert(values@.drop_last() =~= before);
                }
            }
            index = index + 1;
        }
        let ghost quotes = values@;
        let sources: u8 = values.len() as u8;
        let local: Binary64 = match weighted_median(values.as_mut_slice()) {
            Some(price) => price,
            None => {
                return None;
            },
        };
        let official: Option<Binary64> = match self.assets[asset].official {
            Some(value) => if now.saturating_duration_since(value.received_at).nanos
                <= self.max_official_age.nanos {
                Some(value.price)
            } else {
                None
            },
            None => None,
        };
        let one: Binary64 = Binary64 { bits: ONE_BITS };
        let ten_thousand: Binary64 = Binary64 { bits: TEN_THOUSAND_BITS };
        let difference_bps: Option<Binary64> = match official {
            Some(value) => Some(ten_thousand.times(local.over(value).minus(one))),
            None => None,
        };
        let result: Comparison = Comparison {
            local,
            official,
            difference_bps,
            sources,
            total_weight: weight,
            active_venues,
        };
        proof {
            assert forall|v: Venue|
                result.active_venues@[#[trigger] v.index_spec() as int] == self.fresh(
                    asset as int,
                    v,
                    now,
                ) by {
                lemma_venue_index(v, v);
                assert(active_venues@[v.index_spec() as int] == self.fresh(
                    asset as int,
                    all_venues()[v.index_spec() as int],
                    now,
                ));
            }
        }
        Some(result)
    }
}

/// A venue's index finds it among all venues, and no two venues share one.
pub proof fn lemma_venue_index(left: Venue, right: Venue)
    ensures
        left.index_spec() < VENUE_COUNT,
        all_venues()[left.index_spec() as int] == left,
        left.index_spec() == right.index_spec() ==> left == right,
{
}

/// A coin has at most one quote of each venue in its median, so at most eight
/// sources with a weight of twelve.
pub proof fn sources_are_bounded(book: OracleBook, asset: int, now: Instant)
    ensures
        book.fresh_quotes(asset, now, VENUE_COUNT as nat).len() <= 8,
        total_weight(book.fresh_quotes(asset, now, VENUE_COUNT as nat)) <= 12,
{
    lemma_fresh_bounds(book, asset, now, 1);
    lemma_fresh_bounds(book, asset, now, 2);
    lemma_fresh_bounds(book, asset, now, 3);
    lemma_fresh_bounds(book, asset, now, 4);
    lemma_fresh_bounds(book, asset, now, 5);
    lemma_fresh_bounds(book, asset, now, 6);
    lemma_fresh_bounds(book, asset, now, 7);
    lemma_fresh_bounds(book, asset, now, 8);
    assert(book.fresh_quotes(asset, now, 0).len() == 0);
}

proof fn lemma_fresh_bounds(book: OracleBook, asset: int, now: Instant, venues: nat)
    requires
        0 < venues <= VENUE_COUNT,
    ensures
        ({
            let quotes = book.fresh_quotes(asset, now, venues);
            let earlier = book.fresh_quotes(asset, now, (venues - 1) as nat);
            &&& quotes.len() <= earlier.len() + 1
            &&& total_weight(quotes) <= total_weight(earlier) + all_venues()[venues
                - 1].weight_spec()
        }),
{
    let earlier = book.fresh_quotes(asset, now, (venues - 1) as nat);
    let quotes = book.fresh_quotes(asset, now, venues);
    if quotes.len() > earlier.len() {
        assert(quotes.drop_last() =~= earlier);
    }
}

/// A quote that is fresh at some time was fresh at every earlier time: without a
/// new quote, one that has dropped out stays out.
pub proof fn stale_quotes_stay_stale(
    book: OracleBook,
    asset: int,
    venue: Venue,
    earlier: Instant,
    later: Instant,
)
    requires
        earlier.nanos <= later.nanos,
        book.fresh(asset, venue, later),
    ensures
        book.fresh(asset, venue, earlier),
{
}

/// Where the local value equals the published one, the difference is zero.
pub proof fn equal_prices_differ_by_zero(price: Binary64)
    requires
        price.positive_finite(),
    ensures
        difference_bps_spec(price, price) == (Binary64 { bits: 0 }),
{
    let one = Binary64 { bits: ONE_BITS };
    let size = price.size();
    lemma_size_zero(price.magnitude_bits());
    lemma_magnitude_of(1022, 0x0010_0000_0000_0000);
    assert(1022 * 0x0010_0000_0000_0000 + 0x0010_0000_0000_0000 == ONE_BITS);
    lemma_powers();
    vstd::arithmetic::power2::lemma_pow2_adds(52, 1022);
    assert(one.size() == one_in_units());
    lemma_magnitude_step((ONE_BITS - 1) as nat);
    lemma_magnitude_step(ONE_BITS as nat);
    let before = magnitude((ONE_BITS - 1) as nat);
    let here = magnitude(ONE_BITS as nat);
    let after = magnitude((ONE_BITS + 1) as nat);
    assert(2 * (size * here) > size * (before + here)) by (nonlinear_arith)
        requires
            before < here,
            size > 0,
    ;
    assert(2 * (size * here) < size * (here + after)) by (nonlinear_arith)
        requires
            here < after,
            size > 0,
    ;
    lemma_nearest_is(size * one_in_units(), size, ONE_BITS as nat);
    assert(price.over_spec(price) == one);
    let zero = one.minus_spec(one);
    assert(zero == (Binary64 { bits: 0 }));
    let ten_thousand = Binary64 { bits: TEN_THOUSAND_BITS };
    assert(magnitude(0) == 0);
    assert(ten_thousand.size() * zero.size() == 0) by (nonlinear_arith)
        requires
            zero.size() == 0,
    ;
    vstd::arithmetic::power2::lemma_pow2_pos(1074);
    lemma_nearest_zero(0, one_in_units());
}

/// One in units, and the doubles next to it.
proof fn lemma_around_one()
    ensures
        magnitude(ONE_BITS as nat) == one_in_units(),
        one_in_units() > 0,
        0x0010_0000_0000_0000 * (magnitude((ONE_BITS + 1) as nat) - one_in_units())
            == one_in_units(),
        0x0020_0000_0000_0000 * (one_in_units() - magnitude((ONE_BITS - 1) as nat))
            == one_in_units(),
{
    lemma_powers();
    vstd::arithmetic::power2::lemma_pow2_pos(1074);
    lemma_magnitude_of(1022, 0x0010_0000_0000_0000);
    lemma_magnitude_of(1022, 0x0010_0000_0000_0001);
    lemma_magnitude_of(1021, 0x001f_ffff_ffff_ffff);
    assert(1022 * 0x0010_0000_0000_0000 + 0x0010_0000_0000_0000 == ONE_BITS);
    assert(1022 * 0x0010_0000_0000_0000 + 0x0010_0000_0000_0001 == ONE_BITS + 1);
    assert(1021 * 0x0010_0000_0000_0000 + 0x001f_ffff_ffff_ffff == ONE_BITS - 1);
    vstd::arithmetic::power2::lemma_pow2_adds(52, 1022);
    vstd::arithmetic::power2::lemma_pow2_adds(53, 1021);
}

/// The product of a double with ten thousand does not round below it.
proof fn lemma_scaled_stays_positive(bits: nat)
    requires
        0 < bits < INFINITY_BITS,
    ensures
        ({
            let product = magnitude(TEN_THOUSAND_BITS as nat) * magnitude(bits);
            bits <= nearest(product, one_in_units()) <= INFINITY_BITS
        }),
{
    lemma_around_one();
    lemma_magnitude_increases(ONE_BITS as nat, TEN_THOUSAND_BITS as nat);
    let scale = magnitude(TEN_THOUSAND_BITS as nat);
    let size = magnitude(bits);
    assert(one_in_units() * size <= scale * size) by (nonlinear_arith)
        requires
            one_in_units() <= scale,
    ;
    rounding_keeps_sides(scale * size, one_in_units(), bits);
    lemma_nearest_bound(scale * size, one_in_units());
}

/// Above the published price, the quotient rounds to a double above one.
proof fn lemma_quotient_above(local: Binary64, official: Binary64)
    requires
        local.positive_finite(),
        official.positive_finite(),
        official.bits < local.bits,
    ensures
        ONE_BITS < nearest(local.size() * one_in_units(), official.size())
            <= INFINITY_BITS,
{
    let one = one_in_units();
    let higher = local.size();
    let lower = official.size();
    let next = magnitude((ONE_BITS + 1) as nat);
    lemma_around_one();
    doubles_lie_apart(official.magnitude_bits(), local.magnitude_bits());
    let step = next - one;
    assert(2 * (higher * one) > lower * (one + next)) by (nonlinear_arith)
        requires
            0x0020_0000_0000_0000 * (higher - lower) > lower,
            0x0010_0000_0000_0000 * step == one,
            next == one + step,
            step > 0,
    {
        assert(2 * (higher * one) == 2 * (lower * one) + (0x0020_0000_0000_0000 * (higher - lower))
            * step);
        assert(lower * (one + next) == 2 * (lower * one) + lower * step);
        assert((0x0020_0000_0000_0000 * (higher - lower)) * step > lower * step);
    }
    lemma_nearest_bound(higher * one, lower);
    reached_is_a_bound(higher * one, lower, (ONE_BITS + 1) as nat);
}

/// Below the published price, the quotient rounds to a double below one.
proof fn lemma_quotient_below(local: Binary64, official: Binary64)
    requires
        local.positive_finite(),
        official.positive_finite(),
        local.bits < official.bits,
    ensures
        nearest(local.size() * one_in_units(), official.size()) < ONE_BITS,
{
    let one = one_in_units();
    let lower = local.size();
    let higher = official.size();
    let before = magnitude((ONE_BITS - 1) as nat);
    lemma_around_one();
    lemma_size_zero(official.magnitude_bits());
    doubles_lie_apart(local.magnitude_bits(), official.magnitude_bits());
    let step = one - before;
    assert(lower * one <= higher * before) by (nonlinear_arith)
        requires
            0x0020_0000_0000_0000 * (higher - lower) >= higher,
            0x0020_0000_0000_0000 * step == one,
            before == one - step,
            step > 0,
    {
        assert(lower * one == higher * one - (0x0020_0000_0000_0000 * (higher - lower)) * step);
        assert(higher * before == higher * one - higher * step);
        assert((0x0020_0000_0000_0000 * (higher - lower)) * step >= higher * step);
    }
    rounding_keeps_sides(lower * one, higher, (ONE_BITS - 1) as nat);
}

/// The difference is positive where the local value lies above the published one, negative
/// where it lies below, and zero where the two are equal: rounding loses no sign.
pub proof fn difference_has_the_sign(local: Binary64, official: Binary64)
    requires
        local.positive_finite(),
        official.positive_finite(),
    ensures
        ({
            let zero = Binary64 { bits: 0 };
            let difference = difference_bps_spec(local, official);
            &&& official.below(local) ==> zero.below(difference)
            &&& local.below(official) ==> difference.below(zero)
            &&& local.equals(official) ==> difference.equals(zero)
            &&& !difference.nan()
        }),
{
    let one = Binary64 { bits: ONE_BITS };
    let quotient = local.over_spec(official);
    let excess = quotient.minus_spec(one);
    let difference = difference_bps_spec(local, official);
    lemma_around_one();
    lemma_size_zero(0);
    lemma_size_zero(local.magnitude_bits());
    lemma_size_zero(official.magnitude_bits());
    lemma_magnitude_step(0);
    if local.bits == official.bits {
        equal_prices_differ_by_zero(local);
    } else if official.bits < local.bits {
        lemma_magnitude_increases(official.magnitude_bits(), local.magnitude_bits());
        lemma_quotient_above(local, official);
        lemma_magnitude_increases(ONE_BITS as nat, quotient.magnitude_bits());
        if quotient.finite() {
            let rest = (quotient.size() - one.size()) as nat;
            rounding_keeps_sides(rest, 1, 1);
            lemma_nearest_bound(rest, 1);
            assert(excess.bits == nearest(rest, 1));
        }
        lemma_size_zero(excess.magnitude_bits());
        if excess.finite() {
            lemma_scaled_stays_positive(excess.magnitude_bits());
        }
        lemma_size_zero(TEN_THOUSAND_BITS as nat);
        lemma_size_zero(difference.magnitude_bits());
    } else {
        lemma_magnitude_increases(local.magnitude_bits(), official.magnitude_bits());
        lemma_quotient_below(local, official);
        lemma_magnitude_increases(quotient.magnitude_bits(), ONE_BITS as nat);
        let rest = (one.size() - quotient.size()) as nat;
        rounding_keeps_sides(rest, 1, 1);
        rounding_keeps_sides(rest, 1, ONE_BITS as nat);
        assert(excess.magnitude_bits() == nearest(rest, 1));
        assert(excess.negative());
        lemma_scaled_stays_positive(excess.magnitude_bits());
        lemma_size_zero(difference.magnitude_bits());
    }
}

/// A valid book's middle lies between its bid and its ask.
pub proof fn mid_lies_between(bid: Binary64, ask: Binary64)
    requires
        valid_bbo_spec(bid, ask),
    ensures
        bid.at_most(bid.midpoint_spec(ask)),
        bid.midpoint_spec(ask).at_most(ask),
        bid.midpoint_spec(ask).positive_finite(),
{
    lemma_valid_ask(bid, ask);
    let sum = bid.size() + ask.size();
    rounding_keeps_sides(sum, 2, bid.magnitude_bits());
    rounding_keeps_sides(sum, 2, ask.magnitude_bits());
    let middle = bid.midpoint_spec(ask);
    lemma_magnitude_increases(bid.magnitude_bits(), middle.magnitude_bits());
    lemma_magnitude_increases(middle.magnitude_bits(), ask.magnitude_bits());
}

/// All fresh middles of a book are positive and finite.
proof fn lemma_fresh_positive(book: OracleBook, asset: int, now: Instant, venues: nat, index: int)
    requires
        book.wf(),
        0 <= asset < book.count(),
        venues <= VENUE_COUNT,
        0 <= index < book.fresh_quotes(asset, now, venues).len(),
    ensures
        book.fresh_quotes(asset, now, venues)[index].0.positive_finite(),
    decreases venues,
{
    let earlier = book.fresh_quotes(asset, now, (venues - 1) as nat);
    if index < earlier.len() {
        lemma_fresh_positive(book, asset, now, (venues - 1) as nat, index);
    } else {
        let venue = all_venues()[venues - 1];
        lemma_venue_index(venue, venue);
        assert(book.quote(asset, venue) == book.assets@[asset].quotes@[venue.index_spec() as int]);
    }
}

/// In any comparison the local value is a positive number. The published price is there
/// exactly if the last accepted one is not older than its own window, whatever the window
/// for quotes, and is then that price. The difference is there exactly if the published
/// price is, and has the sign of the local value less the published one. So a comparison
/// is the same as itself.
pub proof fn comparison_is_sound(book: OracleBook, asset: int, now: Instant, value: Comparison)
    requires
        book.wf(),
        0 <= asset < book.count(),
        book.compares(asset, now, value),
    ensures
        value.local.positive_finite(),
        forall|price: Binary64|
            value.official == Some(price) <==> (book.official(asset) matches Some(last)
                && last.price == price && now.nanos_since(last.received_at)
                <= book.official_window().nanos),
        value.difference_bps is None <==> value.official is None,
        value.official matches Some(official) ==> {
            let zero = Binary64 { bits: 0 };
            let difference = value.difference_bps->Some_0;
            &&& official.positive_finite()
            &&& zero.below(difference) <==> official.below(value.local)
            &&& difference.below(zero) <==> value.local.below(official)
            &&& difference.equals(zero) <==> value.local.equals(official)
        },
        value.same(value),
{
    let quotes = book.fresh_quotes(asset, now, VENUE_COUNT as nat);
    let index = choose|i: int| 0 <= i < quotes.len() && (#[trigger] quotes[i]).0 == value.local;
    lemma_fresh_positive(book, asset, now, VENUE_COUNT as nat, index);
    if let Some(official) = value.official {
        assert(book.assets@[asset].official is Some);
        difference_has_the_sign(value.local, official);
    }
}

/// A coin has one comparison at a point in time.
pub proof fn comparison_is_unique(
    book: OracleBook,
    asset: int,
    now: Instant,
    left: Comparison,
    right: Comparison,
)
    requires
        book.compares(asset, now, left),
        book.compares(asset, now, right),
    ensures
        left.local == right.local,
        left.official == right.official,
        left.difference_bps == right.difference_bps,
        left.sources == right.sources,
        left.total_weight == right.total_weight,
        left.active_venues@ == right.active_venues@,
{
    median_is_unique(book.fresh_quotes(asset, now, VENUE_COUNT as nat), left.local, right.local);
    assert forall|i: int| 0 <= i < VENUE_COUNT implies left.active_venues@[i]
        == right.active_venues@[i] by {
        let venue = all_venues()[i];
        assert(venue.index_spec() == i);
        assert(left.active_venues@[venue.index_spec() as int] == book.fresh(asset, venue, now));
    }
    assert(left.active_venues@ =~= right.active_venues@);
}

/// Positive finite doubles that are equal as numbers have the same bits.
proof fn lemma_equal_bits(left: Binary64, right: Binary64)
    requires
        left.positive_finite(),
        right.positive_finite(),
        left.equals(right),
    ensures
        left == right,
{
    if left.bits < right.bits {
        lemma_magnitude_increases(left.magnitude_bits(), right.magnitude_bits());
    } else {
        lemma_magnitude_increases(right.magnitude_bits(), left.magnitude_bits());
    }
}

/// The same venues are fresh, so there are as many quotes with the same weight.
proof fn lemma_same_sources(
    first: OracleBook,
    second: OracleBook,
    asset: int,
    other: int,
    now: Instant,
    later: Instant,
    venues: nat,
)
    requires
        venues <= VENUE_COUNT,
        forall|v: Venue| #[trigger] first.fresh(asset, v, now) == second.fresh(other, v, later),
    ensures
        ({
            let quotes = first.fresh_quotes(asset, now, venues);
            let others = second.fresh_quotes(other, later, venues);
            quotes.len() == others.len() && total_weight(quotes) == total_weight(others)
        }),
    decreases venues,
{
    if venues > 0 {
        lemma_same_sources(first, second, asset, other, now, later, (venues - 1) as nat);
        let venue = all_venues()[venues - 1];
        let quotes = first.fresh_quotes(asset, now, venues);
        let others = second.fresh_quotes(other, later, venues);
        if first.fresh(asset, venue, now) {
            assert(quotes.drop_last() =~= first.fresh_quotes(asset, now, (venues - 1) as nat));
            assert(others.drop_last() =~= second.fresh_quotes(other, later, (venues - 1) as nat));
        }
    }
}

/// Two comparisons are the same exactly if they have the same local value, the same
/// published price and the same fresh sources: the difference, the number of sources and
/// their weight change with these alone.
pub proof fn changes_are_of_prices_or_sources(
    first: OracleBook,
    second: OracleBook,
    asset: int,
    other: int,
    now: Instant,
    later: Instant,
    left: Comparison,
    right: Comparison,
)
    requires
        first.wf(),
        second.wf(),
        0 <= asset < first.count(),
        0 <= other < second.count(),
        first.compares(asset, now, left),
        second.compares(other, later, right),
    ensures
        left.same(right) <==> {
            &&& left.local.equals(right.local)
            &&& same_number(left.official, right.official)
            &&& left.active_venues@ == right.active_venues@
        },
{
    if left.local.equals(right.local) && same_number(left.official, right.official)
        && left.active_venues@ == right.active_venues@ {
        comparison_is_sound(first, asset, now, left);
        comparison_is_sound(second, other, later, right);
        lemma_equal_bits(left.local, right.local);
        if let (Some(published), Some(again)) = (left.official, right.official) {
            lemma_equal_bits(published, again);
        }
        assert forall|v: Venue| #[trigger]
            first.fresh(asset, v, now) == second.fresh(other, v, later) by {
            assert(left.active_venues@[v.index_spec() as int] == first.fresh(asset, v, now));
        }
        lemma_same_sources(first, second, asset, other, now, later, VENUE_COUNT as nat);
    }
}

/// Weights add up: those of two lists are the sum of each, one value's is its own, and none
/// weighs nothing. A value counts up to a place exactly if it lies there or before.
pub proof fn weights_add_up(
    first: Seq<Weighted>,
    second: Seq<Weighted>,
    single: Weighted,
    position: int,
)
    ensures
        total_weight(first + second) == total_weight(first) + total_weight(second),
        total_weight(seq![single]) == single.1,
        total_weight(Seq::empty()) == 0,
        weight_up_to(first + second, position) == weight_up_to(first, position) + weight_up_to(
            second,
            position,
        ),
        weight_up_to(seq![single], position) == if single.0.total_position() <= position {
            single.1 as nat
        } else {
            0
        },
    decreases second.len(),
{
    assert(seq![single].drop_last() =~= Seq::empty());
    assert(total_weight(seq![single].drop_last()) == 0);
    assert(weight_up_to(seq![single].drop_last(), position) == 0);
    if second.len() > 0 {
        weights_add_up(first, second.drop_last(), single, position);
        assert((first + second).drop_last() =~= first + second.drop_last());
        assert((first + second).last() == second.last());
    } else {
        assert(first + second =~= first);
    }
}

/// The weight up to a place is that of the values that lie there or before.
proof fn lemma_weight_by_filter(values: Seq<Weighted>, position: int)
    ensures
        weight_up_to(values, position) == total_weight(
            values.filter(|value: Weighted| value.0.total_position() <= position),
        ),
    decreases values.len(),
{
    let counted = |value: Weighted| value.0.total_position() <= position;
    reveal(Seq::filter);
    if values.len() > 0 {
        let before = values.drop_last();
        lemma_weight_by_filter(before, position);
        if counted(values.last()) {
            assert(before.filter(counted).push(values.last()).drop_last() =~= before.filter(
                counted,
            ));
        }
    }
}

proof fn lemma_nothing_counts(values: Seq<Weighted>, position: int)
    requires
        forall|i: int| 0 <= i < values.len() ==> (#[trigger] values[i]).0.total_position() > position,
    ensures
        weight_up_to(values, position) == 0,
    decreases values.len(),
{
    if values.len() > 0 {
        let before = values.drop_last();
        assert forall|i: int| 0 <= i < before.len() implies (
        #[trigger] before[i]).0.total_position() > position by {
            assert(before[i] == values[i]);
        }
        lemma_nothing_counts(before, position);
        assert(values[values.len() - 1].0.total_position() > position);
    }
}

/// Where no price lies between two places, the weights up to both are the same.
proof fn lemma_no_price_between(values: Seq<Weighted>, low: int, high: int)
    requires
        low <= high,
        forall|i: int|
            0 <= i < values.len() ==> !(low < (#[trigger] values[i]).0.total_position() <= high),
    ensures
        weight_up_to(values, low) == weight_up_to(values, high),
    decreases values.len(),
{
    if values.len() > 0 {
        let before = values.drop_last();
        assert forall|i: int| 0 <= i < before.len() implies !(low < (
        #[trigger] before[i]).0.total_position() <= high) by {
            assert(before[i] == values[i]);
        }
        lemma_no_price_between(before, low, high);
        assert(!(low < values[values.len() - 1].0.total_position() <= high));
    }
}

/// The highest price below a place, by its index.
proof fn lemma_highest_below(values: Seq<Weighted>, position: int) -> (index: int)
    requires
        exists|i: int| 0 <= i < values.len() && (#[trigger] values[i]).0.total_position() < position,
    ensures
        0 <= index < values.len(),
        values[index].0.total_position() < position,
        forall|i: int|
            0 <= i < values.len() && (#[trigger] values[i]).0.total_position() < position
                ==> values[i].0.total_position() <= values[index].0.total_position(),
    decreases values.len(),
{
    let before = values.drop_last();
    let last = values.len() - 1;
    if exists|i: int| 0 <= i < before.len() && (#[trigger] before[i]).0.total_position() < position {
        let found = lemma_highest_below(before, position);
        assert(values[found] == before[found]);
        let index = if values[last].0.total_position() < position
            && values[last].0.total_position() > values[found].0.total_position() {
            last
        } else {
            found
        };
        assert forall|i: int|
            0 <= i < values.len() && (#[trigger] values[i]).0.total_position() < position implies
            values[i].0.total_position() <= values[index].0.total_position() by {
            if i < last {
                assert(before[i] == values[i]);
            }
        }
        index
    } else {
        assert forall|i: int|
            0 <= i < values.len() && (#[trigger] values[i]).0.total_position() < position implies i
            == last by {
            if i < last {
                assert(before[i] == values[i]);
            }
        }
        last
    }
}

/// The weighted median is one of the prices; the values below it weigh less than half of
/// all together, and with those at it at least half.
pub proof fn half_the_weight_lies_up_to_the_median(values: Seq<Weighted>, price: Binary64)
    requires
        is_weighted_median(values, price),
        total_weight(values) > 0,
    ensures
        exists|i: int| 0 <= i < values.len() && (#[trigger] values[i]).0 == price,
        2 * total_weight(
            values.filter(
                |value: Weighted| value.0.total_position() <= price.total_position(),
            ),
        ) >= total_weight(values),
        2 * total_weight(
            values.filter(
                |value: Weighted| value.0.total_position() <= price.total_position() - 1,
            ),
        ) < total_weight(values),
{
    let place = price.total_position();
    lemma_weight_by_filter(values, place);
    lemma_weight_by_filter(values, place - 1);
    if exists|i: int| 0 <= i < values.len() && (#[trigger] values[i]).0.total_position() < place {
        let index = lemma_highest_below(values, place);
        lemma_no_price_between(values, values[index].0.total_position(), place - 1);
    } else {
        lemma_nothing_counts(values, place - 1);
    }
}

/// Prices in total order are numbers in order, for positive prices.
pub proof fn total_order_is_that_of_numbers(left: Binary64, right: Binary64)
    requires
        left.positive_finite(),
        right.positive_finite(),
    ensures
        left.total_position() < right.total_position() <==> left.units() < right.units(),
        left.total_position() == right.total_position() <==> left.units() == right.units(),
{
    if left.bits < right.bits {
        lemma_magnitude_increases(left.magnitude_bits(), right.magnitude_bits());
    } else if right.bits < left.bits {
        lemma_magnitude_increases(right.magnitude_bits(), left.magnitude_bits());
    }
}

/// A book is valid exactly if its bid is above zero, its ask is finite, and the bid does not
/// exceed the ask.
pub proof fn valid_books_are_not_crossed(bid: Binary64, ask: Binary64)
    ensures
        valid_bbo_spec(bid, ask) <==> bid.finite() && ask.finite() && 0 < bid.units()
            <= ask.units(),
{
    lemma_size_zero(bid.magnitude_bits());
}

/// No double lies nearer to the middle between a valid book's bid and ask than its mid, and
/// the mid does not depend on their order.
pub proof fn mids_are_in_the_middle(bid: Binary64, ask: Binary64, other: Binary64)
    requires
        valid_bbo_spec(bid, ask),
        other.positive_finite(),
    ensures
        gap(2 * bid.midpoint_spec(ask).units(), bid.units() + ask.units()) <= gap(
            2 * other.units(),
            bid.units() + ask.units(),
        ),
        ask.midpoint_spec(bid) == bid.midpoint_spec(ask),
        bid == ask ==> bid.midpoint_spec(ask) == bid,
{
    lemma_valid_ask(bid, ask);
    mid_lies_between(bid, ask);
    lemma_nearest_bound(bid.size() + ask.size(), 2);
    rounding_is_closest(bid.size() + ask.size(), 2, other.magnitude_bits());
    if bid == ask {
        doubles_round_to_themselves(2, bid.magnitude_bits());
    }
}

/// The venues weigh what the published oracle gives them.
pub proof fn venues_have_their_weights(venue: Venue)
    ensures
        venue.weight_spec() == 3 <==> venue == Venue::Binance,
        venue.weight_spec() == 2 <==> venue == Venue::Okx || venue == Venue::Bybit,
        1 <= venue.weight_spec() <= 3,
{
}

/// A quote is fresh exactly while it is not older than the window, the end included.
pub proof fn quotes_are_fresh_within_their_window(
    book: OracleBook,
    asset: int,
    venue: Venue,
    now: Instant,
)
    ensures
        book.fresh(asset, venue, now) <==> book.quote(asset, venue) is Some && now.nanos
            - book.quote(asset, venue)->Some_0.received_at.nanos <= book.quote_window().nanos,
{
}

/// The values behind a comparison are the mids of all fresh quotes with their venues'
/// weights, one for each venue at most.
pub proof fn fresh_quotes_are_all_fresh_quotes(
    book: OracleBook,
    asset: int,
    now: Instant,
    venues: nat,
)
    requires
        venues <= VENUE_COUNT,
    ensures
        book.fresh_quotes(asset, now, venues) == all_venues().take(venues as int).filter(
            |venue: Venue| book.fresh(asset, venue, now),
        ).map_values(
            |venue: Venue| (book.quote(asset, venue)->Some_0.mid, venue.weight_spec()),
        ),
    decreases venues,
{
    let fresh = |venue: Venue| book.fresh(asset, venue, now);
    let value = |venue: Venue| (book.quote(asset, venue)->Some_0.mid, venue.weight_spec());
    let list = all_venues().take(venues as int);
    reveal(Seq::filter);
    if venues > 0 {
        let less = (venues - 1) as nat;
        fresh_quotes_are_all_fresh_quotes(book, asset, now, less);
        assert(list.drop_last() =~= all_venues().take(less as int));
        let before = list.drop_last().filter(fresh);
        assert(list.last() == all_venues()[venues - 1]);
        assert(before.push(list.last()).map_values(value) =~= before.map_values(value).push(
            value(list.last()),
        ));
        assert(book.fresh_quotes(asset, now, venues) =~= list.filter(fresh).map_values(value));
    } else {
        assert(list.filter(fresh).map_values(value) =~= book.fresh_quotes(asset, now, venues));
    }
}

/// Every fresh venue counts: a comparison has as many sources as venues are active, and a
/// venue is active exactly if its quote is fresh.
pub proof fn fresh_venues_count(
    book: OracleBook,
    asset: int,
    now: Instant,
    value: Comparison,
    venue: Venue,
)
    requires
        book.compares(asset, now, value),
    ensures
        value.sources == all_venues().filter(
            |other: Venue| book.fresh(asset, other, now),
        ).len(),
        value.active_venues@[venue.index_spec() as int] <==> book.fresh(asset, venue, now),
        value.total_weight == total_weight(
            all_venues().filter(|other: Venue| book.fresh(asset, other, now)).map_values(
                |other: Venue| (book.quote(asset, other)->Some_0.mid, other.weight_spec()),
            ),
        ),
{
    fresh_quotes_are_all_fresh_quotes(book, asset, now, VENUE_COUNT as nat);
    assert(all_venues().take(VENUE_COUNT as int) =~= all_venues());
}

/// Where every step is exact, the difference is ten thousand times what the local value
/// exceeds the published one by, as a share of the published one.
pub proof fn differences_are_basis_points(
    local: Binary64,
    official: Binary64,
    quotient: Binary64,
    excess: Binary64,
    points: Binary64,
)
    requires
        local.positive_finite(),
        official.positive_finite(),
        quotient.finite(),
        excess.finite(),
        points.finite(),
        local.units() * one_in_units() == quotient.units() * official.units(),
        excess.units() == quotient.units() - one_in_units(),
        points.units() == 10_000 * excess.units(),
    ensures
        difference_bps_spec(local, official).finite(),
        difference_bps_spec(local, official).units() == points.units(),
{
    let one = Binary64 { bits: ONE_BITS };
    let unit = one_in_units();
    lemma_around_one();
    lemma_size_zero(0);
    lemma_size_zero(local.magnitude_bits());
    lemma_size_zero(official.magnitude_bits());
    assert(quotient.units() > 0) by (nonlinear_arith)
        requires
            local.units() > 0,
            unit > 0,
            official.units() > 0,
            local.units() * unit == quotient.units() * official.units(),
    ;
    let found = local.over_spec(official);
    assert(local.size() * unit == official.size() * quotient.size()) by (nonlinear_arith)
        requires
            local.units() * unit == quotient.units() * official.units(),
            local.units() == local.size(),
            official.units() == official.size(),
            quotient.units() == quotient.size(),
    ;
    doubles_round_to_themselves(official.size(), quotient.magnitude_bits());
    assert(found.units() == quotient.units());
    sums_are_exact(found, one.negated_spec(), excess);
    let moved = found.minus_spec(one);
    assert(moved.units() == excess.units());
    let scale = Binary64 { bits: TEN_THOUSAND_BITS };
    lemma_ten_thousand();
    let size = points.size();
    lemma_size_zero(points.magnitude_bits());
    lemma_size_zero(moved.magnitude_bits());
    assert(size == 10_000 * moved.size());
    assert(scale.size() * moved.size() == unit * size) by (nonlinear_arith)
        requires
            scale.size() == 10_000 * unit,
            size == 10_000 * moved.size(),
    ;
    doubles_round_to_themselves(unit, points.magnitude_bits());
}

proof fn lemma_ten_thousand()
    ensures
        magnitude(TEN_THOUSAND_BITS as nat) == 10_000 * one_in_units(),
{
    lemma_powers();
    lemma_magnitude_of(1035, 0x0013_8800_0000_0000);
    assert(1035 * 0x0010_0000_0000_0000 + 0x0013_8800_0000_0000 == TEN_THOUSAND_BITS);
    vstd::arithmetic::power2::lemma2_to64();
    vstd::arithmetic::power2::lemma2_to64_rest();
    vstd::arithmetic::power2::lemma_pow2_adds(39, 1035);
    assert(pow2(39) == 0x80_0000_0000);
    assert(0x0013_8800_0000_0000 == 10_000 * 0x80_0000_0000);
    assert((10_000 * 0x80_0000_0000) * pow2(1035) == 10_000 * (0x80_0000_0000 * pow2(1035)))
        by (nonlinear_arith);
}

/// Two comparisons are the same regardless of which comes first, and never the same where
/// the local value, the published price or an active venue differs.
pub proof fn sameness_needs_every_part(left: Comparison, right: Comparison, venue: Venue)
    ensures
        left.same(right) <==> right.same(left),
        left.same(right) ==> !left.local.nan() && left.local.units() == right.local.units(),
        left.same(right) ==> (left.official is Some <==> right.official is Some),
        left.same(right) && left.official is Some ==> left.official->Some_0.units()
            == right.official->Some_0.units(),
        left.same(right) ==> left.active_venues@[venue.index_spec() as int]
            == right.active_venues@[venue.index_spec() as int],
        left.same(right) ==> left.sources == right.sources && left.total_weight
            == right.total_weight,
{
}

} // verus!
