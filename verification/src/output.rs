//! The lines of the feed's output.

use vstd::prelude::*;
use vstd::string::StringExecFns;

use crate::model::{all_venues, Venue, VENUE_COUNT};
use crate::oracle::Comparison;
use crate::sources::{Asset, AssetView};
use crate::text::{decimal, decimal_text, framed, join, joined, views};

verus! {

/// The quoted names of the active ones among the first `count` venues.
pub open spec fn active_names(active: Seq<bool>, count: nat) -> Seq<Seq<char>>
    decreases count,
{
    if count == 0 {
        Seq::empty()
    } else {
        let before = active_names(active, (count - 1) as nat);
        if active[count - 1] {
            before.push("\""@ + all_venues()[count - 1].name_spec() + "\""@)
        } else {
            before
        }
    }
}

/// The quoted names of the active venues, with commas between them.
pub open spec fn active_sources_spec(active: Seq<bool>) -> Seq<char> {
    joined(active_names(active, VENUE_COUNT as nat), ","@)
}

/// The quoted names of the active venues, with commas between them.
pub fn active_sources(active: &[bool; VENUE_COUNT]) -> (text: String)
    ensures
        text@ == active_sources_spec(active@),
{
    let venues: [Venue; VENUE_COUNT] = Venue::ALL;
    let mut names: Vec<String> = Vec::new();
    let mut index: usize = 0;
    proof {
        assert(views(names@) =~= Seq::<Seq<char>>::empty());
    }
    while index < VENUE_COUNT
        invariant
            index <= VENUE_COUNT,
            venues@ == all_venues(),
            views(names@) == active_names(active@, index as nat),
        decreases VENUE_COUNT - index,
    {
        let ghost before = views(names@);
        if active[index] {
            let name: String = framed("\"", venues[index].name(), "\"");
            names.push(name);
            proof {
                assert(views(names@) =~= before.push(name@));
            }
        }
        index = index + 1;
    }
    join(&names, ",")
}

/// A coin's comparison as a JSON object, given its numbers as texts: the local value
/// and the published one with ten decimals, the difference with six.
pub open spec fn json_line_spec(
    asset: AssetView,
    value: Comparison,
    dropped_updates: u64,
    local: Seq<char>,
    official: Seq<char>,
    difference: Seq<char>,
) -> Seq<char> {
    let (official, difference) = if value.official is Some {
        (official, difference)
    } else {
        ("null"@, "null"@)
    };
    "{\"coin\":\""@ + asset.coin + "\",\"local_oracle\":"@ + local + ",\"hyperliquid_oracle\":"@
        + official + ",\"difference_bps\":"@ + difference + ",\"sources\":"@ + decimal(
        value.sources as nat,
    ) + ",\"weight\":"@ + decimal(value.total_weight as nat) + ",\"expected_sources\":"@ + decimal(
        asset.expected_count(),
    ) + ",\"expected_weight\":"@ + decimal(asset.expected_weight()) + ",\"active_sources\":["@
        + active_sources_spec(value.active_venues@) + "],\"dropped_updates\":"@ + decimal(
        dropped_updates as nat,
    ) + "}"@
}

/// A coin's comparison as a JSON object, given its numbers as texts: the local value
/// and the published one with ten decimals, the difference with six.
pub fn json_line(
    asset: &Asset,
    value: &Comparison,
    dropped_updates: u64,
    local: &str,
    official: &str,
    difference: &str,
) -> (line: String)
    ensures
        line@ == json_line_spec(
            asset@,
            *value,
            dropped_updates,
            local@,
            official@,
            difference@,
        ),
{
    let known: bool = value.official.is_some();
    let mut line: String = "{\"coin\":\"".to_owned();
    line.append(asset.coin.as_str());
    line.append("\",\"local_oracle\":");
    line.append(local);
    line.append(",\"hyperliquid_oracle\":");
    line.append(if known { official } else { "null" });
    line.append(",\"difference_bps\":");
    line.append(if known { difference } else { "null" });
    line.append(",\"sources\":");
    line.append(decimal_text(value.sources as u128).as_str());
    line.append(",\"weight\":");
    line.append(decimal_text(value.total_weight as u128).as_str());
    line.append(",\"expected_sources\":");
    line.append(decimal_text(asset.expected_source_count() as u128).as_str());
    line.append(",\"expected_weight\":");
    line.append(decimal_text(asset.expected_source_weight() as u128).as_str());
    line.append(",\"active_sources\":[");
    line.append(active_sources(&value.active_venues).as_str());
    line.append("],\"dropped_updates\":");
    line.append(decimal_text(dropped_updates as u128).as_str());
    line.append("}");
    line
}

/// The active sources are listed by name, in index order, each exactly if it is active.
pub proof fn active_venues_are_listed(active: Seq<bool>, count: nat)
    requires
        count <= VENUE_COUNT,
        active.len() == VENUE_COUNT,
    ensures
        active_names(active, count) == all_venues().take(count as int).filter(
            |venue: Venue| active[venue.index_spec() as int],
        ).map_values(|venue: Venue| seq!['"'] + venue.name_spec() + seq!['"']),
    decreases count,
{
    let chosen = |venue: Venue| active[venue.index_spec() as int];
    let name = |venue: Venue| seq!['"'] + venue.name_spec() + seq!['"'];
    let list = all_venues().take(count as int);
    reveal(Seq::filter);
    reveal_strlit("\"");
    assert("\""@ =~= seq!['"']);
    if count > 0 {
        let less = (count - 1) as nat;
        active_venues_are_listed(active, less);
        assert(list.drop_last() =~= all_venues().take(less as int));
        let before = list.drop_last().filter(chosen);
        assert(list.last() == all_venues()[count - 1]);
        assert(list.last().index_spec() == count - 1);
        assert(before.push(list.last()).map_values(name) =~= before.map_values(name).push(
            name(list.last()),
        ));
        assert(active_names(active, count) =~= list.filter(chosen).map_values(name));
    } else {
        assert(list.filter(chosen).map_values(name) =~= active_names(active, count));
    }
}

/// A member of a JSON object.
pub open spec fn json_member(key: Seq<char>, value: Seq<char>) -> Seq<char> {
    "\""@ + key + "\":"@ + value
}

/// A line is a JSON object of ten members: the coin, both values and their difference,
/// null where nothing is published, what is fresh beside what is expected, the active
/// sources, and the drops.
pub proof fn lines_are_objects_of_ten_members(
    asset: AssetView,
    value: Comparison,
    dropped_updates: u64,
    local: Seq<char>,
    official: Seq<char>,
    difference: Seq<char>,
)
    ensures
        json_line_spec(asset, value, dropped_updates, local, official, difference) == "{"@
            + json_member("coin"@, "\""@ + asset.coin + "\""@) + ","@ + json_member(
            "local_oracle"@,
            local,
        ) + ","@ + json_member(
            "hyperliquid_oracle"@,
            if value.official is Some {
                official
            } else {
                "null"@
            },
        ) + ","@ + json_member(
            "difference_bps"@,
            if value.official is Some {
                difference
            } else {
                "null"@
            },
        ) + ","@ + json_member("sources"@, decimal(value.sources as nat)) + ","@ + json_member(
            "weight"@,
            decimal(value.total_weight as nat),
        ) + ","@ + json_member("expected_sources"@, decimal(asset.expected_count())) + ","@
            + json_member("expected_weight"@, decimal(asset.expected_weight())) + ","@
            + json_member(
            "active_sources"@,
            "["@ + joined(active_names(value.active_venues@, VENUE_COUNT as nat), ","@) + "]"@,
        ) + ","@ + json_member("dropped_updates"@, decimal(dropped_updates as nat)) + "}"@,
{
    reveal_strlit("{\"coin\":\"");
    reveal_strlit("\",\"local_oracle\":");
    reveal_strlit(",\"hyperliquid_oracle\":");
    reveal_strlit(",\"difference_bps\":");
    reveal_strlit(",\"sources\":");
    reveal_strlit(",\"weight\":");
    reveal_strlit(",\"expected_sources\":");
    reveal_strlit(",\"expected_weight\":");
    reveal_strlit(",\"active_sources\":[");
    reveal_strlit("],\"dropped_updates\":");
    reveal_strlit("}");
    reveal_strlit("{");
    reveal_strlit("[");
    reveal_strlit("]");
    reveal_strlit(",");
    reveal_strlit("\"");
    reveal_strlit("\":");
    reveal_strlit("coin");
    reveal_strlit("local_oracle");
    reveal_strlit("hyperliquid_oracle");
    reveal_strlit("difference_bps");
    reveal_strlit("sources");
    reveal_strlit("weight");
    reveal_strlit("expected_sources");
    reveal_strlit("expected_weight");
    reveal_strlit("active_sources");
    reveal_strlit("dropped_updates");
    assert("{\"coin\":\""@ =~= "{"@ + "\""@ + "coin"@ + "\":"@ + "\""@);
    assert("\",\"local_oracle\":"@ =~= "\""@ + ","@ + "\""@ + "local_oracle"@ + "\":"@);
    assert(",\"hyperliquid_oracle\":"@ =~= ","@ + "\""@ + "hyperliquid_oracle"@ + "\":"@);
    assert(",\"difference_bps\":"@ =~= ","@ + "\""@ + "difference_bps"@ + "\":"@);
    assert(",\"sources\":"@ =~= ","@ + "\""@ + "sources"@ + "\":"@);
    assert(",\"weight\":"@ =~= ","@ + "\""@ + "weight"@ + "\":"@);
    assert(",\"expected_sources\":"@ =~= ","@ + "\""@ + "expected_sources"@ + "\":"@);
    assert(",\"expected_weight\":"@ =~= ","@ + "\""@ + "expected_weight"@ + "\":"@);
    assert(",\"active_sources\":["@ =~= ","@ + "\""@ + "active_sources"@ + "\":"@ + "["@);
    assert("],\"dropped_updates\":"@ =~= "]"@ + ","@ + "\""@ + "dropped_updates"@ + "\":"@);
    let published = if value.official is Some { official } else { "null"@ };
    let apart = if value.official is Some { difference } else { "null"@ };
    let names = joined(active_names(value.active_venues@, VENUE_COUNT as nat), ","@);
    let drops = decimal(dropped_updates as nat);
    let named = "{"@ + json_member("coin"@, "\""@ + asset.coin + "\""@);
    assert(named =~= "{\"coin\":\""@ + asset.coin + "\""@);
    let start = "{\"coin\":\""@ + asset.coin;
    let one = start + "\",\"local_oracle\":"@ + local;
    assert(named + ","@ + json_member("local_oracle"@, local) =~= one);
    lemma_next(one, "hyperliquid_oracle"@, published, ",\"hyperliquid_oracle\":"@);
    let two = one + ",\"hyperliquid_oracle\":"@ + published;
    lemma_next(two, "difference_bps"@, apart, ",\"difference_bps\":"@);
    let three = two + ",\"difference_bps\":"@ + apart;
    lemma_next(three, "sources"@, decimal(value.sources as nat), ",\"sources\":"@);
    let four = three + ",\"sources\":"@ + decimal(value.sources as nat);
    lemma_next(four, "weight"@, decimal(value.total_weight as nat), ",\"weight\":"@);
    let five = four + ",\"weight\":"@ + decimal(value.total_weight as nat);
    lemma_next(
        five,
        "expected_sources"@,
        decimal(asset.expected_count()),
        ",\"expected_sources\":"@,
    );
    let six = five + ",\"expected_sources\":"@ + decimal(asset.expected_count());
    lemma_next(six, "expected_weight"@, decimal(asset.expected_weight()), ",\"expected_weight\":"@);
    let seven = six + ",\"expected_weight\":"@ + decimal(asset.expected_weight());
    let listed = seven + ",\"active_sources\":["@ + names;
    assert(seven + ","@ + json_member("active_sources"@, "["@ + names + "]"@) =~= listed + "]"@);
    assert(listed + "]"@ + ","@ + json_member("dropped_updates"@, drops) =~= listed
        + "],\"dropped_updates\":"@ + drops);
}

/// One more member behind others.
proof fn lemma_next(before: Seq<char>, key: Seq<char>, value: Seq<char>, lead: Seq<char>)
    requires
        lead == ","@ + "\""@ + key + "\":"@,
    ensures
        before + ","@ + json_member(key, value) == before + lead + value,
{
    assert(before + ","@ + json_member(key, value) =~= before + lead + value);
}

} // verus!
