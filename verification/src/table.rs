//! The texts of the monitor's tables.

use vstd::arithmetic::power2::{lemma2_to64, lemma2_to64_rest, lemma_pow2_adds, pow2};
use vstd::prelude::*;
use vstd::string::StringExecFns;

use crate::float::arithmetic::one_in_units;
use crate::float::round::{lemma_magnitude_of, lemma_powers, magnitude};
use crate::float::Binary64;
use crate::model::Venue;
use crate::monitor::{plus_signed, plus_signed_text, AssetMetrics, MetricsView};
use crate::oracle::Comparison;
use crate::sources::{Asset, AssetView};
use crate::text::{decimal, decimal_text, framed, signed_decimal, signed_decimal_text, views};
use crate::time::{Duration, Instant, NANOS_PER_MILLI};

verus! {

/// The bits of 1000.
pub const THOUSAND_BITS: u64 = 0x408f_4000_0000_0000;

/// The width from which the table shows all columns.
pub const WIDE_COLUMNS: u16 = 165;

/// Whether a terminal is wide enough for all columns.
pub fn is_wide(columns: u16) -> (wide: bool)
    ensures
        wide == (columns >= WIDE_COLUMNS),
{
    columns >= WIDE_COLUMNS
}

/// The decimals with which a price is shown: two from a thousand up, else six.
pub fn price_decimals(value: Binary64) -> (decimals: usize)
    ensures
        decimals == if (Binary64 { bits: THOUSAND_BITS }).at_most(value) {
            2usize
        } else {
            6usize
        },
{
    let thousand: Binary64 = Binary64 { bits: THOUSAND_BITS };
    if thousand.is_at_most(value) {
        2
    } else {
        6
    }
}

/// The numbers of a row as texts.
#[derive(Clone, Debug)]
pub struct RowTexts {
    /// The local value.
    pub local: String,
    /// The published value.
    pub official: String,
    /// The difference in basis points, with its sign and three decimals.
    pub difference: String,
    /// The peak correlation with two decimals.
    pub correlation: String,
    /// The mean size of the differences with three decimals.
    pub mean: String,
    /// The largest size of the differences with three decimals.
    pub peak: String,
}

/// The whole milliseconds since a point in time.
pub open spec fn age_spec(at: Instant, now: Instant) -> Seq<char> {
    decimal(now.nanos_since(at) / (NANOS_PER_MILLI as nat)) + " ms"@
}

/// The whole milliseconds since a point in time.
pub fn age(at: Instant, now: Instant) -> (text: String)
    ensures
        text@ == age_spec(at, now),
{
    let mut text: String = decimal_text(now.saturating_duration_since(at).as_millis());
    text.append(" ms");
    text
}

/// The age of a point in time, where there is one.
pub open spec fn age_or_dash(at: Option<Instant>, now: Instant) -> Seq<char> {
    match at {
        Some(at) => age_spec(at, now),
        None => "-"@,
    }
}

fn known_age(at: Option<Instant>, now: Instant) -> (text: String)
    ensures
        text@ == age_or_dash(at, now),
{
    match at {
        Some(at) => age(at, now),
        None => "-".to_owned(),
    }
}

/// The fresh sources and their weight beside the expected ones.
pub open spec fn sources_spec(asset: AssetView, comparison: Option<Comparison>) -> Seq<char> {
    match comparison {
        Some(value) => decimal(value.sources as nat) + "/"@ + decimal(asset.expected_count())
            + " ("@ + decimal(value.total_weight as nat) + "/"@ + decimal(asset.expected_weight())
            + ")"@,
        None => "-"@,
    }
}

fn sources_text(asset: &Asset, comparison: Option<Comparison>) -> (text: String)
    ensures
        text@ == sources_spec(asset@, comparison),
{
    match comparison {
        Some(value) => {
            let mut text: String = decimal_text(value.sources as u128);
            text.append("/");
            text.append(decimal_text(asset.expected_source_count() as u128).as_str());
            text.append(" (");
            text.append(decimal_text(value.total_weight as u128).as_str());
            text.append("/");
            text.append(decimal_text(asset.expected_source_weight() as u128).as_str());
            text.append(")");
            text
        },
        None => "-".to_owned(),
    }
}

/// The time from the latest published price to the latest quote.
pub open spec fn gap_spec(metrics: MetricsView) -> Seq<char> {
    match metrics.gap_millis() {
        Some(gap) => plus_signed(gap) + " ms"@,
        None => "-"@,
    }
}

fn gap_text(metrics: &AssetMetrics) -> (text: String)
    ensures
        text@ == gap_spec(metrics@),
{
    match metrics.local_minus_official_ms() {
        Some(gap) => {
            let mut text: String = plus_signed_text(gap);
            text.append(" ms");
            text
        },
        None => "-".to_owned(),
    }
}

/// A text where there is something to show, else a dash.
pub open spec fn shown(present: bool, text: Seq<char>) -> Seq<char> {
    if present {
        text
    } else {
        "-"@
    }
}

fn show(present: bool, text: &str) -> (result: String)
    ensures
        result@ == shown(present, text@),
{
    if present {
        text.to_owned()
    } else {
        "-".to_owned()
    }
}

/// There is a published value beside the local one.
pub open spec fn has_official(comparison: Option<Comparison>) -> bool {
    comparison matches Some(value) && value.official is Some
}

/// There is a difference.
pub open spec fn has_difference(comparison: Option<Comparison>) -> bool {
    comparison matches Some(value) && value.difference_bps is Some
}

/// The cells that every table shows of a coin.
pub open spec fn narrow_row(
    asset: AssetView,
    comparison: Option<Comparison>,
    metrics: MetricsView,
    texts: RowTexts,
) -> Seq<Seq<char>> {
    seq![
        asset.coin,
        shown(comparison is Some, texts.local@),
        shown(has_official(comparison), texts.official@),
        shown(has_difference(comparison), texts.difference@),
        metrics.label(texts.correlation@),
        sources_spec(asset, comparison),
    ]
}

/// The cells that only a wide table shows of a coin.
pub open spec fn wide_cells(metrics: MetricsView, texts: RowTexts, now: Instant) -> Seq<Seq<char>> {
    seq![
        age_or_dash(metrics.local_at, now),
        age_or_dash(metrics.official_at, now),
        gap_spec(metrics),
        shown(metrics.diff_samples != 0, texts.mean@ + "/"@ + texts.peak@),
        decimal(metrics.local_updates as nat) + "/"@ + decimal(metrics.official_updates as nat),
    ]
}

/// The cells of a coin's row.
pub open spec fn row_spec(
    asset: AssetView,
    comparison: Option<Comparison>,
    metrics: MetricsView,
    texts: RowTexts,
    now: Instant,
    wide: bool,
) -> Seq<Seq<char>> {
    if wide {
        narrow_row(asset, comparison, metrics, texts) + wide_cells(metrics, texts, now)
    } else {
        narrow_row(asset, comparison, metrics, texts)
    }
}

/// The cells of a coin's row.
pub fn row(
    asset: &Asset,
    comparison: Option<Comparison>,
    metrics: &AssetMetrics,
    texts: &RowTexts,
    now: Instant,
    wide: bool,
) -> (cells: Vec<String>)
    ensures
        views(cells@) == row_spec(asset@, comparison, metrics@, *texts, now, wide),
{
    let (official, difference): (bool, bool) = match comparison {
        Some(value) => (value.official.is_some(), value.difference_bps.is_some()),
        None => (false, false),
    };
    let mut cells: Vec<String> = Vec::new();
    cells.push(asset.coin.clone());
    cells.push(show(comparison.is_some(), texts.local.as_str()));
    cells.push(show(official, texts.official.as_str()));
    cells.push(show(difference, texts.difference.as_str()));
    cells.push(metrics.lead_label(texts.correlation.as_str()));
    cells.push(sources_text(asset, comparison));
    proof {
        assert(views(cells@) =~= narrow_row(asset@, comparison, metrics@, *texts));
    }
    if wide {
        let ghost before = views(cells@);
        cells.push(known_age(metrics.local_at, now));
        cells.push(known_age(metrics.official_at, now));
        cells.push(gap_text(metrics));
        cells.push(
            show(
                metrics.diff_samples != 0,
                framed(texts.mean.as_str(), "/", texts.peak.as_str()).as_str(),
            ),
        );
        cells.push(
            framed(
                decimal_text(metrics.local_updates as u128).as_str(),
                "/",
                decimal_text(metrics.official_updates as u128).as_str(),
            ),
        );
        proof {
            assert(views(cells@) =~= before + wide_cells(metrics@, *texts, now));
        }
    }
    cells
}

/// The line below the tables.
pub open spec fn footer_spec(wide: bool, dropped_updates: u64) -> Seq<char> {
    (if wide {
        "\u{2191}/\u{2193} select \u{00b7} Enter opens the price chart \u{00b7} L-HL gap = latest local minus latest HL update time (negative = local first). Queue drops: "@
    } else {
        "\u{2191}/\u{2193} select \u{00b7} Enter opens the price chart. Use a 165-column terminal for ages, gap, and rolling error. Queue drops: "@
    }) + decimal(dropped_updates as nat) + ". q exits."@
}

/// The line below the tables.
pub fn footer(wide: bool, dropped_updates: u64) -> (text: String)
    ensures
        text@ == footer_spec(wide, dropped_updates),
{
    framed(
        if wide {
            "\u{2191}/\u{2193} select \u{00b7} Enter opens the price chart \u{00b7} L-HL gap = latest local minus latest HL update time (negative = local first). Queue drops: "
        } else {
            "\u{2191}/\u{2193} select \u{00b7} Enter opens the price chart. Use a 165-column terminal for ages, gap, and rolling error. Queue drops: "
        },
        decimal_text(dropped_updates as u128).as_str(),
        ". q exits.",
    )
}

/// The line below the chart.
pub open spec fn chart_footer_spec(coin: Seq<char>, lead: Seq<char>) -> Seq<char> {
    coin + " \u{00b7} local vs HL oracle \u{00b7} lead/corr: "@ + lead
        + " \u{00b7} \u{2191}/\u{2193} change coin \u{00b7} Enter/Esc back \u{00b7} q quit"@
}

/// The line below the chart.
pub fn chart_footer(coin: &str, lead: &str) -> (text: String)
    ensures
        text@ == chart_footer_spec(coin@, lead@),
{
    let mut text: String = framed(coin, " \u{00b7} local vs HL oracle \u{00b7} lead/corr: ", lead);
    text.append(" \u{00b7} \u{2191}/\u{2193} change coin \u{00b7} Enter/Esc back \u{00b7} q quit");
    text
}

/// The time since the last quote: milliseconds below a second, else the seconds that
/// are given as text.
pub open spec fn since_label_spec(since: Duration, seconds: Seq<char>) -> Seq<char> {
    let millis = since.nanos as nat / NANOS_PER_MILLI as nat;
    if millis < 1_000 {
        decimal(millis) + "ms"@
    } else {
        seconds + "s"@
    }
}

/// The time since the last quote, given the seconds with one decimal.
pub fn since_label(since: Duration, seconds: &str) -> (text: String)
    ensures
        text@ == since_label_spec(since, seconds@),
{
    let millis: u128 = since.as_millis();
    if millis < 1_000 {
        let mut text: String = decimal_text(millis);
        text.append("ms");
        text
    } else {
        let mut text: String = seconds.to_owned();
        text.append("s");
        text
    }
}

/// The colours of a source's cell.
#[derive(Clone, Copy, Debug, PartialEq, Eq, Structural)]
pub enum CellColor {
    /// Stale.
    Dim,
    /// A negative latency, from a clock that is not synchronised.
    Magenta,
    /// Fast, or fresh without a timestamp.
    Green,
    /// Slower.
    Yellow,
    /// Slow.
    Red,
}

/// The colour for a latency.
pub open spec fn cell_color(latency_ms: Option<i64>, stale: bool) -> CellColor {
    if stale {
        CellColor::Dim
    } else {
        match latency_ms {
            Some(value) => if value < 0 {
                CellColor::Magenta
            } else if value < 100 {
                CellColor::Green
            } else if value < 400 {
                CellColor::Yellow
            } else {
                CellColor::Red
            },
            None => CellColor::Green,
        }
    }
}

/// The colour for a latency.
pub fn source_cell_style(latency_ms: Option<i64>, stale: bool) -> (color: CellColor)
    ensures
        color == cell_color(latency_ms, stale),
{
    if stale {
        return CellColor::Dim;
    }
    match latency_ms {
        Some(value) => if value < 0 {
            CellColor::Magenta
        } else if value < 100 {
            CellColor::Green
        } else if value < 400 {
            CellColor::Yellow
        } else {
            CellColor::Red
        },
        None => CellColor::Green,
    }
}

/// What the sources panel shows of a venue: its last latency, the time since its last
/// quote, and a colour; dim once that time exceeds twice the freshness window.
pub open spec fn source_cell_spec(
    metrics: MetricsView,
    venue: Venue,
    max_quote_age: Duration,
    now: Instant,
    seconds: Seq<char>,
) -> Option<(Seq<char>, CellColor)> {
    match metrics.source_at[venue.index_spec() as int] {
        Some(at) => {
            let since = Duration { nanos: now.nanos_since(at) as u128 };
            let latency = metrics.source_latency[venue.index_spec() as int];
            let latency_text = match latency {
                Some(value) => signed_decimal(value as int),
                None => "-"@,
            };
            Some(
                (
                    latency_text + " \u{00b7} "@ + since_label_spec(since, seconds),
                    cell_color(latency, since.nanos > 2 * max_quote_age.nanos),
                ),
            )
        },
        None => None,
    }
}

/// What the sources panel shows of a venue, `None` if it never sent a quote. `seconds`
/// is the time since its last quote in seconds with one decimal.
pub fn source_cell(
    metrics: &AssetMetrics,
    venue: Venue,
    max_quote_age: Duration,
    now: Instant,
    seconds: &str,
) -> (cell: Option<(String, CellColor)>)
    requires
        2 * max_quote_age.nanos <= u128::MAX,
    ensures
        match cell {
            Some((text, color)) => source_cell_spec(
                metrics@,
                venue,
                max_quote_age,
                now,
                seconds@,
            ) == Some((text@, color)),
            None => source_cell_spec(metrics@, venue, max_quote_age, now, seconds@) is None,
        },
{
    let index: usize = venue.index();
    match metrics.source_at[index] {
        Some(at) => {
            let since: Duration = now.saturating_duration_since(at);
            let latency: Option<i64> = metrics.source_latency[index];
            let latency_text: String = match latency {
                Some(value) => signed_decimal_text(value as i128),
                None => "-".to_owned(),
            };
            let stale: bool = since.nanos > 2 * max_quote_age.nanos;
            Some(
                (
                    framed(
                        latency_text.as_str(),
                        " \u{00b7} ",
                        since_label(since, seconds).as_str(),
                    ),
                    source_cell_style(latency, stale),
                ),
            )
        },
        None => None,
    }
}

/// A row shows, in this order, the coin, the local value, the published value, their
/// difference, the lead and the fresh sources; a dash stands where there is nothing to
/// show. A wide one goes on with the ages of both, the gap, the errors and the counts.
pub proof fn rows_have_their_columns(
    asset: AssetView,
    comparison: Option<Comparison>,
    metrics: MetricsView,
    texts: RowTexts,
    now: Instant,
)
    ensures
        ({
            let narrow = row_spec(asset, comparison, metrics, texts, now, false);
            let wide = row_spec(asset, comparison, metrics, texts, now, true);
            let official = comparison is Some && comparison->Some_0.official is Some;
            let difference = comparison is Some && comparison->Some_0.difference_bps is Some;
            &&& narrow.len() == 6 && wide.len() == 11
            &&& wide.take(6) == narrow
            &&& narrow[0] == asset.coin
            &&& narrow[1] == if comparison is Some { texts.local@ } else { "-"@ }
            &&& narrow[2] == if official { texts.official@ } else { "-"@ }
            &&& narrow[3] == if difference { texts.difference@ } else { "-"@ }
            &&& narrow[4] == metrics.label(texts.correlation@)
            &&& comparison is None ==> narrow[5] == "-"@
            &&& comparison matches Some(value) ==> narrow[5] == decimal(value.sources as nat)
                + "/"@ + decimal(asset.expected_count()) + " ("@ + decimal(
                value.total_weight as nat,
            ) + "/"@ + decimal(asset.expected_weight()) + ")"@
            &&& metrics.local_at is None ==> wide[6] == "-"@
            &&& metrics.official_at is None ==> wide[7] == "-"@
            &&& metrics.local_at matches Some(at) ==> wide[6] == age_spec(at, now)
            &&& metrics.official_at matches Some(at) ==> wide[7] == age_spec(at, now)
            &&& metrics.gap_millis() is None ==> wide[8] == "-"@
            &&& metrics.gap_millis() matches Some(gap) ==> wide[8] == plus_signed(gap) + " ms"@
            &&& wide[9] == if metrics.diff_samples == 0 {
                "-"@
            } else {
                texts.mean@ + "/"@ + texts.peak@
            }
            &&& wide[10] == decimal(metrics.local_updates as nat) + "/"@ + decimal(
                metrics.official_updates as nat,
            )
        }),
{
    let narrow = row_spec(asset, comparison, metrics, texts, now, false);
    let wide = row_spec(asset, comparison, metrics, texts, now, true);
    assert(wide.take(6) =~= narrow);
}

/// An age is the whole milliseconds that have passed.
pub proof fn ages_are_whole_milliseconds(at: Instant, now: Instant, millis: nat)
    requires
        at.nanos <= now.nanos,
        millis * 1_000_000 <= now.nanos - at.nanos < (millis + 1) * 1_000_000,
    ensures
        age_spec(at, now) == decimal(millis) + " ms"@,
{
}

/// Below a second the time since the last quote is shown in whole milliseconds, from a
/// second on in seconds.
pub proof fn times_are_shown_in_their_unit(since: Duration, seconds: Seq<char>, millis: nat)
    requires
        millis * 1_000_000 <= since.nanos < (millis + 1) * 1_000_000,
    ensures
        since.nanos < 1_000_000_000 ==> since_label_spec(since, seconds) == decimal(millis)
            + "ms"@,
        since.nanos >= 1_000_000_000 ==> since_label_spec(since, seconds) == seconds + "s"@,
{
}

/// A cell is dim exactly if it is stale. Else its colour is that of the latency: below zero
/// magenta, below 100 ms or without one green, below 400 ms yellow, and red from there on.
pub proof fn colours_follow_the_latency(latency: Option<i64>)
    ensures
        cell_color(latency, true) == CellColor::Dim,
        ({
            let color = cell_color(latency, false);
            &&& color == CellColor::Magenta <==> latency is Some && latency->Some_0 <= -1
            &&& color == CellColor::Green <==> latency is None || 0 <= latency->Some_0 <= 99
            &&& color == CellColor::Yellow <==> latency is Some && 100 <= latency->Some_0 <= 399
            &&& color == CellColor::Red <==> latency is Some && latency->Some_0 >= 400
        }),
{
}

/// A venue that sent a quote shows its last latency, or a dash, and the time since; the cell
/// is dim exactly if more than twice the freshness window has passed. One that never sent
/// any shows nothing.
pub proof fn cells_show_latency_and_age(
    metrics: MetricsView,
    venue: Venue,
    max_quote_age: Duration,
    now: Instant,
    seconds: Seq<char>,
)
    ensures
        ({
            let cell = source_cell_spec(metrics, venue, max_quote_age, now, seconds);
            let place = venue.index_spec() as int;
            let latency = metrics.source_latency[place];
            &&& cell is None <==> metrics.source_at[place] is None
            &&& metrics.source_at[place] matches Some(at) ==> at.nanos <= now.nanos ==> {
                let since = Duration { nanos: (now.nanos - at.nanos) as u128 };
                let shown = cell->Some_0;
                &&& shown.0 == (if latency is Some {
                    signed_decimal(latency->Some_0 as int)
                } else {
                    "-"@
                }) + " \u{00b7} "@ + since_label_spec(since, seconds)
                &&& shown.1 == cell_color(latency, since.nanos > 2 * max_quote_age.nanos)
                &&& shown.1 == CellColor::Dim <==> now.nanos - at.nanos > 2 * max_quote_age.nanos
            }
        }),
{
}

/// Prices from a thousand up are shown with two decimals, lower ones and what is not a
/// number with six.
pub proof fn high_prices_are_shown_with_two_decimals(value: Binary64, decimals: usize)
    requires
        call_ensures(price_decimals, (value,), decimals),
    ensures
        decimals == 2 || decimals == 6,
        decimals == 2 <==> !value.nan() && value.units() >= 1_000 * one_in_units(),
{
    lemma_thousand();
}

proof fn lemma_thousand()
    ensures
        magnitude(THOUSAND_BITS as nat) == 1_000 * one_in_units(),
{
    lemma_powers();
    lemma_magnitude_of(1031, 0x001f_4000_0000_0000);
    assert(1031 * 0x0010_0000_0000_0000 + 0x001f_4000_0000_0000 == THOUSAND_BITS);
    lemma2_to64();
    lemma2_to64_rest();
    lemma_pow2_adds(43, 1031);
    assert(pow2(43) == 0x800_0000_0000);
    assert(0x001f_4000_0000_0000 == 1_000 * 0x800_0000_0000);
    assert((1_000 * 0x800_0000_0000) * pow2(1031) == 1_000 * (0x800_0000_0000 * pow2(1031)))
        by (nonlinear_arith);
}

/// All columns are shown from 165 columns on.
pub proof fn wide_terminals_have_165_columns(columns: u16, wide: bool)
    requires
        call_ensures(is_wide, (columns,), wide),
    ensures
        wide <==> columns >= 165,
{
}

/// The line below the tables tells the drops, and how to leave.
pub proof fn footers_tell_the_drops(wide: bool, dropped_updates: u64)
    ensures
        ({
            let text = footer_spec(wide, dropped_updates);
            let tail = decimal(dropped_updates as nat) + ". q exits."@;
            text.len() >= tail.len() && text.subrange(
                text.len() - tail.len(),
                text.len() as int,
            ) == tail
        }),
{
    let text = footer_spec(wide, dropped_updates);
    let tail = decimal(dropped_updates as nat) + ". q exits."@;
    assert(text.subrange(text.len() - tail.len(), text.len() as int) =~= tail);
}

/// The lines below name the keys; the narrow one tells how wide a terminal shows all, the
/// wide one what the gap is, and the chart's begins with the coin and shows its lead.
pub proof fn footers_name_the_keys(
    dropped: u64,
    wide: String,
    narrow: String,
    coin: &str,
    lead: &str,
    chart: String,
)
    requires
        call_ensures(footer, (true, dropped), wide),
        call_ensures(footer, (false, dropped), narrow),
        call_ensures(chart_footer, (coin, lead), chart),
    ensures
        wide@ == "\u{2191}/\u{2193} select \u{00b7} Enter opens the price chart \u{00b7} L-HL gap = latest local minus latest HL update time (negative = local first). Queue drops: "@
            + decimal(dropped as nat) + ". q exits."@,
        narrow@ == "\u{2191}/\u{2193} select \u{00b7} Enter opens the price chart. Use a 165-column terminal for ages, gap, and rolling error. Queue drops: "@
            + decimal(dropped as nat) + ". q exits."@,
        chart@ == coin@ + " \u{00b7} local vs HL oracle \u{00b7} lead/corr: "@ + lead@
            + " \u{00b7} \u{2191}/\u{2193} change coin \u{00b7} Enter/Esc back \u{00b7} q quit"@,
{
}

} // verus!
