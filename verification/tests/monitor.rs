use std::collections::VecDeque;

use hl_oracle::chart::{axis_middle, chart, forward_fill, points};
use hl_oracle::config::build_assets;
use hl_oracle::float::Binary64;
use hl_oracle::lead_lag::{LeadLag, LeadLagConfig, LeadStatus, PriceSample};
use hl_oracle::model::{OfficialUpdate, QuoteUpdate, Update};
use hl_oracle::monitor::{
    plus_signed_text, trim_history, AssetMetrics, Key, Monitor, Screen, Signal, Step,
};
use hl_oracle::table::{
    age, chart_footer, footer, is_wide, price_decimals, row, since_label, source_cell,
    source_cell_style, CellColor, RowTexts,
};
use hl_oracle::time::{Duration, Instant};
use hl_oracle::{Comparison, Venue};

fn number(value: f64) -> Binary64 {
    Binary64 { bits: value.to_bits() }
}

fn plain(value: Binary64) -> f64 {
    f64::from_bits(value.bits)
}

fn at(millis: u64) -> Instant {
    Instant { nanos: 1_000_000_000_000_000 + millis as u128 * 1_000_000 }
}

fn sample(millis: u64, price: f64) -> PriceSample {
    PriceSample { at: at(millis), price: number(price) }
}

fn comparison(difference: Option<f64>) -> Comparison {
    Comparison {
        local: number(100.0),
        official: difference.map(|_| number(99.0)),
        difference_bps: difference.map(number),
        sources: 2,
        total_weight: 5,
        active_venues: [true, true, false, false, false, false, false, false],
    }
}

fn quote(venue: Venue, bid: f64, ask: f64, millis: u64, latency_ms: Option<i64>) -> Update {
    Update::Quote(QuoteUpdate {
        venue,
        asset: 0,
        bid: number(bid),
        ask: number(ask),
        received_at: at(millis),
        latency_ms,
    })
}

fn official(oracle: f64, millis: u64) -> Update {
    Update::Official(OfficialUpdate {
        asset: 0,
        oracle: number(oracle),
        received_at: at(millis),
    })
}

fn logs(arguments: &[(Binary64, Binary64)]) -> Vec<(Binary64, Binary64)> {
    arguments
        .iter()
        .map(|(first, second)| (number(plain(*first).ln()), number(plain(*second).ln())))
        .collect()
}

fn texts() -> RowTexts {
    RowTexts {
        local: "100.000000".to_owned(),
        official: "99.000000".to_owned(),
        difference: "+1.000".to_owned(),
        correlation: "0.87".to_owned(),
        mean: "1.000".to_owned(),
        peak: "2.000".to_owned(),
    }
}

#[test]
fn histories_hold_changes_only() {
    let mut metrics = AssetMetrics::new();
    metrics.observe_local(at(0), Some(number(1.0)));
    metrics.observe_local(at(1), Some(number(1.0)));
    metrics.observe_local(at(2), None);
    metrics.observe_local(at(3), Some(number(2.0)));
    assert_eq!(metrics.local_updates, 4);
    assert_eq!(metrics.local_at, Some(at(3)));
    assert_eq!(metrics.local_history, [sample(0, 1.0), sample(3, 2.0)]);
    metrics.observe_official(at(4), number(5.0));
    metrics.observe_official(at(6), number(5.0));
    assert_eq!(metrics.official_updates, 2);
    assert_eq!(metrics.official_history, [sample(4, 5.0)]);
    assert_eq!(metrics.local_minus_official_ms(), Some(-3));
    metrics.observe_local(at(16), None);
    assert_eq!(metrics.local_minus_official_ms(), Some(10));
    assert_eq!(AssetMetrics::new().local_minus_official_ms(), None);
}

#[test]
fn trimming_drops_what_is_too_old() {
    let mut history: VecDeque<PriceSample> =
        [sample(0, 1.0), sample(10, 2.0), sample(20, 3.0)].into_iter().collect();
    trim_history(&mut history, at(30), Duration::from_millis(20));
    assert_eq!(history, [sample(10, 2.0), sample(20, 3.0)]);
    trim_history(&mut history, at(100), Duration::from_millis(20));
    assert!(history.is_empty());
}

#[test]
fn differences_enter_mean_and_peak() {
    let mut metrics = AssetMetrics::new();
    let differences = [-2.0, 1.0, 0.3];
    let mut mean = 0.0;
    let mut peak = 0.0_f64;
    for (index, difference) in differences.iter().enumerate() {
        metrics.observe_comparison(comparison(Some(*difference)));
        mean += (f64::abs(*difference) - mean) / (index + 1) as f64;
        peak = peak.max(f64::abs(*difference));
    }
    metrics.observe_comparison(comparison(None));
    assert_eq!(metrics.diff_samples, 3);
    assert_eq!(plain(metrics.mean_abs_diff_bps), mean);
    assert_eq!(plain(metrics.peak_abs_diff_bps), peak);
}

#[test]
fn lead_labels() {
    let mut metrics = AssetMetrics::new();
    assert_eq!(metrics.lead_label("0.00"), "warming up (0s/120s)");
    let with = |status: LeadStatus, lead_ms: i64, seconds: u64| LeadLag {
        status,
        lead_ms,
        coverage: Duration::from_secs(seconds),
        ..LeadLag::default()
    };
    metrics.lead_lag = with(LeadStatus::Insufficient, 0, 75);
    assert_eq!(metrics.lead_label("0.00"), "warming up (75s/120s)");
    metrics.lead_lag = with(LeadStatus::Insufficient, 0, 500);
    assert_eq!(metrics.lead_label("0.00"), "warming up (120s/120s)");
    metrics.lead_lag = with(LeadStatus::Weak, 400, 200);
    assert_eq!(metrics.lead_label("0.00"), "inconclusive");
    metrics.lead_lag = with(LeadStatus::Candidate, 400, 200);
    metrics.lead_streak = 2;
    assert_eq!(metrics.lead_label("0.87"), "inconclusive");
    metrics.lead_streak = 3;
    assert_eq!(metrics.lead_label("0.87"), "+400 ms r=0.87 confirmed");
    assert_eq!(plus_signed_text(0), "+0");
    assert_eq!(plus_signed_text(-12), "-12");
    assert_eq!(plus_signed_text(i128::MIN), i128::MIN.to_string());
}

#[test]
fn keys_move_through_the_screens() {
    let mut monitor = Monitor::new(3, Duration::from_millis(1_500), Duration::from_secs(6));
    assert!(monitor.press(Key::Up));
    assert_eq!(monitor.selected(), 0);
    for expected in [1, 2, 2] {
        assert!(monitor.press(Key::Down));
        assert_eq!(monitor.selected(), expected);
    }
    assert!(monitor.press(Key::Up));
    assert_eq!(monitor.selected(), 1);
    assert!(monitor.press(Key::Enter));
    assert_eq!(monitor.screen(), Screen::Chart);
    assert!(monitor.press(Key::Other));
    assert!(monitor.press(Key::Escape));
    assert_eq!(monitor.screen(), Screen::Table);
    assert!(monitor.press(Key::Enter));
    assert!(monitor.press(Key::Enter));
    assert_eq!(monitor.screen(), Screen::Table);
    assert!(!monitor.press(Key::Escape));
    assert!(!monitor.press(Key::Quit));
}

#[test]
fn updates_change_metrics_and_comparisons() {
    let mut monitor = Monitor::new(1, Duration::from_millis(1_500), Duration::from_secs(6));
    assert!(matches!(
        monitor.receive(quote(Venue::Okx, 2.0, 1.0, 0, None), at(0)),
        Step::Ignored
    ));
    assert!(matches!(
        monitor.receive(quote(Venue::Okx, 99.0, 101.0, 0, Some(12)), at(0)),
        Step::Settled
    ));
    assert_eq!(monitor.comparison(0).map(|value| plain(value.local)), Some(100.0));
    assert_eq!(monitor.metric(0).source_at[1], Some(at(0)));
    assert_eq!(monitor.metric(0).source_latency[1], Some(12));
    assert_eq!(monitor.metric(0).local_history, [sample(0, 100.0)]);
    monitor.receive(quote(Venue::Okx, 99.0, 101.0, 5, None), at(5));
    assert_eq!(monitor.metric(0).source_latency[1], Some(12));
    let Step::Logs(arguments) = monitor.receive(official(99.0, 10), at(10)) else {
        panic!("no estimate")
    };
    assert!(arguments.is_empty());
    monitor.resume(0, at(10), &logs(&arguments));
    assert_eq!(monitor.metric(0).last_lead_official, Some(at(10)));
    assert_eq!(monitor.metric(0).diff_samples, 1);
    assert!(matches!(monitor.receive(official(99.0, 20), at(20)), Step::Settled));
    assert_eq!(monitor.metric(0).diff_samples, 2);
    assert_eq!(monitor.metric(0).official_updates, 2);
    monitor.refresh(at(2_000));
    assert!(monitor.comparison(0).is_none());
    monitor.refresh(at(400_000));
    assert!(monitor.metric(0).local_history.is_empty());
    assert!(monitor.metric(0).official_history.is_empty());
}

#[test]
fn a_lead_is_confirmed_by_three_candidates_in_a_row() {
    let mut monitor = Monitor::new(1, Duration::from_millis(150), Duration::from_secs(6));
    let wave = |index: u64| {
        let x = index as f64;
        100.0 + (x * 0.071).sin() + (x * 0.019).cos()
    };
    let mut labels = Vec::new();
    for index in 0..1_320 {
        let price = wave(index);
        monitor.receive(quote(Venue::Binance, price, price, index * 100, None), at(index * 100));
        if index >= 30 && index % 30 == 0 {
            let update = official(wave(index - 5), index * 100);
            if let Step::Logs(arguments) = monitor.receive(update, at(index * 100)) {
                monitor.resume(0, at(index * 100), &logs(&arguments));
            }
            labels.push(monitor.metric(0).lead_label("1.00"));
        }
    }
    assert_eq!(labels[39], "warming up (117s/120s)");
    assert_eq!(labels[40], "inconclusive");
    assert_eq!(labels[41], "inconclusive");
    assert_eq!(labels[42], "+500 ms r=1.00 confirmed");
}

#[test]
fn rows_of_the_table() {
    let assets = build_assets(&["BTC".to_owned()], &[], &[]).unwrap();
    let mut metrics = AssetMetrics::new();
    assert_eq!(
        row(&assets[0], None, &metrics, &texts(), at(0), true),
        ["BTC", "-", "-", "-", "warming up (0s/120s)", "-", "-", "-", "-", "-", "0/0"]
    );
    metrics.observe_local(at(10), Some(number(100.0)));
    metrics.observe_official(at(25), number(99.0));
    metrics.observe_comparison(comparison(Some(1.0)));
    let value = Some(comparison(Some(1.0)));
    assert_eq!(
        row(&assets[0], value, &metrics, &texts(), at(40), true),
        [
            "BTC", "100.000000", "99.000000", "+1.000", "warming up (0s/120s)", "2/7 (5/11)",
            "30 ms", "15 ms", "-15 ms", "1.000/2.000", "1/1"
        ]
    );
    assert_eq!(
        row(&assets[0], Some(comparison(None)), &metrics, &texts(), at(40), false),
        ["BTC", "100.000000", "-", "-", "warming up (0s/120s)", "2/7 (5/11)"]
    );
    assert_eq!(age(at(5), at(12)), "7 ms");
    assert!(is_wide(165) && !is_wide(164));
    assert_eq!(price_decimals(number(1_000.0)), 2);
    assert_eq!(price_decimals(number(999.9999)), 6);
}

#[test]
fn lines_below() {
    assert_eq!(
        footer(true, 3),
        "\u{2191}/\u{2193} select \u{00b7} Enter opens the price chart \u{00b7} L-HL gap = latest local minus latest HL update time (negative = local first). Queue drops: 3. q exits."
    );
    assert_eq!(
        footer(false, 0),
        "\u{2191}/\u{2193} select \u{00b7} Enter opens the price chart. Use a 165-column terminal for ages, gap, and rolling error. Queue drops: 0. q exits."
    );
    assert_eq!(
        chart_footer("BTC", "inconclusive"),
        "BTC \u{00b7} local vs HL oracle \u{00b7} lead/corr: inconclusive \u{00b7} \u{2191}/\u{2193} change coin \u{00b7} Enter/Esc back \u{00b7} q quit"
    );
}

#[test]
fn source_cells() {
    let mut metrics = AssetMetrics::new();
    let window = Duration::from_millis(1_500);
    assert_eq!(source_cell(&metrics, Venue::Gate, window, at(0), "0.0"), None);
    metrics.observe_source(Venue::Gate, at(0), Some(99));
    assert_eq!(
        source_cell(&metrics, Venue::Gate, window, at(999), "1.0"),
        Some(("99 \u{00b7} 999ms".to_owned(), CellColor::Green))
    );
    assert_eq!(
        source_cell(&metrics, Venue::Gate, window, at(3_000), "3.0"),
        Some(("99 \u{00b7} 3.0s".to_owned(), CellColor::Green))
    );
    assert_eq!(
        source_cell(&metrics, Venue::Gate, window, at(3_001), "3.0"),
        Some(("99 \u{00b7} 3.0s".to_owned(), CellColor::Dim))
    );
    metrics.observe_source(Venue::Binance, at(0), None);
    assert_eq!(
        source_cell(&metrics, Venue::Binance, window, at(1), "0.0"),
        Some(("- \u{00b7} 1ms".to_owned(), CellColor::Green))
    );
    assert_eq!(source_cell_style(Some(-1), false), CellColor::Magenta);
    assert_eq!(source_cell_style(Some(0), false), CellColor::Green);
    assert_eq!(source_cell_style(Some(100), false), CellColor::Yellow);
    assert_eq!(source_cell_style(Some(400), false), CellColor::Red);
    assert_eq!(source_cell_style(Some(400), true), CellColor::Dim);
    assert_eq!(since_label(Duration::from_millis(1_000), "1.0"), "1.0s");
}

#[test]
fn lines_are_staircases() {
    let series = [(number(-1.0), number(5.0)), (number(-0.4), number(6.0))];
    let line = forward_fill(&series, number(0.25));
    let seen: Vec<(f64, f64)> = line.iter().map(|(x, y)| (plain(*x), plain(*y))).collect();
    assert_eq!(
        seen,
        [(-1.0, 5.0), (-0.75, 5.0), (-0.5, 5.0), (-0.25, 6.0), (0.0, 6.0)]
    );
    assert!(forward_fill(&[], number(0.25)).is_empty());
    let now = [(number(0.0), number(5.0))];
    assert_eq!(forward_fill(&now, number(0.25)), now);
}

#[test]
fn charts_cover_five_minutes() {
    let mut metrics = AssetMetrics::new();
    assert!(chart(&metrics, at(0)).is_none());
    metrics.observe_local(at(0), Some(number(90.0)));
    metrics.observe_local(at(1_250), Some(number(100.0)));
    metrics.observe_official(at(300_000), number(110.0));
    let drawn = chart(&metrics, at(301_250)).unwrap();
    assert_eq!(plain(drawn.x_min), -300.0);
    assert_eq!(plain(drawn.y_min), 100.0 - 10.0 * 0.1);
    assert_eq!(plain(drawn.y_max), 110.0 + 10.0 * 0.1);
    assert_eq!(drawn.local.len(), 601);
    assert_eq!(drawn.local[0], (number(-300.0), number(100.0)));
    assert_eq!(drawn.local[600], (number(0.0), number(100.0)));
    assert_eq!(drawn.official.len(), 4);
    assert_eq!(drawn.official[0], (number(-1.25), number(110.0)));
    assert_eq!(plain(axis_middle(drawn.x_min, number(0.0))), -150.0);
    let history = &metrics.local_history;
    let span = std::time::Duration::from_millis(300_000);
    assert_eq!(points(history, at(300_000))[0].0, number(-span.as_secs_f64()));
    let odd = Instant { nanos: at(0).nanos + 123_456_789_123 };
    let span = std::time::Duration::from_nanos(123_456_789_123);
    assert_eq!(points(history, odd)[0].0, number(-span.as_secs_f64()));
}

#[test]
fn a_single_fresh_price_makes_a_chart() {
    let mut metrics = AssetMetrics::new();
    metrics.observe_official(at(5), number(50.0));
    let drawn = chart(&metrics, at(5)).unwrap();
    assert_eq!(plain(drawn.x_min), -1.0);
    assert!(drawn.local.is_empty());
    assert_eq!(drawn.official.len(), 1);
    assert_eq!(plain(drawn.official[0].0), 0.0);
    let pad = 50.0 * 1e-5;
    assert_eq!(plain(drawn.y_min), 50.0 - pad);
    assert_eq!(plain(drawn.y_max), 50.0 + pad);
}

#[test]
fn a_single_candidate_is_inconclusive() {
    let mut metrics = AssetMetrics::default();
    assert_eq!(metrics.lead_label("0.00"), "warming up (0s/120s)");
    metrics.lead_lag.status = LeadStatus::Candidate;
    for streak in 0..3 {
        metrics.lead_streak = streak;
        assert_eq!(metrics.lead_label("0.87"), "inconclusive");
    }
    metrics.lead_streak = 3;
    assert_eq!(metrics.lead_label("0.87"), "+0 ms r=0.87 confirmed");
}

#[test]
fn the_monitor_ends_on_request() {
    let monitor = || Monitor::new(2, Duration::from_millis(150), Duration::from_secs(6));
    assert!(!monitor().heed(Signal::Interrupted));
    assert!(!monitor().heed(Signal::Closed));
    assert!(!monitor().heed(Signal::Pressed(Key::Quit)));
    assert!(!monitor().heed(Signal::Pressed(Key::Escape)));
    let mut shown = monitor();
    for key in [Key::Enter, Key::Down, Key::Down, Key::Down, Key::Other] {
        assert!(shown.heed(Signal::Pressed(key)));
        assert!(shown.selected() < 2);
    }
    assert_eq!(shown.selected(), 1);
    assert_eq!(shown.screen(), Screen::Chart);
    assert!(shown.heed(Signal::Pressed(Key::Escape)));
    assert_eq!(shown.screen(), Screen::Table);
    assert!(!shown.heed(Signal::Pressed(Key::Escape)));
}

#[test]
fn streaks_count_candidates_of_one_sign() {
    let config = LeadLagConfig::market_making(Duration::from_millis(100));
    let wave = |index: u64| {
        let x = index as f64;
        100.0 + (x * 0.071).sin() + (x * 0.019).cos()
    };
    let estimate = |metrics: &mut AssetMetrics, now: Instant| {
        let arguments = metrics.lead_arguments(now, config).unwrap_or_default();
        metrics.update_lead_lag(now, config, &logs(&arguments));
    };
    let mut metrics = AssetMetrics::new();
    let mut streaks = Vec::new();
    for index in 0..1_410 {
        let now = at(index * 100);
        metrics.observe_local(now, Some(number(wave(index))));
        if index >= 30 && index % 30 == 0 {
            if index == 1_320 {
                metrics.lead_streak = 254;
            }
            if index == 1_380 {
                metrics.lead_lag.lead_ms = -500;
            }
            metrics.observe_official(now, number(wave(index - 5)));
            estimate(&mut metrics, now);
            let streak = metrics.lead_streak;
            // Without a new published price nothing changes.
            metrics.observe_official(at(index * 100 + 10), number(wave(index - 5)));
            estimate(&mut metrics, at(index * 100 + 10));
            assert_eq!(metrics.lead_streak, streak);
            streaks.push(streak);
        }
    }
    assert_eq!(streaks[39..], [0, 1, 2, 3, 255, 255, 1]);
}
