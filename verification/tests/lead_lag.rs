use hl_oracle::float::Binary64;
use hl_oracle::lead_lag::{
    correlation, estimate, log_arguments, official_window, price_ratio, shift, LeadLag,
    LeadLagConfig, LeadStatus, PriceSample,
};
use hl_oracle::time::{Duration, Instant};

fn number(value: f64) -> Binary64 {
    Binary64 { bits: value.to_bits() }
}

fn plain(value: Binary64) -> f64 {
    f64::from_bits(value.bits)
}

fn moment(millis: u64) -> Instant {
    Instant { nanos: 1_000_000_000_000_000 + millis as u128 * 1_000_000 }
}

fn sample(millis: u64, price: f64) -> PriceSample {
    PriceSample { at: moment(millis), price: number(price) }
}

fn run(
    local: &[PriceSample],
    official: &[PriceSample],
    now: Instant,
    config: LeadLagConfig,
) -> LeadLag {
    let logs: Vec<(Binary64, Binary64)> = log_arguments(local, official, now, config)
        .into_iter()
        .map(|(first, second)| (number(plain(first).ln()), number(plain(second).ln())))
        .collect();
    estimate(local, official, now, config, &logs)
}

fn wave(index: u64) -> f64 {
    let x = index as f64;
    100.0 + (x * 0.071).sin() + (x * 0.019).cos()
}

fn series(last: u64) -> (Vec<PriceSample>, Vec<PriceSample>) {
    let local: Vec<PriceSample> = (0..last).map(|index| sample(index * 100, wave(index))).collect();
    let official = (30..last)
        .step_by(30)
        .map(|index| PriceSample {
            at: moment(index * 100),
            price: local[index as usize - 5].price,
        })
        .collect();
    (local, official)
}

#[test]
fn finds_a_known_local_lead() {
    let (local, official) = series(3600);
    let result = run(
        &local,
        &official,
        moment(359_000),
        LeadLagConfig::market_making(Duration::from_millis(100)),
    );
    assert_eq!(result.lead_ms, 500);
    assert!(plain(result.peak_correlation) > 0.99);
    assert_eq!(result.status, LeadStatus::Candidate);
    assert_eq!(result.coverage.as_secs(), 297);
    let gain = plain(result.peak_correlation) - plain(result.zero_lag_correlation.unwrap());
    assert_eq!(result.correlation_gain.map(plain), Some(gain));
    assert!(gain >= 0.05);
}

#[test]
fn warm_up_is_timed() {
    let config = LeadLagConfig::market_making(Duration::from_millis(100));
    let (local, official) = series(1230);
    let result = run(&local, &official, moment(123_000), config);
    assert_eq!(result.coverage.as_millis(), 117_000);
    assert_eq!(result.status, LeadStatus::Insufficient);
    assert_eq!(result.lead_ms, 500);
    let (local, official) = series(1261);
    let result = run(&local, &official, moment(126_000), config);
    assert_eq!(result.coverage.as_millis(), 120_000 + 3_000);
    assert_eq!(result.status, LeadStatus::Candidate);
    // A few changes are enough, once they span two minutes.
    let sparse: Vec<PriceSample> = official.iter().step_by(20).copied().collect();
    let result = run(&local, &sparse, moment(126_000), config);
    assert_eq!(result.coverage.as_millis(), 120_000);
    assert_ne!(result.status, LeadStatus::Insufficient);
}

#[test]
fn without_local_prices_the_estimate_is_inconclusive() {
    let config = LeadLagConfig::market_making(Duration::from_millis(100));
    let (_, official) = series(1300);
    let result = run(&[], &official, moment(130_000), config);
    assert_eq!(result.status, LeadStatus::Weak);
    assert_eq!(result.samples, 0);
    assert_eq!(result.lead_ms, 0);
}

#[test]
fn without_history_there_is_no_estimate() {
    let config = LeadLagConfig::market_making(Duration::from_millis(100));
    let single = [sample(0, 1.0)];
    for official in [&single[..], &[]] {
        let result = run(&[], official, moment(10), config);
        assert_eq!(result.status, LeadStatus::Insufficient);
        assert_eq!(result.coverage.as_millis(), 0);
    }
    let (local, official) = series(1300);
    let mut still = config;
    still.step = Duration::from_millis(0);
    assert!(still.is_sound());
    assert_eq!(run(&local, &official, moment(130_000), still).status, LeadStatus::Insufficient);
    let mut tiny = config;
    tiny.step = Duration { nanos: 1 };
    assert!(!tiny.is_sound());
    assert!(config.is_sound());
}

#[test]
fn thresholds_of_market_making() {
    let config = LeadLagConfig::market_making(Duration::from_millis(7));
    assert_eq!(plain(config.minimum_correlation), 0.30);
    assert_eq!(plain(config.minimum_gain), 0.05);
    assert_eq!(config.window.as_secs(), 300);
    assert_eq!(config.minimum_lag.as_millis(), 3_000);
    assert_eq!(config.maximum_lag.as_millis(), 6_000);
    assert_eq!(config.step.as_millis(), 100);
    assert_eq!(config.max_quote_age.as_millis(), 7);
    assert_eq!(LeadLagConfig::minimum_history().as_secs(), 120);
}

#[test]
fn correlation_matches_plain_arithmetic() {
    let pairs = [(0.1, 0.3), (-0.2, -0.1), (0.05, 0.2), (0.4, 0.1)];
    let count = pairs.len() as f64;
    let mean_x = pairs.iter().map(|(x, _)| x).sum::<f64>() / count;
    let mean_y = pairs.iter().map(|(_, y)| y).sum::<f64>() / count;
    let (mut covariance, mut variance_x, mut variance_y) = (0.0, 0.0, 0.0);
    for (x, y) in pairs {
        let (dx, dy) = (x - mean_x, y - mean_y);
        covariance += dx * dy;
        variance_x += dx * dx;
        variance_y += dy * dy;
    }
    let expected: f64 = covariance / f64::sqrt(variance_x * variance_y);
    let exact: Vec<(Binary64, Binary64)> =
        pairs.iter().map(|(x, y)| (number(*x), number(*y))).collect();
    assert_eq!(correlation(&exact).map(plain), Some(expected));
    assert_eq!(correlation(&exact[..1]), None);
    let flat = [(number(1.0), number(2.0)), (number(1.0), number(3.0))];
    assert_eq!(correlation(&flat), None);
}

#[test]
fn shifting_and_windows() {
    assert_eq!(shift(moment(5_000), 2_000), Some(moment(3_000)));
    assert_eq!(shift(moment(5_000), -2_000), Some(moment(7_000)));
    assert_eq!(shift(Instant { nanos: 1 }, 1), None);
    assert_eq!(shift(Instant { nanos: u128::MAX }, -1), None);
    let samples = [sample(0, 1.0), sample(1_000, 2.0), sample(2_000, 3.0)];
    let kept = official_window(&samples, moment(3_000), Duration::from_millis(2_000));
    assert_eq!(kept.len(), 2);
    assert_eq!(kept[0], samples[1]);
    assert_eq!(price_ratio(number(2.0), number(3.0)).map(plain), Some(1.5));
    assert_eq!(price_ratio(number(0.0), number(3.0)), None);
    assert_eq!(price_ratio(number(2.0), number(f64::NAN)), None);
}

fn scanning(first: u64, last: u64) -> LeadLagConfig {
    LeadLagConfig {
        minimum_lag: Duration::from_millis(first),
        maximum_lag: Duration::from_millis(last),
        ..LeadLagConfig::market_making(Duration::from_millis(100))
    }
}

#[test]
fn of_equal_peaks_the_smallest_lag_is_reported() {
    let prices = [100.0, 101.0, 103.0, 102.0];
    let local: Vec<PriceSample> =
        (0..400).map(|index| sample(index * 100, prices[index as usize % 4])).collect();
    let moved = |by: usize| -> Vec<PriceSample> {
        (100..300)
            .step_by(3)
            .map(|index| sample(index * 100, prices[(index as usize + by) % 4]))
            .collect()
    };
    let config = LeadLagConfig::market_making(Duration::from_millis(100));
    for (by, lead) in [(0, 0), (3, 100), (2, -200), (1, -100)] {
        let result = run(&local, &moved(by), moment(30_000), config);
        assert_eq!(result.lead_ms, lead);
        assert_eq!(result.samples, 66);
        assert!(plain(result.peak_correlation) > 0.99);
    }
}

#[test]
fn the_correlation_without_a_lag_is_that_of_lag_zero() {
    let (local, official) = series(1300);
    let now = moment(130_000);
    let only = run(&local, &official, now, scanning(0, 0));
    assert_eq!(only.lead_ms, 0);
    assert_eq!(only.zero_lag_correlation.map(plain), Some(plain(only.peak_correlation)));
    let all = run(&local, &official, now, scanning(1_000, 1_000));
    assert_eq!(all.zero_lag_correlation.map(plain), Some(plain(only.peak_correlation)));
    assert_eq!(all.lead_ms, 500);
    assert!(plain(all.peak_correlation) >= plain(only.peak_correlation));
    // Lags from -250 ms in steps of 100 ms leave out zero.
    let without = run(&local, &official, now, scanning(250, 1_000));
    assert!(without.zero_lag_correlation.is_none());
    assert_eq!((without.lead_ms + 250) % 100, 0);
    assert!(plain(without.peak_correlation) <= plain(all.peak_correlation));
}

#[test]
fn correlations_of_logarithms_are_numbers() {
    let pairs = |values: &[(f64, f64)]| -> Vec<(Binary64, Binary64)> {
        values.iter().map(|(x, y)| (number(*x), number(*y))).collect()
    };
    let extreme = [(709.0, -744.0), (-744.0, 709.0), (709.0, 709.0), (-744.0, -744.0)];
    let found = correlation(&pairs(&extreme)).unwrap();
    assert!(plain(found).abs() < 1e-9);
    let opposed = [(709.0, -744.0), (-744.0, 709.0)];
    assert_eq!(correlation(&pairs(&opposed)).map(plain).map(f64::round), Some(-1.0));
    for unusual in [f64::INFINITY, f64::NEG_INFINITY, f64::NAN] {
        assert!(correlation(&pairs(&[(1.0, 2.0), (unusual, 3.0), (2.0, 5.0)])).is_none());
        assert!(correlation(&pairs(&[(1.0, 2.0), (3.0, unusual), (2.0, 5.0)])).is_none());
    }
    // Quotients that leave the range of doubles have infinite logarithms.
    let local = [sample(0, 1e-300), sample(100, 1e300), sample(200, 1e-300), sample(300, 1.0)];
    let official: Vec<PriceSample> =
        (0..4).map(|index| sample(index * 100, 100.0 + (index * index) as f64)).collect();
    let result = run(&local, &official, moment(300), scanning(0, 0));
    assert_eq!(result.samples, 0);
    assert!(result.zero_lag_correlation.is_none());
}
