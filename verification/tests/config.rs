use hl_oracle::config::{build_assets, valid_coin, valid_spot_symbol, ConfigError};

fn names(list: &[&str]) -> Vec<String> {
    list.iter().map(|name| name.to_string()).collect()
}

fn refused(coins: &[&str], mappings: &[&str], external: &[&str]) -> ConfigError {
    match build_assets(&names(coins), &names(mappings), &names(external)) {
        Ok(_) => panic!("accepted"),
        Err(error) => error,
    }
}

#[test]
fn hyperliquid_primary_spot_defaults_to_no_external_sources() {
    let assets = build_assets(&["HYPE".to_owned(), "BTC".to_owned()], &[], &[]).unwrap();
    assert_eq!(assets[0].expected_source_count(), 1);
    assert_eq!(assets[0].expected_source_weight(), 1);
    assert_eq!(assets[1].expected_source_count(), 7);
    assert_eq!(assets[1].expected_source_weight(), 11);
}

#[test]
fn external_override_is_explicit() {
    let assets = build_assets(&["HYPE".to_owned()], &[], &["HYPE".to_owned()]).unwrap();
    assert_eq!(assets[0].expected_source_count(), 8);
    assert_eq!(assets[0].expected_source_weight(), 12);
}

#[test]
fn duplicate_coins_are_rejected() {
    assert!(build_assets(&["BTC".to_owned(), "btc".to_owned()], &[], &[]).is_err());
}

#[test]
fn names_are_uppercased_and_mappings_override() {
    let assets =
        build_assets(&names(&["hype", "purr"]), &names(&["purr=purr/usdc", "HYPE=@107"]), &[]);
    let error = assets.unwrap_err();
    assert_eq!(error, ConfigError::InvalidMapping("HYPE=@107".to_owned()));
    let assets = build_assets(
        &names(&["hype", "purr", "eth"]),
        &names(&["purr=purr/usdc", "hype=old/usdc", "hype=new/usdc"]),
        &names(&["purr"]),
    )
    .unwrap();
    assert_eq!(assets[0].coin, "HYPE");
    assert_eq!(assets[0].hyperliquid_spot, Some("NEW/USDC".to_owned()));
    assert!(!assets[0].include_external);
    assert_eq!(assets[1].hyperliquid_spot, Some("PURR/USDC".to_owned()));
    assert!(assets[1].include_external);
    assert_eq!(assets[2].hyperliquid_spot, None);
    assert!(assets[2].include_external);
}

#[test]
fn refusals_name_the_culprit() {
    let error = refused(&["BTC"], &["PURR"], &[]);
    assert_eq!(error, ConfigError::MalformedMapping("PURR".to_owned()));
    assert_eq!(
        error.message(),
        "invalid --hl-spot mapping \"PURR\"; expected COIN=SPOT_COIN"
    );
    let error = refused(&["BTC"], &["PU\"RR=A"], &[]);
    assert_eq!(error, ConfigError::InvalidMapping("PU\"RR=A".to_owned()));
    assert_eq!(error.message(), "invalid --hl-spot mapping \"PU\\\"RR=A\"");
    let error = refused(&["B C"], &[], &[]);
    assert_eq!(error, ConfigError::UnsupportedCoin("B C".to_owned()));
    assert_eq!(error.message(), "unsupported coin name \"B C\"");
    let error = refused(&["eth", "ETH"], &[], &[]);
    assert_eq!(error, ConfigError::DuplicateCoin("ETH".to_owned()));
    assert_eq!(error.message(), "duplicate coin \"ETH\"");
    let error = refused(&["ETH"], &[], &["btc"]);
    assert_eq!(error, ConfigError::UnknownExternalCoin("BTC".to_owned()));
    assert_eq!(
        error.message(),
        "--include-external-for must name a requested coin: \"BTC\""
    );
}

#[test]
fn at_most_thirty_external_coins() {
    let many: Vec<String> = (0..31).map(|index| format!("C{index}")).collect();
    let error = build_assets(&many, &[], &[]).unwrap_err();
    assert_eq!(error, ConfigError::TooManyExternalCoins);
    assert_eq!(
        error.message(),
        "at most 30 external coins are supported per process because MEXC limits a WebSocket connection to 30 subscriptions"
    );
    assert_eq!(build_assets(&many[..30], &[], &[]).unwrap().len(), 30);
    let mut with_hype = many[..30].to_vec();
    with_hype.push("HYPE".to_owned());
    assert_eq!(build_assets(&with_hype, &[], &[]).unwrap().len(), 31);
}

#[test]
fn valid_names() {
    assert!(valid_coin("BTC"));
    assert!(valid_coin("k:A-1"));
    assert!(!valid_coin(""));
    assert!(!valid_coin("A/B"));
    assert!(valid_spot_symbol("HYPE/USDC_1"));
    assert!(!valid_spot_symbol("@1"));
    assert!(!valid_spot_symbol(""));
}
