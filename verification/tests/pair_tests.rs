use matching_engine::models::TradingPair;

#[test]
fn new_keeps_symbols() {
    let p = TradingPair::new(String::from("BTC"), String::from("USD"));
    assert_eq!(p.base, "BTC");
    assert_eq!(p.quote, "USD");
}

#[test]
fn from_string_parses_base_quote() {
    let p = TradingPair::from_string("BTC/USD").unwrap();
    assert_eq!(p.base, "BTC");
    assert_eq!(p.quote, "USD");
}

#[test]
fn from_string_rejects_missing_separator() {
    let r = TradingPair::from_string("BTCUSD");
    assert!(r.is_err());
    assert_eq!(r.unwrap_err(), "Invalid trading pair format. Use BASE/QUOTE");
}

#[test]
fn from_string_rejects_duplicated_separator() {
    assert!(TradingPair::from_string("A/B/C").is_err());
}

#[test]
fn from_string_rejects_empty() {
    assert!(TradingPair::from_string("").is_err());
}

#[test]
fn from_string_allows_empty_sides() {
    let p = TradingPair::from_string("A/").unwrap();
    assert_eq!(p.base, "A");
    assert_eq!(p.quote, "");
}

#[test]
fn parse_goes_through_from_string() {
    let p: TradingPair = "SOL/EUR".parse().unwrap();
    assert_eq!(p.base, "SOL");
    assert_eq!(p.quote, "EUR");
    assert!("SOLEUR".parse::<TradingPair>().is_err());
}

#[test]
fn pairs_compare_structurally() {
    let a = TradingPair::from_string("ETH/USD").unwrap();
    let b = TradingPair::new(String::from("ETH"), String::from("USD"));
    assert_eq!(a, b);
}
