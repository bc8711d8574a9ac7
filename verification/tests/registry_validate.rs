use orderbook::binance::{BinanceError, BinanceResponse, BinanceResponseWrapper};
use orderbook::error::ServiceError;
use orderbook::registry::{usdt_trading_pairs, BinanceExchangeSymbol, Registry};
use orderbook::state::{authorize, validate_symbol};

fn row(symbol: &str, status: &str) -> BinanceExchangeSymbol {
    BinanceExchangeSymbol { symbol: symbol.to_string(), status: status.to_string() }
}

#[test]
fn validate_normalizes_and_finds_registered_symbol() {
    let mut registry = Registry::new();
    registry.extend_with(&vec!["SOLUSDT".to_string()]);
    assert_eq!(validate_symbol(&registry, "sol"), Ok("SOLUSDT".to_string()));
    assert_eq!(validate_symbol(&registry, "SOLUSDT"), Ok("SOLUSDT".to_string()));
    assert_eq!(validate_symbol(&registry, "solusdt"), Ok("SOLUSDT".to_string()));
}

#[test]
fn validate_refuses_denylisted_symbol_regardless_of_registry() {
    let registry = Registry::new();
    assert_eq!(
        validate_symbol(&registry, "btc"),
        Err(ServiceError::UnsupportedSymbol("BTCUSDT".to_string()))
    );
    let mut registry = Registry::new();
    registry.extend_with(&vec!["BTCUSDT".to_string()]);
    assert_eq!(
        validate_symbol(&registry, "btc"),
        Err(ServiceError::UnsupportedSymbol("BTCUSDT".to_string()))
    );
}

#[test]
fn validate_reports_unknown_symbol() {
    let mut registry = Registry::new();
    registry.extend_with(&vec!["SOLUSDT".to_string()]);
    assert_eq!(
        validate_symbol(&registry, "xyz"),
        Err(ServiceError::SymbolNotFound("XYZUSDT".to_string()))
    );
}

#[test]
fn refresh_keeps_only_trading_usdt_rows() {
    let rows = vec![
        row("SOLUSDT", "TRADING"),
        row("XRPBTC", "TRADING"),
        row("ADAUSDT", "BREAK"),
        row("DOGEUSDT", "TRADING"),
    ];
    let pairs = usdt_trading_pairs(&rows);
    assert_eq!(pairs, vec!["SOLUSDT".to_string(), "DOGEUSDT".to_string()]);
}

#[test]
fn registry_growth_is_monotone_across_refreshes() {
    let mut registry = Registry::new();
    let first = registry.apply_refresh(Ok(vec![row("SOLUSDT", "TRADING")]));
    assert_eq!(first, Ok(1));
    let second = registry.apply_refresh(Ok(vec![row("DOGEUSDT", "TRADING")]));
    assert_eq!(second, Ok(1));
    // Both refresh outputs stay visible: nothing was pruned.
    assert!(registry.contains_symbol(&"SOLUSDT".to_string()));
    assert!(registry.contains_symbol(&"DOGEUSDT".to_string()));
    // A third refresh repeating a known symbol adds nothing and removes nothing.
    let third = registry.apply_refresh(Ok(vec![row("SOLUSDT", "TRADING")]));
    assert_eq!(third, Ok(0));
    assert!(registry.contains_symbol(&"SOLUSDT".to_string()));
    assert!(registry.contains_symbol(&"DOGEUSDT".to_string()));
}

#[test]
fn failed_refresh_keeps_stale_state_and_reports() {
    let mut registry = Registry::new();
    registry.apply_refresh(Ok(vec![row("SOLUSDT", "TRADING")])).unwrap();
    let result = registry.apply_refresh(Err("connection reset".to_string()));
    assert_eq!(result, Err(ServiceError::Internal("connection reset".to_string())));
    assert!(registry.contains_symbol(&"SOLUSDT".to_string()));
    assert_eq!(registry.len(), 1);
}

#[test]
fn authorize_allows_only_listed_users() {
    let allowed = vec![11, 42];
    assert!(authorize(&allowed, 42).is_ok());
    assert_eq!(authorize(&allowed, 7), Err(ServiceError::Unauthorized));
}

#[test]
fn error_messages_distinguish_the_failures() {
    assert_eq!(
        ServiceError::SymbolNotFound("XYZUSDT".to_string()).message(),
        "XYZUSDT not found"
    );
    assert_eq!(
        ServiceError::UnsupportedSymbol("BTCUSDT".to_string()).message(),
        "BTCUSDT not supported"
    );
    assert_eq!(ServiceError::Unauthorized.message(), "Action not allowed");
    assert_eq!(ServiceError::internal("boom".to_string()).message(), "boom");
}

#[test]
fn binance_envelopes_convert_to_results() {
    let ok: BinanceResponseWrapper<i32> = BinanceResponseWrapper::Payload(5);
    assert_eq!(ok.into_result(), Ok(5));
    let err: BinanceResponseWrapper<i32> = BinanceResponseWrapper::Failure(BinanceError {
        status: -1100,
        message: "bad symbol".to_string(),
    });
    assert_eq!(err.into_result(), Err(ServiceError::Internal("bad symbol".to_string())));

    let some: BinanceResponse<i32> = BinanceResponse::Payload(9);
    assert_eq!(some.into_result(), Ok(9));
    let none: BinanceResponse<i32> = BinanceResponse::Empty;
    assert_eq!(
        none.into_result(),
        Err(ServiceError::Internal("Binance returned no data".to_string()))
    );
}
