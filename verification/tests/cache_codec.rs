use orderbook::cache::{
    absorb_cache_write, order_book_after_live_fetch, order_book_from_cache, CacheReadOutcome,
    CacheStep, Redis, ORDER_BOOK_TTL,
};
use orderbook::codec::{decode_order_book, encode_order_book};
use orderbook::decimal::Decimal;
use orderbook::error::ServiceError;
use orderbook::order_book::{OrderBook, OrderBookEntity};

fn entity(price: i64, qty: i64) -> OrderBookEntity {
    OrderBookEntity { price: Decimal::from_int(price), qty: Decimal::from_int(qty) }
}

fn sample_book() -> OrderBook {
    OrderBook {
        asks: vec![entity(100, 1), entity(150, 10)],
        bids: vec![
            OrderBookEntity {
                price: Decimal::new(905, 1).unwrap(),
                qty: Decimal::new(123456, 4).unwrap(),
            },
            entity(85, 100),
        ],
    }
}

#[test]
fn codec_round_trips_a_snapshot() {
    let book = sample_book();
    let bytes = encode_order_book(&book);
    let decoded = decode_order_book(&bytes).unwrap();
    assert_eq!(decoded, book);

    let empty = OrderBook { asks: vec![], bids: vec![] };
    let bytes = encode_order_book(&empty);
    assert_eq!(decode_order_book(&bytes).unwrap(), empty);
}

#[test]
fn decode_rejects_corrupt_bytes() {
    let book = sample_book();
    let mut bytes = encode_order_book(&book);
    // Flip one byte of the first length field.
    bytes[0] = bytes[0].wrapping_add(1);
    assert!(decode_order_book(&bytes).is_err());

    // Truncated payloads are refused too.
    let bytes = encode_order_book(&book);
    let shorter = bytes[..bytes.len() - 1].to_vec();
    assert!(decode_order_book(&shorter).is_err());
    assert!(decode_order_book(&vec![]).is_err());
}

#[test]
fn cache_hit_uses_the_stored_snapshot() {
    let book = sample_book();
    let bytes = encode_order_book(&book);
    match order_book_from_cache(CacheReadOutcome::Hit(bytes)) {
        CacheStep::Use(ob) => assert_eq!(ob, book),
        _ => panic!("expected the cached snapshot to be used"),
    }
}

#[test]
fn corrupt_cache_value_fails_and_does_not_fetch() {
    let book = sample_book();
    let mut bytes = encode_order_book(&book);
    let last = bytes.len() - 1;
    bytes[last] = bytes[last].wrapping_add(7);
    match order_book_from_cache(CacheReadOutcome::Hit(bytes)) {
        CacheStep::Fail(ServiceError::Internal(msg)) => {
            assert_eq!(msg, "corrupt cached order book");
        }
        CacheStep::FetchLive => panic!("a corrupt value must not fall through to a live fetch"),
        _ => panic!("expected an internal failure"),
    }
}

#[test]
fn cache_miss_fetches_live_and_store_errors_propagate() {
    assert!(matches!(order_book_from_cache(CacheReadOutcome::Miss), CacheStep::FetchLive));
    match order_book_from_cache(CacheReadOutcome::StoreError("io error".to_string())) {
        CacheStep::Fail(ServiceError::Internal(msg)) => assert_eq!(msg, "io error"),
        _ => panic!("expected the store error to propagate"),
    }
}

#[test]
fn live_fetch_results_pass_through() {
    let book = sample_book();
    assert_eq!(order_book_after_live_fetch(Ok(book.clone())), Ok(book));
    assert_eq!(
        order_book_after_live_fetch(Err("exchange down".to_string())),
        Err(ServiceError::Internal("exchange down".to_string()))
    );
}

#[test]
fn cache_write_failure_is_absorbed() {
    let book = sample_book();
    let (kept, warning) = absorb_cache_write(book.clone(), Ok(()));
    assert_eq!(kept, book);
    assert!(warning.is_none());
    let (kept, warning) = absorb_cache_write(book.clone(), Err("write refused".to_string()));
    assert_eq!(kept, book);
    assert_eq!(warning, Some("write refused".to_string()));
}

#[test]
fn redis_handle_checks_url_and_builds_keys() {
    let redis = Redis::new("redis://localhost:6379".to_string()).unwrap();
    assert_eq!(redis.build_redis_key("SOLUSDT"), "orderbook-SOLUSDT");
    assert!(Redis::new("not a redis url".to_string()).is_err());
    assert_eq!(ORDER_BOOK_TTL, 60);
}
