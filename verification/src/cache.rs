//! The order-book cache: the key scheme and client handle of the cache
//! store, and the cache-aside decision steps that the request path
//! follows around its store and exchange calls.

use vstd::prelude::*;
use vstd::string::StringExecFns;
use crate::codec::{decode_order_book, spec_encode};
use crate::error::ServiceError;
use crate::order_book::{OrderBook, OrderBookEntity, all_valid};

verus! {

/// Seconds a cached snapshot lives; expiry is enforced by the store
/// itself, the core does not track it.
pub const ORDER_BOOK_TTL: u64 = 60;

#[verifier::external_type_specification]
#[verifier::external_body]
pub struct ExRedisClient(redis::Client);

/// Whether this connection URL is one the cache store's client accepts.
pub uninterp spec fn redis_url_ok(url: Seq<char>) -> bool;

/// Relies on `redis::Client::open`: it only parses and checks the URL
/// (no connection is made), so the outcome is a function of the URL
/// alone; on failure the error's message is handed back.
#[verifier::external_body]
fn open_client(config: String) -> (r: Result<redis::Client, String>)
    ensures
        r matches Ok(_) <==> redis_url_ok(config@),
{
    match redis::Client::open(config) {
        Ok(client) => Ok(client),
        Err(e) => Err(e.to_string()),
    }
}

/// The handle to the cache store.
pub struct Redis {
    client: redis::Client,
}

impl Redis {
    /// Builds the handle, refusing a malformed connection URL.
    pub fn new(config: String) -> (r: Result<Redis, ServiceError>)
        ensures
            r matches Ok(_) <==> redis_url_ok(config@),
            r matches Err(e) ==> e matches ServiceError::Internal(_),
    {
        match open_client(config) {
            Ok(client) => Ok(Redis { client }),
            Err(msg) => Err(ServiceError::Internal(msg)),
        }
    }

    /// The store key under which a symbol's snapshot lives.
    pub fn build_redis_key(&self, symbol: &str) -> (r: String)
        ensures
            r@ == "orderbook-"@ + symbol@,
    {
        String::from_str("orderbook-").concat(symbol)
    }

    /// The underlying client, for the connection-handling edge of the
    /// program.
    pub fn client(&self) -> &redis::Client {
        &self.client
    }
}

/// What a cache-store read produced, as plain values: a stored byte
/// string, a true miss, or a store failure with its message.
pub enum CacheReadOutcome {
    Hit(Vec<u8>),
    Miss,
    StoreError(String),
}

/// What the request path does next.
pub enum CacheStep {
    Use(OrderBook),
    FetchLive,
    Fail(ServiceError),
}

/// The cache-aside read decision. A present value is decoded: if corrupt
/// it is a genuine error, never silently treated as absent, so a live
/// fetch happens exactly on a true miss. A store failure propagates.
pub fn order_book_from_cache(outcome: CacheReadOutcome) -> (r: CacheStep)
    ensures
        r matches CacheStep::FetchLive <==> outcome matches CacheReadOutcome::Miss,
        (outcome matches CacheReadOutcome::Hit(bytes) ==> ((r matches CacheStep::Use(ob)
            && bytes@ == spec_encode(ob.asks@, ob.bids@) && all_valid(ob.asks@) && all_valid(
            ob.bids@,
        )) || (r matches CacheStep::Fail(e) && e matches ServiceError::Internal(m) && m@
            == "corrupt cached order book"@))),
        (outcome matches CacheReadOutcome::Hit(bytes) ==> forall|
            a: Seq<OrderBookEntity>,
            b: Seq<OrderBookEntity>,
        |
            a.len() <= usize::MAX && b.len() <= usize::MAX && all_valid(a) && all_valid(b)
                && bytes@ == #[trigger] spec_encode(a, b) ==> (r matches CacheStep::Use(ob)
                && ob.asks@ == a && ob.bids@ == b)),
        (outcome matches CacheReadOutcome::StoreError(m) ==> r == CacheStep::Fail(
            ServiceError::Internal(m),
        )),
{
    match outcome {
        CacheReadOutcome::Hit(bytes) => {
            match decode_order_book(&bytes) {
                Ok(book) => CacheStep::Use(book),
                Err(e) => CacheStep::Fail(e),
            }
        },
        CacheReadOutcome::Miss => CacheStep::FetchLive,
        CacheReadOutcome::StoreError(msg) => CacheStep::Fail(ServiceError::Internal(msg)),
    }
}

/// After a live fetch: the exchange's failure propagates with its
/// message; a snapshot passes through untouched.
pub fn order_book_after_live_fetch(fetched: Result<OrderBook, String>) -> (r: Result<
    OrderBook,
    ServiceError,
>)
    ensures
        match fetched {
            Ok(book) => r == Ok::<OrderBook, ServiceError>(book),
            Err(msg) => r == Err::<OrderBook, ServiceError>(ServiceError::Internal(msg)),
        },
{
    match fetched {
        Ok(book) => Ok(book),
        Err(msg) => Err(ServiceError::Internal(msg)),
    }
}

/// Deliberately absorb the outcome of the best-effort cache population:
/// whatever the write returned, the freshly fetched snapshot is still
/// valid and is returned to the caller; a write failure only surfaces as
/// a message for the log.
pub fn absorb_cache_write(book: OrderBook, write_result: Result<(), String>) -> (r: (
    OrderBook,
    Option<String>,
))
    ensures
        r.0 == book,
        match write_result {
            Ok(_) => r.1 is None,
            Err(msg) => r.1 == Some(msg),
        },
{
    match write_result {
        Ok(_) => (book, None),
        Err(msg) => (book, Some(msg)),
    }
}

} // verus!
