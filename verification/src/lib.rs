//! Order-book depth filtering: turns a raw order book plus a live price
//! into a bounded, ranked, display-ready view, together with the byte
//! codec of the cache-aside strategy and the periodically refreshed
//! registry of tradable symbols.

pub mod binance;
pub mod cache;
pub mod codec;
pub mod decimal;
pub mod error;
pub mod order_book;
pub mod registry;
pub mod state;
pub mod text;

pub use decimal::Decimal;
