//! The exchange's response shapes, as plain values: its error payload,
//! the instrument row, the last-price row, and the two response
//! envelopes with their conversion into the service's result type.

use vstd::prelude::*;
use crate::decimal::Decimal;
use crate::error::ServiceError;

verus! {

/// The exchange's error payload: a status code and a message.
#[derive(Debug, Clone, PartialEq, Eq)]
pub struct BinanceError {
    pub status: i32,
    pub message: String,
}

impl BinanceError {
    /// An exchange failure is wrapped with its message preserved.
    pub fn into_service_error(self) -> (r: ServiceError)
        ensures
            r == ServiceError::Internal(self.message),
    {
        ServiceError::Internal(self.message)
    }
}

/// A last-price row: the symbol and its current price.
#[derive(Debug, Clone)]
pub struct BinancePriceResponse {
    pub symbol: String,
    pub price: Decimal,
}

/// An answer that is either the expected payload or the exchange's error
/// payload.
pub enum BinanceResponseWrapper<T> {
    Payload(T),
    Failure(BinanceError),
}

impl<T> BinanceResponseWrapper<T> {
    pub fn into_result(self) -> (r: Result<T, ServiceError>)
        ensures
            match self {
                BinanceResponseWrapper::Payload(v) => r == Ok::<T, ServiceError>(v),
                BinanceResponseWrapper::Failure(e) => r == Err::<T, ServiceError>(
                    ServiceError::Internal(e.message),
                ),
            },
    {
        match self {
            BinanceResponseWrapper::Payload(value) => Ok(value),
            BinanceResponseWrapper::Failure(e) => Err(e.into_service_error()),
        }
    }
}

/// An answer that either carries the expected payload or nothing.
pub enum BinanceResponse<T> {
    Payload(T),
    Empty,
}

impl<T> BinanceResponse<T> {
    pub fn into_result(self) -> (r: Result<T, ServiceError>)
        ensures
            match self {
                BinanceResponse::Payload(v) => r == Ok::<T, ServiceError>(v),
                BinanceResponse::Empty => r matches Err(e) && e matches ServiceError::Internal(m)
                    && m@ == "Binance returned no data"@,
            },
    {
        match self {
            BinanceResponse::Payload(value) => Ok(value),
            BinanceResponse::Empty => Err(
                ServiceError::internal(String::from_str("Binance returned no data")),
            ),
        }
    }
}

} // verus!
