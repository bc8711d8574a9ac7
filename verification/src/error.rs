//! The error taxonomy of the service: a symbol unknown to the registry, a
//! symbol on the depth-filtering denylist, a caller that is not allowed in,
//! or any internal/collaborator failure wrapped with its message.

use vstd::prelude::*;
use vstd::string::StringExecFns;

verus! {

#[derive(Debug, Clone, PartialEq, Eq)]
pub enum ServiceError {
    SymbolNotFound(String),
    UnsupportedSymbol(String),
    Unauthorized,
    Internal(String),
}

impl ServiceError {
    /// Wraps a collaborator failure, keeping its message for diagnostics.
    pub fn internal(msg: String) -> (r: ServiceError)
        ensures
            r == ServiceError::Internal(msg),
    {
        ServiceError::Internal(msg)
    }

    /// The single human-readable line shown to the end user; it
    /// distinguishes "not found" from "not supported" so the front end can
    /// prompt for re-entry.
    pub fn message(&self) -> (r: String)
        ensures
            r@ == self.spec_message(),
    {
        match self {
            ServiceError::Internal(msg) => msg.clone(),
            ServiceError::SymbolNotFound(symbol) => symbol.clone().concat(" not found"),
            ServiceError::UnsupportedSymbol(symbol) => symbol.clone().concat(" not supported"),
            ServiceError::Unauthorized => String::from_str("Action not allowed"),
        }
    }

    pub open spec fn spec_message(&self) -> Seq<char> {
        match self {
            ServiceError::Internal(msg) => msg@,
            ServiceError::SymbolNotFound(symbol) => symbol@ + " not found"@,
            ServiceError::UnsupportedSymbol(symbol) => symbol@ + " not supported"@,
            ServiceError::Unauthorized => "Action not allowed"@,
        }
    }
}

} // verus!
