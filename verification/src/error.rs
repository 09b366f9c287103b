//! Errors of the engine.
use crate::text::concat;
use vstd::prelude::*;

verus! {

/// What went wrong, with a detail text.
#[derive(Debug)]
pub enum ClobError {
    InstrumentNotFound(String),
    ParticipantNotFound(String),
    OrderNotFound(String),
    InstrumentHalted(String),
    InvalidPrice(String),
    InvalidQty(String),
    RiskLimitExceeded(String),
    IoError(String),
}

/// The kind of an error, without its detail.
#[derive(Clone, Copy, Debug, PartialEq, Eq, Structural)]
pub enum ErrorKind {
    InstrumentNotFound,
    ParticipantNotFound,
    OrderNotFound,
    InstrumentHalted,
    InvalidPrice,
    InvalidQty,
    RiskLimitExceeded,
    IoError,
}

impl View for ClobError {
    type V = (ErrorKind, Seq<char>);

    /// The kind of the error and its detail text.
    open spec fn view(&self) -> (ErrorKind, Seq<char>) {
        match self {
            ClobError::InstrumentNotFound(s) => (ErrorKind::InstrumentNotFound, s@),
            ClobError::ParticipantNotFound(s) => (ErrorKind::ParticipantNotFound, s@),
            ClobError::OrderNotFound(s) => (ErrorKind::OrderNotFound, s@),
            ClobError::InstrumentHalted(s) => (ErrorKind::InstrumentHalted, s@),
            ClobError::InvalidPrice(s) => (ErrorKind::InvalidPrice, s@),
            ClobError::InvalidQty(s) => (ErrorKind::InvalidQty, s@),
            ClobError::RiskLimitExceeded(s) => (ErrorKind::RiskLimitExceeded, s@),
            ClobError::IoError(s) => (ErrorKind::IoError, s@),
        }
    }
}

/// A result with its error taken by its view.
pub open spec fn result_view<T>(r: Result<T, ClobError>) -> Result<T, (ErrorKind, Seq<char>)> {
    match r {
        Ok(v) => Ok(v),
        Err(e) => Err(e@),
    }
}

impl ClobError {
    /// The text of the error: a prefix naming its kind, then its detail.
    pub open spec fn text(&self) -> Seq<char> {
        match self {
            ClobError::InstrumentNotFound(s) => "instrument not found: "@ + s@,
            ClobError::ParticipantNotFound(s) => "participant not found: "@ + s@,
            ClobError::OrderNotFound(s) => "order not found: "@ + s@,
            ClobError::InstrumentHalted(s) => "instrument halted: "@ + s@,
            ClobError::InvalidPrice(s) => "invalid price: "@ + s@,
            ClobError::InvalidQty(s) => "invalid quantity: "@ + s@,
            ClobError::RiskLimitExceeded(s) => "risk limit exceeded: "@ + s@,
            ClobError::IoError(s) => "I/O error: "@ + s@,
        }
    }

    /// The text of the error.
    pub fn to_string(&self) -> (r: String)
        ensures
            r@ == self.text(),
    {
        match self {
            ClobError::InstrumentNotFound(s) => concat("instrument not found: ", s.as_str()),
            ClobError::ParticipantNotFound(s) => concat("participant not found: ", s.as_str()),
            ClobError::OrderNotFound(s) => concat("order not found: ", s.as_str()),
            ClobError::InstrumentHalted(s) => concat("instrument halted: ", s.as_str()),
            ClobError::InvalidPrice(s) => concat("invalid price: ", s.as_str()),
            ClobError::InvalidQty(s) => concat("invalid quantity: ", s.as_str()),
            ClobError::RiskLimitExceeded(s) => concat("risk limit exceeded: ", s.as_str()),
            ClobError::IoError(s) => concat("I/O error: ", s.as_str()),
        }
    }
}

} // verus!
