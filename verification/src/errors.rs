use vstd::prelude::*;

verus! {

/// Why a raw payload could not be decoded into a typed entity.
#[derive(Clone, Copy, PartialEq, Eq, Structural, Debug)]
pub enum DecodeError {
    /// The payload was empty: nothing was ever recorded under the key.
    NotFound,
    /// The payload was non-empty but is not a canonical encoding of the entity.
    DeserializationError,
}

/// Why a versioned fetch could not produce a payload.
#[derive(Clone, Copy, PartialEq, Eq, Structural, Debug)]
pub enum FetchError {
    /// No snapshot is recorded at or before the requested height, or the
    /// payload recorded there is empty.
    NotFound,
    /// The external cache failed to answer; distinct from a genuine absence
    /// of data.
    CacheUnavailable,
}

/// Why a typed point-in-time query could not produce its entity.
#[derive(Clone, Copy, PartialEq, Eq, Structural, Debug)]
pub enum QueryError {
    /// Nothing is recorded at or before the requested height.
    NotFound,
    /// The recorded payload is not a canonical encoding of the entity.
    DeserializationError,
    /// The external cache failed to answer; distinct from a genuine absence
    /// of data.
    CacheUnavailable,
}

/// Why a view call could not produce an outcome.
#[derive(PartialEq, Eq, Debug)]
pub enum RunContractError {
    /// The account payload at the requested height was empty.
    NotFound,
    /// The account payload was non-empty but malformed.
    DeserializationError,
    /// The external cache failed to answer one of the reads.
    CacheUnavailable,
    /// No contract code is recorded for the account at the requested height.
    CodeNotFound,
    /// The execution engine rejected or failed the call; the reason is kept.
    Aborted(Vec<u8>),
}

/// A reply from the external cache for a single payload read: either the
/// payload bytes (possibly empty) or an outage. Keeping the outage as its own
/// arm is what lets callers tell "no data" from "cache down".
pub enum CacheReply {
    Payload(Vec<u8>),
    Unavailable,
}

} // verus!
