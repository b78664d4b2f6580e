//! Data-access core of a blockchain read-serving node.
//!
//! The library answers point-in-time queries — account state, deployed
//! contract code, access keys, contract storage, and view-call results —
//! from a versioned view held in an external key-value cache. It holds the
//! verified logic: cache-key construction, snapshot resolution, the
//! versioned value model, bounded state enumeration, the canonical entity
//! codec, and the decision steps of the view-call pipeline. The surrounding
//! service performs the network I/O and drives the execution engine.

pub mod bytes;
pub mod cache;
pub mod codec;
pub mod enumerate;
pub mod errors;
pub mod executor;
pub mod ids;
pub mod keys;
pub mod queries;
pub mod snapshot;
