//! Access-control matrix service core.
//!
//! A matrix of (subject, permission) grant records, persisted in a key-value
//! store fork as a fixed-layout binary encoding, and mutated only through
//! deterministic, replayable transactions (grant / deny).

use vstd::prelude::*;

pub mod codec;
pub mod matrix;
pub mod schema;
pub mod service;
pub mod transactions;

verus! {

/// Errors reported by decoding; no operation of this crate panics.
#[derive(Clone, Copy, Debug, PartialEq, Eq, Structural)]
pub enum Error {
    /// Buffer too short, offsets out of range, or a length field that does
    /// not match the data actually present.
    MalformedEncoding,
    /// A transaction opcode that names neither grant nor deny.
    UnknownTransactionType,
}

} // verus!
