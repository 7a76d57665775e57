//! Neutral error type for the policy helpers.

use vstd::prelude::*;

verus! {

/// Errors produced by the dedup helpers, the metadata decoder and the
/// in-memory store.
///
/// New variants are additive, hence `#[non_exhaustive]`.
#[derive(Debug, PartialEq, Eq)]
#[non_exhaustive]
pub enum PolicyError {
    /// Direct lookup against an unknown entry key.
    NotFound(String),
    /// A metadata envelope could not be decoded.
    InvalidMetadata(String),
    /// An internal lock was poisoned by a previous panic. The affected
    /// instance should be discarded.
    Poisoned,
}

} // verus!
