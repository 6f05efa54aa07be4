//! The error kinds of the accumulator. All failures are returned, never
//! swallowed; verification failures are kept distinct from missing-data
//! failures so a caller can tell a forged proof from a proof about data that
//! does not exist.

use vstd::prelude::*;

verus! {

#[derive(Clone, Copy, Debug, PartialEq, Eq, Structural)]
pub enum AccumulatorError {
    /// A leaf index at or beyond the current number of leaves.
    NotFound,
    /// A proof whose sibling count cannot match the tree depth implied by the
    /// claimed leaf index.
    MalformedProof,
    /// A proof whose recomputed root differs from the expected root.
    ProofMismatch,
    /// A failure of the backing node store, propagated without retrying.
    StoreIOError,
    /// Internal bookkeeping of peaks and counts found inconsistent; never
    /// raised by operations on a value built by this library.
    InvariantViolation,
}

impl AccumulatorError {
    /// A short description, for callers that print errors.
    pub fn message(&self) -> (r: &'static str)
        ensures
            r@.len() > 0,
    {
        let r = match self {
            AccumulatorError::NotFound => "leaf index out of range",
            AccumulatorError::MalformedProof => "sibling count inconsistent with leaf index",
            AccumulatorError::ProofMismatch => "recomputed root does not match",
            AccumulatorError::StoreIOError => "node store failure",
            AccumulatorError::InvariantViolation => "inconsistent accumulator bookkeeping",
        };
        proof {
            reveal_strlit("leaf index out of range");
            reveal_strlit("sibling count inconsistent with leaf index");
            reveal_strlit("recomputed root does not match");
            reveal_strlit("node store failure");
            reveal_strlit("inconsistent accumulator bookkeeping");
        }
        r
    }
}

} // verus!
