//! Batched multi-point polynomial commitment opening over the Pallas curve,
//! with the Fiat-Shamir transcript that makes the protocol non-interactive.
//!
//! The library verifies the protocol logic: the transcript's sequential
//! absorb/squeeze state machine, the aggregation of opening queries by
//! point set, the two layers of random-linear-combination folding, and the
//! byte-level proof encoding. Field and curve arithmetic, and the BLAKE2b
//! hash, come from outside crates through trusted declarations.

use vstd::prelude::*;

pub mod checking;
pub mod commitment;
pub mod curve;
pub mod field;
pub mod limbs;
pub mod multiopen;
pub mod params;
pub mod permutation;
pub mod poly;
pub mod queries;
pub mod transcript;

verus! {

/// Errors surfaced by transcript operations and proof construction.
#[derive(Clone, Copy, Debug, PartialEq, Eq, Structural)]
pub enum Error {
    /// Bytes that are not a canonical point or scalar encoding.
    Encoding,
    /// The identity point was offered to the transcript.
    IdentityPoint,
    /// A required value was unavailable when requested.
    Synthesis,
    /// The input stream ended before a full encoding was read.
    Io,
    /// The opening is degenerate: the commitment to be opened coincides
    /// with the blinding generator. Drives the prover's retry loop and is
    /// never surfaced by proof construction.
    OpeningConstruction,
    /// The defensive cap on opening retries was exhausted.
    RetryLimit,
}

} // verus!
