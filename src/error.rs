//! The ways a signing or verification call can fail before any
//! cryptographic verdict.
use vstd::prelude::*;

verus! {

/// Why a call could not be carried out.
#[derive(Debug, Clone, Copy, PartialEq, Eq, Structural)]
pub enum RingError {
    /// Malformed input: a key that is not a curve point, an empty ring, a
    /// signature of the wrong length or a non-canonical scalar in it.
    Format,
    /// The signer's public key is not a member of the ring.
    Membership,
    /// The secure random source failed.
    Entropy,
}

} // verus!
