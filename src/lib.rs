//! AOS ring signatures over the Ed25519 group.
//!
//! A signer holding one secret key of a ring of public keys produces a
//! signature that any holder of the ring can verify, without learning which
//! member signed. Curve arithmetic and hashing come from `curve25519-dalek`
//! and `blake2`; the protocol around them is verified here.
pub mod chain;
pub mod error;
pub mod keys;
pub mod primitives;
pub mod ring;
pub mod scalar;
pub mod signature;
