//! Key expansion: from a raw secret key to the signing scalar, the nonce
//! seed and the public key.
use crate::primitives::{base_mul, blake2b, blake2b_512, mul_base};
use crate::scalar::{reduce_scalar, reduced};
use vstd::prelude::*;

verus! {

/// A secret key expanded by hashing: the signing scalar, reduced modulo the
/// group order, and the second half of the digest.
pub struct ExpandedKey {
    pub scalar: [u8; 32],
    pub nonce_seed: [u8; 32],
}

/// Clamping of a pre-scalar: the low three bits and the top bit cleared, the
/// second-highest bit set.
pub open spec fn clamp(b: Seq<u8>) -> Seq<u8> {
    b.update(0, b[0] & 248u8).update(31, (b[31] & 63u8) | 64u8)
}

/// The clamped first half of the digest of a secret key.
pub open spec fn clamped_half(sk: Seq<u8>) -> Seq<u8> {
    clamp(blake2b_512(sk).subrange(0, 32))
}

/// The second half of the digest of a secret key.
pub open spec fn nonce_half(sk: Seq<u8>) -> Seq<u8> {
    blake2b_512(sk).subrange(32, 64)
}

/// The signing scalar of a secret key.
pub open spec fn signing_scalar(sk: Seq<u8>) -> Seq<u8> {
    reduced(clamped_half(sk))
}

/// The compressed public key of a secret key.
pub open spec fn public_key_of(sk: Seq<u8>) -> Seq<u8> {
    base_mul(signing_scalar(sk))
}

/// Hashes a secret key and splits the digest into the clamped pre-scalar and
/// the nonce seed.
pub fn expand_sk(sk: &[u8]) -> (r: ([u8; 32], [u8; 32]))
    ensures
        r.0@ == clamped_half(sk@),
        r.1@ == nonce_half(sk@),
{
    let hash = blake2b(sk);
    let mut scalar: [u8; 32] = [0u8; 32];
    let mut r_material: [u8; 32] = [0u8; 32];
    let mut i: usize = 0;
    while i < 32
        invariant
            i <= 32,
            hash@ == blake2b_512(sk@),
            forall|j: int| 0 <= j < i ==> scalar@[j] == hash@[j],
            forall|j: int| 0 <= j < i ==> r_material@[j] == hash@[j + 32],
        decreases 32 - i,
    {
        scalar[i] = hash[i];
        r_material[i] = hash[i + 32];
        i = i + 1;
    }
    scalar[0] = scalar[0] & 248;
    scalar[31] = scalar[31] & 63;
    scalar[31] = scalar[31] | 64;
    assert(scalar@ =~= clamped_half(sk@));
    assert(r_material@ =~= nonce_half(sk@));
    (scalar, r_material)
}

/// Expands a secret key into its signing scalar and nonce seed.
pub fn expand(sk: &[u8; 32]) -> (r: ExpandedKey)
    ensures
        r.scalar@ == signing_scalar(sk@),
        r.nonce_seed@ == nonce_half(sk@),
{
    let (pre_scalar, nonce_seed) = expand_sk(sk);
    ExpandedKey { scalar: reduce_scalar(pre_scalar), nonce_seed }
}

/// The public key that belongs to a secret key: the base point times its
/// signing scalar.
pub fn public_key(sk: &[u8; 32]) -> (r: [u8; 32])
    ensures
        r@ == public_key_of(sk@),
{
    let expanded = expand(sk);
    mul_base(expanded.scalar)
}

} // verus!
