//! The curve and hash operations that the protocol composes: named results
//! of `curve25519-dalek` and `blake2`, and the operating system's entropy.
use blake2::{Blake2b512, Digest};
use curve25519_dalek::edwards::{CompressedEdwardsY, EdwardsPoint};
use curve25519_dalek::scalar::Scalar;
use rand::RngCore;
use vstd::prelude::*;

verus! {

/// The 64-byte BLAKE2b-512 digest of `data`.
pub uninterp spec fn blake2b_512(data: Seq<u8>) -> Seq<u8>;

/// Whether 32 bytes decompress to a point of the curve.
pub uninterp spec fn is_curve_point(b: Seq<u8>) -> bool;

/// The compressed point `k·B`, for the Ed25519 base point `B`.
pub uninterp spec fn base_mul(k: Seq<u8>) -> Seq<u8>;

/// The compressed point `b·B − a·A`, where `A` is the decompression of `p`
/// and `a`, `b` are first reduced modulo the group order.
pub uninterp spec fn base_mul_minus(a: Seq<u8>, p: Seq<u8>, b: Seq<u8>) -> Seq<u8>;

/// Whether two compressed points decompress to the same curve point.
pub uninterp spec fn same_point(a: Seq<u8>, b: Seq<u8>) -> bool;

/// Relies on `Blake2b512::digest` (blake2): the digest of `data`, 64 bytes long.
#[verifier::external_body]
pub(crate) fn blake2b(data: &[u8]) -> (r: [u8; 64])
    ensures
        r@ == blake2b_512(data@),
{
    let digest = Blake2b512::digest(data);
    let mut r = [0u8; 64];
    r.copy_from_slice(digest.as_slice());
    r
}

/// Relies on `CompressedEdwardsY::decompress`: `Some` exactly for the
/// encodings of curve points.
#[verifier::external_body]
pub(crate) fn decompresses(b: [u8; 32]) -> (r: bool)
    ensures
        r == is_curve_point(b@),
{
    CompressedEdwardsY(b).decompress().is_some()
}

/// Relies on `EdwardsPoint::mul_base`: the base point times a scalar, compressed.
#[verifier::external_body]
pub(crate) fn mul_base(k: [u8; 32]) -> (r: [u8; 32])
    ensures
        r@ == base_mul(k@),
{
    EdwardsPoint::mul_base(&Scalar::from_bytes_mod_order(k)).compress().to_bytes()
}

/// Relies on `EdwardsPoint::vartime_double_scalar_mul_basepoint`, applied to
/// the negated decompressed point: `b·B + a·(−A) = b·B − a·A`, compressed.
/// The scalars are reduced by `Scalar::from_bytes_mod_order`.
#[verifier::external_body]
pub(crate) fn double_mul_base(a: [u8; 32], p: [u8; 32], b: [u8; 32]) -> (r: [u8; 32])
    requires
        is_curve_point(p@),
    ensures
        r@ == base_mul_minus(a@, p@, b@),
{
    let point = -CompressedEdwardsY(p).decompress().unwrap();
    EdwardsPoint::vartime_double_scalar_mul_basepoint(
        &Scalar::from_bytes_mod_order(a),
        &point,
        &Scalar::from_bytes_mod_order(b),
    ).compress().to_bytes()
}

/// Relies on `PartialEq` for `EdwardsPoint`: whether two decompressed points
/// are equal; equal encodings decompress to the same point.
#[verifier::external_body]
pub(crate) fn points_equal(a: [u8; 32], b: [u8; 32]) -> (r: bool)
    requires
        is_curve_point(a@),
        is_curve_point(b@),
    ensures
        r == same_point(a@, b@),
        a@ == b@ ==> r,
{
    CompressedEdwardsY(a).decompress().unwrap() == CompressedEdwardsY(b).decompress().unwrap()
}

/// Relies on `OsRng::try_fill_bytes` (rand): 64 bytes from the operating
/// system's secure source, or `None` where that source fails. Nothing is
/// promised of the bytes.
#[verifier::external_body]
pub(crate) fn os_random_bytes() -> (r: Option<[u8; 64]>)
{
    let mut bytes = [0u8; 64];
    match rand::rngs::OsRng.try_fill_bytes(&mut bytes) {
        Ok(()) => Some(bytes),
        Err(_) => None,
    }
}

} // verus!
