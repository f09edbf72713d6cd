//! Scalars modulo the order of the Ed25519 prime-order subgroup, held as
//! their 32-byte little-endian encodings.
use curve25519_dalek::scalar::Scalar;
use vstd::prelude::*;

verus! {

/// The order of the Ed25519 prime-order subgroup, 2^252 + 27742317777372353535851937790883648493.
pub open spec fn group_order() -> nat {
    7237005577332262213973186563042994240857116359379907606001950938285454250989nat
}

/// The integer that a byte string encodes, least significant byte first.
pub open spec fn le_value(b: Seq<u8>) -> nat
    decreases b.len(),
{
    if b.len() == 0 {
        0
    } else {
        b[0] as nat + 256 * le_value(b.drop_first())
    }
}

/// The `n`-byte little-endian encoding of `v` (taken modulo 256^n).
pub open spec fn le_bytes(v: nat, n: nat) -> Seq<u8>
    decreases n,
{
    if n == 0 {
        Seq::empty()
    } else {
        seq![(v % 256) as u8] + le_bytes(v / 256, (n - 1) as nat)
    }
}

/// The 32-byte encoding of the scalar `v mod group_order()`.
pub open spec fn scalar_of(v: nat) -> Seq<u8> {
    le_bytes(v % group_order(), 32)
}

/// The scalar that arbitrary 32-byte material reduces to.
pub open spec fn reduced(b: Seq<u8>) -> Seq<u8> {
    scalar_of(le_value(b))
}

/// The sum of two scalars.
pub open spec fn scalar_sum(a: Seq<u8>, b: Seq<u8>) -> Seq<u8> {
    scalar_of(le_value(a) + le_value(b))
}

/// The product of two scalars.
pub open spec fn scalar_product(a: Seq<u8>, b: Seq<u8>) -> Seq<u8> {
    scalar_of(le_value(a) * le_value(b))
}

/// Whether `b` is the canonical encoding of a scalar: its value is below the group order.
pub open spec fn is_canonical_scalar(b: Seq<u8>) -> bool {
    le_value(b) < group_order()
}

/// 256 to the power `n`.
pub open spec fn pow256(n: nat) -> nat
    decreases n,
{
    if n == 0 {
        1
    } else {
        256 * pow256((n - 1) as nat)
    }
}

proof fn lemma_le_bytes_value(v: nat, n: nat)
    requires
        v < pow256(n),
    ensures
        le_bytes(v, n).len() == n,
        le_value(le_bytes(v, n)) == v,
    decreases n,
{
    if n > 0 {
        let p = pow256((n - 1) as nat);
        assert(v / 256 < p) by (nonlinear_arith)
            requires
                v < 256 * p,
        ;
        lemma_le_bytes_value(v / 256, (n - 1) as nat);
        let b = le_bytes(v, n);
        assert(b.drop_first() =~= le_bytes(v / 256, (n - 1) as nat));
        assert(v == v % 256 + 256 * (v / 256)) by (nonlinear_arith);
    }
}

/// Every scalar encoding is 32 bytes long and canonical.
pub proof fn lemma_scalar_of_canonical(v: nat)
    ensures
        scalar_of(v).len() == 32,
        is_canonical_scalar(scalar_of(v)),
{
    reveal_with_fuel(pow256, 33);
    assert(group_order() < pow256(32));
    lemma_le_bytes_value(v % group_order(), 32);
}

/// Relies on `Scalar::from_bytes_mod_order`: reduces a 256-bit little-endian
/// integer modulo the group order; `to_bytes` gives the canonical encoding.
#[verifier::external_body]
pub(crate) fn reduce_scalar(b: [u8; 32]) -> (r: [u8; 32])
    ensures
        r@ == reduced(b@),
{
    Scalar::from_bytes_mod_order(b).to_bytes()
}

/// Relies on `Scalar::from_bytes_mod_order_wide`: reduces a 512-bit
/// little-endian integer modulo the group order.
#[verifier::external_body]
pub(crate) fn reduce_wide(b: &[u8; 64]) -> (r: [u8; 32])
    ensures
        r@ == reduced(b@),
{
    Scalar::from_bytes_mod_order_wide(b).to_bytes()
}

/// Relies on `Scalar::from_canonical_bytes`: it succeeds exactly when the
/// little-endian integer of the bytes is below the group order.
#[verifier::external_body]
pub(crate) fn is_canonical(b: [u8; 32]) -> (r: bool)
    ensures
        r == is_canonical_scalar(b@),
{
    bool::from(Scalar::from_canonical_bytes(b).is_some())
}

/// Relies on `Add` for `Scalar`: addition modulo the group order (the
/// operands are first reduced by `Scalar::from_bytes_mod_order`).
#[verifier::external_body]
pub(crate) fn add_scalars(a: [u8; 32], b: [u8; 32]) -> (r: [u8; 32])
    ensures
        r@ == scalar_sum(a@, b@),
{
    (Scalar::from_bytes_mod_order(a) + Scalar::from_bytes_mod_order(b)).to_bytes()
}

/// Relies on `Mul` for `Scalar`: multiplication modulo the group order (the
/// operands are first reduced by `Scalar::from_bytes_mod_order`).
#[verifier::external_body]
pub(crate) fn mul_scalars(a: [u8; 32], b: [u8; 32]) -> (r: [u8; 32])
    ensures
        r@ == scalar_product(a@, b@),
{
    (Scalar::from_bytes_mod_order(a) * Scalar::from_bytes_mod_order(b)).to_bytes()
}

} // verus!
