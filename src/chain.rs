//! The challenge chain: the recurrence that both signing and verification
//! walk around the ring.
use crate::primitives::{blake2b, blake2b_512, base_mul_minus, double_mul_base, is_curve_point};
use crate::scalar::{reduce_wide, reduced};
use vstd::prelude::*;

verus! {

/// The challenge `H(R || A || M)`: the digest of the concatenation, reduced
/// to a scalar.
pub open spec fn challenge(commitment: Seq<u8>, pk: Seq<u8>, msg: Seq<u8>) -> Seq<u8> {
    reduced(blake2b_512(commitment + pk + msg))
}

/// The commitment `s·B − e·A` that a member with public key `pk`, entering
/// challenge `e` and response `s` contributes.
pub open spec fn commitment(pk: Seq<u8>, e: Seq<u8>, s: Seq<u8>) -> Seq<u8> {
    base_mul_minus(e, pk, s)
}

/// One step of the chain: the challenge entering the next member.
pub open spec fn next_challenge(
    msg: Seq<u8>,
    pk: Seq<u8>,
    e: Seq<u8>,
    s: Seq<u8>,
    next_pk: Seq<u8>,
) -> Seq<u8> {
    challenge(commitment(pk, e, s), next_pk, msg)
}

/// The position after `i` in a ring of `n` members.
pub open spec fn succ(i: nat, n: nat) -> nat {
    ((i + 1) % n) as nat
}

/// The position reached from position `i` after `k` steps around a ring of
/// `n` members.
pub open spec fn advance(i: nat, n: nat, k: nat) -> nat
    decreases k,
{
    if k == 0 {
        i
    } else {
        advance(succ(i, n), n, (k - 1) as nat)
    }
}

/// The challenge reached from challenge `e` entering position `i` after
/// `steps` steps of the chain, with the responses `s` in ring order.
pub open spec fn chain(
    msg: Seq<u8>,
    ring: Seq<[u8; 32]>,
    s: Seq<Seq<u8>>,
    e: Seq<u8>,
    i: nat,
    steps: nat,
) -> Seq<u8>
    decreases steps,
{
    if steps == 0 {
        e
    } else {
        let j = succ(i, ring.len());
        chain(
            msg,
            ring,
            s,
            next_challenge(msg, ring[i as int]@, e, s[i as int], ring[j as int]@),
            j,
            (steps - 1) as nat,
        )
    }
}

/// The successor of a position, without the modulus.
pub proof fn lemma_succ(i: nat, n: nat)
    requires
        i < n,
    ensures
        succ(i, n) == if i + 1 < n { i + 1 } else { 0 },
{
    if i + 1 < n {
        vstd::arithmetic::div_mod::lemma_small_mod((i + 1) as nat, n);
    } else {
        vstd::arithmetic::div_mod::lemma_mod_self_0(n as int);
    }
}

/// Closed form of `advance` for at most one turn around the ring.
pub proof fn lemma_advance(i: nat, n: nat, k: nat)
    requires
        i < n,
        k <= n,
    ensures
        advance(i, n, k) == if i + k < n { i + k } else { (i + k - n) as nat },
    decreases k,
{
    if k > 0 {
        lemma_succ(i, n);
        lemma_advance(succ(i, n), n, (k - 1) as nat);
    }
}

/// One more step is one more successor.
pub proof fn lemma_advance_step(i: nat, n: nat, k: nat)
    ensures
        advance(i, n, k + 1) == succ(advance(i, n, k), n),
    decreases k,
{
    assert(advance(i, n, k + 1) == advance(succ(i, n), n, k));
    if k > 0 {
        lemma_advance_step(succ(i, n), n, (k - 1) as nat);
    }
}

/// Walking `a + b` steps is walking `a` steps and then `b` more.
pub proof fn lemma_chain_split(
    msg: Seq<u8>,
    ring: Seq<[u8; 32]>,
    s: Seq<Seq<u8>>,
    e: Seq<u8>,
    i: nat,
    a: nat,
    b: nat,
)
    ensures
        chain(msg, ring, s, e, i, a + b) == chain(
            msg,
            ring,
            s,
            chain(msg, ring, s, e, i, a),
            advance(i, ring.len(), a),
            b,
        ),
    decreases a,
{
    if a > 0 {
        let j = succ(i, ring.len());
        let e1 = next_challenge(msg, ring[i as int]@, e, s[i as int], ring[j as int]@);
        lemma_chain_split(msg, ring, s, e1, j, (a - 1) as nat, b);
        assert((a + b - 1) as nat == (a - 1) as nat + b);
    }
}

/// A walk that stays within positions `i .. i + steps` reads the responses
/// there only.
pub proof fn lemma_chain_agree(
    msg: Seq<u8>,
    ring: Seq<[u8; 32]>,
    s1: Seq<Seq<u8>>,
    s2: Seq<Seq<u8>>,
    e: Seq<u8>,
    i: nat,
    steps: nat,
)
    requires
        i + steps <= ring.len(),
        forall|p: int| i <= p < i + steps ==> s1[p] == s2[p],
    ensures
        chain(msg, ring, s1, e, i, steps) == chain(msg, ring, s2, e, i, steps),
    decreases steps,
{
    if steps > 0 {
        lemma_succ(i, ring.len());
        let j = succ(i, ring.len());
        let e1 = next_challenge(msg, ring[i as int]@, e, s1[i as int], ring[j as int]@);
        assert(s1[i as int] == s2[i as int]);
        lemma_chain_agree(msg, ring, s1, s2, e1, j, (steps - 1) as nat);
    }
}

/// Appends the bytes of `src` to `buf`.
pub(crate) fn append_bytes(buf: &mut Vec<u8>, src: &[u8])
    ensures
        final(buf)@ == old(buf)@ + src@,
{
    let mut i: usize = 0;
    while i < src.len()
        invariant
            i <= src@.len(),
            buf@ == old(buf)@ + src@.subrange(0, i as int),
        decreases src@.len() - i,
    {
        buf.push(src[i]);
        i = i + 1;
        assert(src@.subrange(0, i as int) =~= src@.subrange(0, (i - 1) as int).push(src@[i - 1]));
    }
    assert(src@.subrange(0, i as int) =~= src@);
}

/// Computes the challenge `H(R || A || M)` for a commitment `R`, a public key
/// `A` and a message `M`.
pub fn hram_e_value(prev_r_value: &[u8], pk: &[u8], msg: &[u8]) -> (r: [u8; 32])
    ensures
        r@ == challenge(prev_r_value@, pk@, msg@),
{
    let mut data: Vec<u8> = Vec::new();
    append_bytes(&mut data, prev_r_value);
    append_bytes(&mut data, pk);
    append_bytes(&mut data, msg);
    let digest = blake2b(data.as_slice());
    reduce_wide(&digest)
}

/// Advances the chain by one member: from the challenge `prev_e_value`
/// entering the member with public key `pk` and its response `s_value`, the
/// challenge entering the member with public key `next_pk_bytes`.
pub fn get_next_e_value(
    msg: &[u8],
    pk: &[u8; 32],
    prev_e_value: &[u8; 32],
    s_value: &[u8; 32],
    next_pk_bytes: &[u8; 32],
) -> (r: [u8; 32])
    requires
        is_curve_point(pk@),
    ensures
        r@ == next_challenge(msg@, pk@, prev_e_value@, s_value@, next_pk_bytes@),
{
    let prev_r_value = double_mul_base(*prev_e_value, *pk, *s_value);
    hram_e_value(&prev_r_value, next_pk_bytes, msg)
}

} // verus!
