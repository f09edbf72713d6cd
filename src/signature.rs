//! Signing and verification: the chain walked around the ring, anchored at
//! position 0.
use crate::chain::{
    advance, append_bytes, chain, challenge, commitment, lemma_chain_agree, next_challenge, get_next_e_value, hram_e_value, lemma_advance, lemma_advance_step,
    lemma_chain_split, lemma_succ, succ,
};
use crate::keys::{expand, public_key_of, signing_scalar};
use crate::primitives::{base_mul, is_curve_point, mul_base, os_random_bytes};
use crate::ring::{
    all_points, canonical_ring, canonicalize, find_position, has_member, is_first_member,
};
use crate::error::RingError;
use crate::scalar::{
    add_scalars, is_canonical, is_canonical_scalar, lemma_scalar_of_canonical, mul_scalars,
    reduce_wide, scalar_product, scalar_sum,
};
use vstd::prelude::*;

verus! {

/// The byte strings held by an array sequence.
pub open spec fn views(d: Seq<[u8; 32]>) -> Seq<Seq<u8>> {
    d.map_values(|a: [u8; 32]| a@)
}

/// How many steps after the signer at `j` position `p` comes, in a ring of
/// `n` members.
pub open spec fn walk_offset(p: nat, j: nat, n: nat) -> nat {
    if p > j {
        (p - j - 1) as nat
    } else {
        (p + n - j - 1) as nat
    }
}

/// The responses drawn in walk order, `walk[k]` for the member `k + 1` steps
/// after the signer at `j`, laid out by position; the signer's own position
/// holds nothing.
pub open spec fn placed(walk: Seq<Seq<u8>>, j: nat, n: nat) -> Seq<Seq<u8>> {
    Seq::new(n, |p: int| if p == j { Seq::empty() } else { walk[walk_offset(p as nat, j, n) as int] })
}

/// The concatenation of a sequence of byte strings.
pub open spec fn flatten(s: Seq<Seq<u8>>) -> Seq<u8>
    decreases s.len(),
{
    if s.len() == 0 {
        Seq::empty()
    } else {
        flatten(s.drop_last()) + s.last()
    }
}

/// The challenge entering the member after the signer: the hash of the
/// signer's commitment `r·B`.
pub open spec fn entry_challenge(msg: Seq<u8>, ring: Seq<[u8; 32]>, signer: nat, r: Seq<u8>) -> Seq<u8> {
    challenge(base_mul(r), ring[succ(signer, ring.len()) as int]@, msg)
}

/// The challenge entering position 0, which the signature carries.
pub open spec fn anchor(
    msg: Seq<u8>,
    ring: Seq<[u8; 32]>,
    signer: nat,
    r: Seq<u8>,
    draws: Seq<Seq<u8>>,
) -> Seq<u8> {
    chain(
        msg,
        ring,
        draws,
        entry_challenge(msg, ring, signer, r),
        succ(signer, ring.len()),
        (ring.len() - 1 - signer) as nat,
    )
}

/// The challenge entering the signer's own position, after the walk around
/// every other member.
pub open spec fn signer_challenge(
    msg: Seq<u8>,
    ring: Seq<[u8; 32]>,
    signer: nat,
    r: Seq<u8>,
    draws: Seq<Seq<u8>>,
) -> Seq<u8> {
    chain(
        msg,
        ring,
        draws,
        entry_challenge(msg, ring, signer, r),
        succ(signer, ring.len()),
        (ring.len() - 1) as nat,
    )
}

/// The responses of a signature: the drawn ones, with the signer's closing
/// response `r + e·x` in its own position.
pub open spec fn responses(
    msg: Seq<u8>,
    ring: Seq<[u8; 32]>,
    signer: nat,
    x: Seq<u8>,
    r: Seq<u8>,
    draws: Seq<Seq<u8>>,
) -> Seq<Seq<u8>> {
    draws.update(
        signer as int,
        scalar_sum(r, scalar_product(signer_challenge(msg, ring, signer, r, draws), x)),
    )
}

/// The signature that the signer at `signer` with signing scalar `x`,
/// commitment nonce `r` and drawn responses `draws` produces: the anchor,
/// then one response per member in ring order.
pub open spec fn ring_signature(
    msg: Seq<u8>,
    ring: Seq<[u8; 32]>,
    signer: nat,
    x: Seq<u8>,
    r: Seq<u8>,
    draws: Seq<Seq<u8>>,
) -> Seq<u8> {
    anchor(msg, ring, signer, r, draws) + flatten(responses(msg, ring, signer, x, r, draws))
}

/// Signs `message` as the member at `signer_index` of the canonical `ring`,
/// holding `signing_scalar`, with the commitment nonce `commitment_nonce`
/// and the responses `draws` in walk order: `draws[k]` is the response of the
/// member `k + 1` steps after the signer.
pub fn sign_with(
    message: &[u8],
    ring: &Vec<[u8; 32]>,
    signer_index: usize,
    signing_scalar: &[u8; 32],
    commitment_nonce: &[u8; 32],
    draws: &Vec<[u8; 32]>,
) -> (r: Vec<u8>)
    requires
        signer_index < ring@.len(),
        draws@.len() + 1 == ring@.len(),
        all_points(ring@),
    ensures
        r@ == ring_signature(
            message@,
            ring@,
            signer_index as nat,
            signing_scalar@,
            commitment_nonce@,
            placed(views(draws@), signer_index as nat, ring@.len()),
        ),
{
    let n = ring.len();
    let ghost msg = message@;
    let ghost j = signer_index as nat;
    let ghost s = placed(views(draws@), j, n as nat);
    let ghost start = succ(j, n as nat);
    let ghost e0 = entry_challenge(msg, ring@, j, commitment_nonce@);
    proof {
        lemma_succ(j, n as nat);
    }
    let our_r_value = mul_base(*commitment_nonce);
    let mut next_i: usize = if signer_index + 1 == n { 0 } else { signer_index + 1 };
    let mut e = hram_e_value(&our_r_value, &ring[next_i], message);
    let mut first_e = e;
    let ghost mut steps: nat = 0;
    let mut taken: usize = 0;
    while next_i != signer_index
        invariant
            msg == message@,
            n == ring@.len(),
            j < n,
            signer_index == j,
            draws@.len() + 1 == n,
            s == placed(views(draws@), j, n as nat),
            all_points(ring@),
            taken == steps,
            start == succ(j, n as nat),
            start == if j + 1 < n { j + 1 } else { 0 },
            e0 == entry_challenge(msg, ring@, j, commitment_nonce@),
            steps <= n - 1,
            next_i == advance(start, n as nat, steps),
            e@ == chain(msg, ring@, s, e0, start, steps),
            steps >= n - 1 - j ==> first_e@ == chain(msg, ring@, s, e0, start, (n - 1 - j) as nat),
        decreases n - 1 - steps,
    {
        proof {
            lemma_advance(start, n as nat, steps);
            if steps == n - 1 {
                assert(next_i == j);
            }
        }
        let i = next_i;
        next_i = if next_i + 1 == n { 0 } else { next_i + 1 };
        proof {
            lemma_succ(i as nat, n as nat);
            lemma_advance_step(start, n as nat, steps);
            lemma_chain_split(msg, ring@, s, e0, start, steps, 1);
            assert(walk_offset(i as nat, j, n as nat) == taken);
            assert(draws@[taken as int]@ == s[i as int]);
            assert(is_curve_point(ring@[i as int]@));
        }
        let ghost prev_e = e@;
        e = get_next_e_value(message, &ring[i], &e, &draws[taken], &ring[next_i]);
        taken = taken + 1;
        proof {
            assert(chain(msg, ring@, s, prev_e, i as nat, 1) == chain(msg, ring@, s, e@, next_i as nat, 0));
            steps = steps + 1;
            lemma_advance(start, n as nat, steps);
        }
        if next_i == 0 {
            first_e = e;
        }
    }
    proof {
        lemma_advance(start, n as nat, steps);
    }
    assert(steps == n - 1);
    let closing = add_scalars(*commitment_nonce, mul_scalars(e, *signing_scalar));
    let ghost resp = responses(msg, ring@, j, signing_scalar@, commitment_nonce@, s);
    assert(resp == s.update(j as int, closing@));
    let mut signature: Vec<u8> = Vec::new();
    append_bytes(&mut signature, &first_e);
    let mut k: usize = 0;
    assert(resp.subrange(0, 0) =~= Seq::<Seq<u8>>::empty());
    while k < n
        invariant
            n == ring@.len(),
            draws@.len() + 1 == n,
            s == placed(views(draws@), j, n as nat),
            j < n,
            signer_index == j,
            resp == s.update(j as int, closing@),
            k <= n,
            signature@ == first_e@ + flatten(resp.subrange(0, k as int)),
        decreases n - k,
    {
        let item = if k == signer_index {
            closing
        } else if k > signer_index {
            draws[k - signer_index - 1]
        } else {
            draws[k + (n - signer_index - 1)]
        };
        assert(item@ == resp[k as int]);
        append_bytes(&mut signature, &item);
        assert(resp.subrange(0, k + 1).drop_last() =~= resp.subrange(0, k as int));
        k = k + 1;
    }
    assert(resp.subrange(0, n as int) =~= resp);
    signature
}

/// The anchor that a signature carries: its first 32 bytes.
pub open spec fn anchor_of(sig: Seq<u8>) -> Seq<u8> {
    sig.subrange(0, 32)
}

/// The response of member `i` in a signature.
pub open spec fn response_at(sig: Seq<u8>, i: int) -> Seq<u8> {
    sig.subrange(32 + 32 * i, 64 + 32 * i)
}

/// The responses of a signature over a ring of `n` members.
pub open spec fn responses_of(sig: Seq<u8>, n: nat) -> Seq<Seq<u8>> {
    Seq::new(n, |i: int| response_at(sig, i))
}

/// Whether a signature is well formed for a ring of `n` members: the ring is
/// not empty, the signature holds one scalar more than the ring has members,
/// and every scalar in it is canonical.
pub open spec fn well_formed(n: nat, sig: Seq<u8>) -> bool {
    &&& n > 0
    &&& sig.len() == 32 * (n + 1)
    &&& is_canonical_scalar(anchor_of(sig))
    &&& forall|i: int| 0 <= i < n ==> is_canonical_scalar(#[trigger] response_at(sig, i))
}

/// Whether the chain replayed from the anchor around the whole ring comes
/// back to the anchor.
pub open spec fn ring_closes(msg: Seq<u8>, ring: Seq<[u8; 32]>, sig: Seq<u8>) -> bool {
    chain(msg, ring, responses_of(sig, ring.len()), anchor_of(sig), 0, ring.len()) == anchor_of(sig)
}

/// A signature whose length is not one scalar more than the ring has
/// members, one byte too long or too short included, is malformed.
pub proof fn lemma_wrong_length_malformed(n: nat, sig: Seq<u8>)
    requires
        sig.len() != 32 * (n + 1),
    ensures
        !well_formed(n, sig),
{
}

/// The 32 bytes of `bytes` from `offset` on.
fn read_scalar(bytes: &[u8], offset: usize) -> (r: [u8; 32])
    requires
        offset + 32 <= bytes@.len(),
    ensures
        r@ == bytes@.subrange(offset as int, offset + 32),
{
    let mut r: [u8; 32] = [0u8; 32];
    let len = bytes.len();
    let mut t: usize = 0;
    while t < 32
        invariant
            t <= 32,
            len == bytes@.len(),
            offset + 32 <= bytes@.len(),
            forall|m: int| 0 <= m < t ==> r@[m] == bytes@[offset + m],
        decreases 32 - t,
    {
        r[t] = bytes[offset + t];
        t = t + 1;
    }
    assert(r@ =~= bytes@.subrange(offset as int, offset + 32));
    r
}

/// Whether two 32-byte strings are equal.
fn same_bytes(a: &[u8; 32], b: &[u8; 32]) -> (r: bool)
    ensures
        r == (a@ == b@),
{
    let mut t: usize = 0;
    while t < 32
        invariant
            t <= 32,
            a@.len() == 32,
            b@.len() == 32,
            forall|m: int| 0 <= m < t ==> a@[m] == b@[m],
        decreases 32 - t,
    {
        if a[t] != b[t] {
            return false;
        }
        t = t + 1;
    }
    assert(a@ =~= b@);
    true
}

/// Verifies a signature against the canonical `ring`: `Format` where it is not
/// well formed, else whether the chain replayed from its anchor closes.
pub fn verify_ring(message: &[u8], ring: &Vec<[u8; 32]>, signature: &[u8]) -> (r: Result<
    bool,
    RingError,
>)
    requires
        all_points(ring@),
    ensures
        !well_formed(ring@.len(), signature@) ==> r == Err::<bool, RingError>(RingError::Format),
        well_formed(ring@.len(), signature@) ==> r == Ok::<bool, RingError>(
            ring_closes(message@, ring@, signature@),
        ),
{
    let n = ring.len();
    let sig_len = signature.len();
    if n == 0 {
        return Err(RingError::Format);
    }
    if n > (usize::MAX - 32) / 32 {
        assert(32 * (n + 1) > usize::MAX) by (nonlinear_arith)
            requires
                n > (usize::MAX - 32) / 32,
        ;
        return Err(RingError::Format);
    }
    assert(32 * (n + 1) <= usize::MAX) by (nonlinear_arith)
        requires
            n <= (usize::MAX - 32) / 32,
    ;
    if signature.len() != 32 + 32 * n {
        return Err(RingError::Format);
    }
    let first_e = read_scalar(signature, 0);
    if !is_canonical(first_e) {
        return Err(RingError::Format);
    }
    let mut i: usize = 0;
    while i < n
        invariant
            0 < n,
            32 * (n + 1) <= usize::MAX,
            n == ring@.len(),
            signature@.len() == 32 * (n + 1),
            i <= n,
            forall|m: int| 0 <= m < i ==> is_canonical_scalar(#[trigger] response_at(signature@, m)),
        decreases n - i,
    {
        let s_value = read_scalar(signature, 32 + 32 * i);
        assert(s_value@ == response_at(signature@, i as int));
        if !is_canonical(s_value) {
            return Err(RingError::Format);
        }
        i = i + 1;
    }
    let ghost msg = message@;
    let ghost s = responses_of(signature@, n as nat);
    let mut e = first_e;
    let mut i: usize = 0;
    while i < n
        invariant
            msg == message@,
            0 < n,
            32 * (n + 1) <= usize::MAX,
            n == ring@.len(),
            all_points(ring@),
            signature@.len() == 32 * (n + 1),
            s == responses_of(signature@, n as nat),
            i <= n,
            e@ == chain(msg, ring@, s, first_e@, 0, i as nat),
        decreases n - i,
    {
        let next_i = if i + 1 == n { 0 } else { i + 1 };
        let s_value = read_scalar(signature, 32 + 32 * i);
        proof {
            lemma_succ(i as nat, n as nat);
            lemma_advance(0, n as nat, i as nat);
            lemma_chain_split(msg, ring@, s, first_e@, 0, i as nat, 1);
            assert(s_value@ == s[i as int]);
            assert(is_curve_point(ring@[i as int]@));
        }
        let ghost prev_e = e@;
        e = get_next_e_value(message, &ring[i], &e, &s_value, &ring[next_i]);
        proof {
            assert(chain(msg, ring@, s, prev_e, i as nat, 1) == chain(msg, ring@, s, e@, next_i as nat, 0));
        }
        i = i + 1;
    }
    Ok(same_bytes(&e, &first_e))
}

/// Draws a scalar from the operating system's secure source: `Entropy`
/// where that source fails.
pub fn draw_scalar() -> (r: Result<[u8; 32], RingError>)
    ensures
        r matches Ok(x) ==> is_canonical_scalar(x@),
        r matches Err(e) ==> e == RingError::Entropy,
{
    match os_random_bytes() {
        Some(bytes) => {
            let x = reduce_wide(&bytes);
            proof {
                lemma_scalar_of_canonical(crate::scalar::le_value(bytes@));
            }
            Ok(x)
        },
        None => Err(RingError::Entropy),
    }
}

/// Whether `sig` is a signature of `msg` that the holder of secret key `sk`
/// made over `ring`, at the first position of its public key, for some
/// commitment nonce and some canonical 32-byte responses drawn in walk order.
pub open spec fn signed_by(msg: Seq<u8>, ring: Seq<[u8; 32]>, sk: Seq<u8>, sig: Seq<u8>) -> bool {
    exists|j: nat, nonce: Seq<u8>, walk: Seq<Seq<u8>>|
        #![trigger ring_signature(msg, ring, j, signing_scalar(sk), nonce, placed(walk, j, ring.len()))]
        is_first_member(ring, public_key_of(sk), j) && walk.len() + 1 == ring.len() && (forall|
            i: int,
        |
            0 <= i < walk.len() ==> (#[trigger] walk[i]).len() == 32 && is_canonical_scalar(walk[i]))
            && sig == ring_signature(msg, ring, j, signing_scalar(sk), nonce, placed(walk, j, ring.len()))
}

/// Signs `message` with `secret_key` over the ring that `keys` canonicalize
/// to, drawing the nonce and the other members' responses from the secure
/// source.
pub fn sign(message: &[u8], keys: &Vec<[u8; 32]>, secret_key: &[u8; 32]) -> (r: Result<
    Vec<u8>,
    RingError,
>)
    ensures
        !all_points(keys@) ==> r == Err::<Vec<u8>, RingError>(RingError::Format),
        all_points(keys@) && !has_member(canonical_ring(keys@), public_key_of(secret_key@)) ==> r
            == Err::<Vec<u8>, RingError>(RingError::Membership),
        all_points(keys@) && has_member(canonical_ring(keys@), public_key_of(secret_key@)) ==> (r
            is Ok || r == Err::<Vec<u8>, RingError>(RingError::Entropy)),
        r matches Ok(sig) ==> signed_by(message@, canonical_ring(keys@), secret_key@, sig@),
{
    let ring = match canonicalize(keys) {
        Ok(ring) => ring,
        Err(e) => {
            return Err(e);
        },
    };
    let expanded = expand(secret_key);
    let our_pk = mul_base(expanded.scalar);
    let signer_index = match find_position(&ring, &our_pk) {
        Some(i) => i,
        None => {
            return Err(RingError::Membership);
        },
    };
    let nonce = match draw_scalar() {
        Ok(x) => x,
        Err(e) => {
            return Err(e);
        },
    };
    assert(ring@[signer_index as int]@ == public_key_of(secret_key@));
    assert(has_member(ring@, public_key_of(secret_key@)));
    let others = ring.len() - 1;
    let mut draws: Vec<[u8; 32]> = Vec::new();
    while draws.len() < others
        invariant
            others + 1 == ring@.len(),
            all_points(keys@),
            ring@ == canonical_ring(keys@),
            has_member(ring@, public_key_of(secret_key@)),
            draws@.len() <= others,
            forall|i: int| 0 <= i < draws@.len() ==> is_canonical_scalar(#[trigger] draws@[i]@),
        decreases others - draws@.len(),
    {
        match draw_scalar() {
            Ok(x) => draws.push(x),
            Err(e) => {
                return Err(e);
            },
        }
    }
    let signature = sign_with(message, &ring, signer_index, &expanded.scalar, &nonce, &draws);
    proof {
        let d = views(draws@);
        assert forall|i: int| 0 <= i < d.len() implies (#[trigger] d[i]).len() == 32
            && is_canonical_scalar(d[i]) by {
            assert(is_canonical_scalar(draws@[i]@));
            assert(draws@[i]@.len() == 32);
        }
        assert(is_first_member(ring@, public_key_of(secret_key@), signer_index as nat));
        assert(signature@ == ring_signature(
            message@,
            ring@,
            signer_index as nat,
            signing_scalar(secret_key@),
            nonce@,
            placed(d, signer_index as nat, ring@.len()),
        ));
    }
    Ok(signature)
}

/// Verifies a signature of `message` over the ring that `keys` canonicalize
/// to: `Format` where a key is not a curve point or the signature is not
/// well formed, else whether the chain closes.
pub fn verify(message: &[u8], keys: &Vec<[u8; 32]>, signature: &[u8]) -> (r: Result<
    bool,
    RingError,
>)
    ensures
        !all_points(keys@) ==> r == Err::<bool, RingError>(RingError::Format),
        all_points(keys@) && !well_formed(canonical_ring(keys@).len(), signature@) ==> r == Err::<
            bool,
            RingError,
        >(RingError::Format),
        all_points(keys@) && well_formed(canonical_ring(keys@).len(), signature@) ==> r == Ok::<
            bool,
            RingError,
        >(ring_closes(message@, canonical_ring(keys@), signature@)),
{
    let ring = match canonicalize(keys) {
        Ok(ring) => ring,
        Err(e) => {
            return Err(e);
        },
    };
    verify_ring(message, &ring, signature)
}

proof fn lemma_flatten(s: Seq<Seq<u8>>)
    requires
        forall|i: int| 0 <= i < s.len() ==> (#[trigger] s[i]).len() == 32,
    ensures
        flatten(s).len() == 32 * s.len(),
        forall|i: int|
            0 <= i < s.len() ==> flatten(s).subrange(32 * i, 32 * i + 32) == #[trigger] s[i],
    decreases s.len(),
{
    if s.len() > 0 {
        let t = s.drop_last();
        lemma_flatten(t);
        let f = flatten(s);
        assert(f == flatten(t) + s.last());
        assert forall|i: int| 0 <= i < s.len() implies f.subrange(32 * i, 32 * i + 32)
            == #[trigger] s[i] by {
            if i < s.len() - 1 {
                assert(t[i] == s[i]);
                assert(f.subrange(32 * i, 32 * i + 32) =~= flatten(t).subrange(32 * i, 32 * i + 32));
            } else {
                assert(f.subrange(32 * i, 32 * i + 32) =~= s.last());
            }
        }
    }
}

proof fn lemma_chain_scalar(
    msg: Seq<u8>,
    ring: Seq<[u8; 32]>,
    s: Seq<Seq<u8>>,
    e: Seq<u8>,
    i: nat,
    steps: nat,
)
    requires
        e.len() == 32,
        is_canonical_scalar(e),
    ensures
        chain(msg, ring, s, e, i, steps).len() == 32,
        is_canonical_scalar(chain(msg, ring, s, e, i, steps)),
    decreases steps,
{
    if steps > 0 {
        let j = succ(i, ring.len());
        let e1 = next_challenge(msg, ring[i as int]@, e, s[i as int], ring[j as int]@);
        lemma_scalar_of_canonical(crate::scalar::le_value(blake2b_of_step(msg, ring, s, e, i)));
        assert(e1 == crate::scalar::scalar_of(
            crate::scalar::le_value(blake2b_of_step(msg, ring, s, e, i)),
        ));
        lemma_chain_scalar(msg, ring, s, e1, j, (steps - 1) as nat);
    }
}

spec fn blake2b_of_step(
    msg: Seq<u8>,
    ring: Seq<[u8; 32]>,
    s: Seq<Seq<u8>>,
    e: Seq<u8>,
    i: nat,
) -> Seq<u8> {
    crate::primitives::blake2b_512(
        commitment(ring[i as int]@, e, s[i as int]) + ring[succ(i, ring.len()) as int]@ + msg,
    )
}

/// Signing then verifying: a signature made at position `j` by the holder of
/// scalar `x`, whose member is `x·B`, is well formed and its chain closes,
/// given the group identity `(r + e·x)·B − e·(x·B) = r·B` for every
/// canonical challenge `e` and the signer's nonce `r`.
pub proof fn lemma_sign_then_verify(
    msg: Seq<u8>,
    ring: Seq<[u8; 32]>,
    j: nat,
    x: Seq<u8>,
    r: Seq<u8>,
    draws: Seq<Seq<u8>>,
)
    requires
        j < ring.len(),
        draws.len() == ring.len(),
        forall|i: int|
            0 <= i < draws.len() && i != j ==> (#[trigger] draws[i]).len() == 32
                && is_canonical_scalar(draws[i]),
        ring[j as int]@ == base_mul(x),
        forall|e: Seq<u8>|
            e.len() == 32 && is_canonical_scalar(e) ==> #[trigger] commitment(
                base_mul(x),
                e,
                scalar_sum(r, scalar_product(e, x)),
            ) == base_mul(r),
    ensures
        well_formed(ring.len(), ring_signature(msg, ring, j, x, r, draws)),
        ring_closes(msg, ring, ring_signature(msg, ring, j, x, r, draws)),
{
    let n = ring.len();
    let start = succ(j, n);
    lemma_succ(j, n);
    let e0 = entry_challenge(msg, ring, j, r);
    let a = anchor(msg, ring, j, r, draws);
    let ej = signer_challenge(msg, ring, j, r, draws);
    let closing = scalar_sum(r, scalar_product(ej, x));
    let resp = responses(msg, ring, j, x, r, draws);
    let sig = ring_signature(msg, ring, j, x, r, draws);
    // Every scalar of the signature is canonical and 32 bytes long.
    lemma_scalar_of_canonical(crate::scalar::le_value(crate::primitives::blake2b_512(base_mul(r) + ring[start as int]@ + msg)));
    lemma_chain_scalar(msg, ring, draws, e0, start, (n - 1 - j) as nat);
    lemma_chain_scalar(msg, ring, draws, e0, start, (n - 1) as nat);
    lemma_scalar_of_canonical(crate::scalar::le_value(r) + crate::scalar::le_value(
        scalar_product(ej, x),
    ));
    assert forall|i: int| 0 <= i < resp.len() implies (#[trigger] resp[i]).len() == 32
        && is_canonical_scalar(resp[i]) by {
        if i != j {
            assert(resp[i] == draws[i]);
        }
    }
    lemma_flatten(resp);
    assert(anchor_of(sig) =~= a);
    assert forall|i: int| 0 <= i < n implies #[trigger] response_at(sig, i) == resp[i] by {
        assert(response_at(sig, i) =~= flatten(resp).subrange(32 * i, 32 * i + 32));
    }
    assert(responses_of(sig, n) =~= resp);
    // The anchor is the challenge entering position 0, reached from the
    // signer's successor.
    lemma_advance(start, n, (n - 1 - j) as nat);
    lemma_chain_split(msg, ring, draws, e0, start, (n - 1 - j) as nat, j);
    assert((n - 1 - j) as nat + j == (n - 1) as nat);
    // Replaying from the anchor: up to the signer, the signer's own step, and
    // back to position 0.
    lemma_advance(0, n, j);
    lemma_chain_split(msg, ring, resp, a, 0, j, (n - j) as nat);
    lemma_chain_agree(msg, ring, resp, draws, a, 0, j);
    lemma_chain_split(msg, ring, resp, ej, j, 1, (n - j - 1) as nat);
    assert(resp[j as int] == closing);
    assert(chain(msg, ring, resp, ej, j, 1) == chain(
        msg,
        ring,
        resp,
        next_challenge(msg, ring[j as int]@, ej, closing, ring[start as int]@),
        start,
        0,
    ));
    assert(commitment(base_mul(x), ej, closing) == base_mul(r));
    assert(next_challenge(msg, ring[j as int]@, ej, closing, ring[start as int]@) == e0);
    lemma_advance(j, n, 1);
    lemma_chain_agree(msg, ring, resp, draws, e0, start, (n - j - 1) as nat);
}

/// What `sign` returns, `verify` accepts: a signature made by the holder of
/// `sk` over a ring is well formed for that ring and its chain closes, given
/// the group identity `(r + e·x)·B − e·(x·B) = r·B` for the signing scalar
/// `x` of `sk`, every nonce `r` and every canonical challenge `e`.
pub proof fn lemma_signed_verifies(msg: Seq<u8>, ring: Seq<[u8; 32]>, sk: Seq<u8>, sig: Seq<u8>)
    requires
        signed_by(msg, ring, sk, sig),
        forall|e: Seq<u8>, r: Seq<u8>|
            e.len() == 32 && is_canonical_scalar(e) ==> #[trigger] commitment(
                base_mul(signing_scalar(sk)),
                e,
                scalar_sum(r, scalar_product(e, signing_scalar(sk))),
            ) == base_mul(r),
    ensures
        well_formed(ring.len(), sig),
        ring_closes(msg, ring, sig),
{
    let x = signing_scalar(sk);
    let n = ring.len();
    let (j, nonce, walk) = choose|j: nat, nonce: Seq<u8>, walk: Seq<Seq<u8>>|
        #![trigger ring_signature(msg, ring, j, x, nonce, placed(walk, j, n))]
        is_first_member(ring, public_key_of(sk), j) && walk.len() + 1 == n && (forall|i: int|
            0 <= i < walk.len() ==> (#[trigger] walk[i]).len() == 32 && is_canonical_scalar(walk[i]))
            && sig == ring_signature(msg, ring, j, x, nonce, placed(walk, j, n));
    let draws = placed(walk, j, n);
    assert forall|i: int| 0 <= i < draws.len() && i != j implies (#[trigger] draws[i]).len() == 32
        && is_canonical_scalar(draws[i]) by {
        let k = walk_offset(i as nat, j, n);
        assert(draws[i] == walk[k as int]);
    }
    lemma_sign_then_verify(msg, ring, j, x, nonce, draws);
}

} // verus!
