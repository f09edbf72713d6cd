//! The ring canonicalizer: public keys sorted by their bytes, with keys that
//! decompress to the same point kept once.
use crate::error::RingError;
use crate::primitives::{decompresses, is_curve_point, points_equal, same_point};
use vstd::prelude::*;
use vstd::relations::{sorted_by, total_ordering};
use vstd::seq_lib::lemma_sorted_unique;

verus! {

broadcast use vstd::seq_lib::group_to_multiset_ensures;

/// Lexicographic order on byte strings.
pub open spec fn lex_le(a: Seq<u8>, b: Seq<u8>) -> bool
    decreases a.len(),
{
    if a.len() == 0 {
        true
    } else if b.len() == 0 {
        false
    } else if a[0] != b[0] {
        a[0] < b[0]
    } else {
        lex_le(a.drop_first(), b.drop_first())
    }
}

/// The order of a ring: ascending bytes of the compressed keys.
pub open spec fn key_le() -> spec_fn([u8; 32], [u8; 32]) -> bool {
    |a: [u8; 32], b: [u8; 32]| lex_le(a@, b@)
}

/// Whether every key decompresses to a curve point.
pub open spec fn all_points(keys: Seq<[u8; 32]>) -> bool {
    forall|i: int| 0 <= i < keys.len() ==> is_curve_point(#[trigger] keys[i]@)
}

/// Whether some member of `ring` has the bytes `key`.
pub open spec fn has_member(ring: Seq<[u8; 32]>, key: Seq<u8>) -> bool {
    exists|i: int| 0 <= i < ring.len() && (#[trigger] ring[i])@ == key
}

/// Whether `i` is the first position of `ring` whose member has the bytes `key`.
pub open spec fn is_first_member(ring: Seq<[u8; 32]>, key: Seq<u8>, i: nat) -> bool {
    &&& i < ring.len()
    &&& ring[i as int]@ == key
    &&& forall|j: int| 0 <= j < i ==> (#[trigger] ring[j])@ != key
}

/// Whether the keys of `ring` ascend strictly by their bytes.
pub open spec fn strictly_ascending(ring: Seq<[u8; 32]>) -> bool {
    forall|i: int, j: int|
        0 <= i < j < ring.len() ==> lex_le(ring[i]@, ring[j]@) && (#[trigger] ring[i])@ != (
        #[trigger] ring[j])@
}

/// Whether no two keys of `ring` decompress to the same point.
pub open spec fn distinct_points(ring: Seq<[u8; 32]>) -> bool {
    forall|i: int, j: int|
        0 <= i < j < ring.len() ==> !same_point((#[trigger] ring[i])@, (#[trigger] ring[j])@)
}

/// Keeps each key of `s`, from the front, unless a key kept before it is the
/// same point.
pub open spec fn dedup_points(s: Seq<[u8; 32]>) -> Seq<[u8; 32]>
    decreases s.len(),
{
    if s.len() == 0 {
        s
    } else {
        let d = dedup_points(s.drop_last());
        if exists|j: int| 0 <= j < d.len() && same_point(#[trigger] d[j]@, s.last()@) {
            d
        } else {
            d.push(s.last())
        }
    }
}

/// The canonical ring of a collection of keys: sorted by bytes, then
/// deduplicated by point.
pub open spec fn canonical_ring(keys: Seq<[u8; 32]>) -> Seq<[u8; 32]> {
    dedup_points(keys.sort_by(key_le()))
}

proof fn lemma_lex_reflexive(a: Seq<u8>)
    ensures
        lex_le(a, a),
    decreases a.len(),
{
    if a.len() > 0 {
        lemma_lex_reflexive(a.drop_first());
    }
}

proof fn lemma_lex_antisymmetric(a: Seq<u8>, b: Seq<u8>)
    requires
        lex_le(a, b),
        lex_le(b, a),
    ensures
        a == b,
    decreases a.len(),
{
    if a.len() > 0 && b.len() > 0 {
        lemma_lex_antisymmetric(a.drop_first(), b.drop_first());
        assert(a =~= seq![a[0]] + a.drop_first());
        assert(b =~= seq![b[0]] + b.drop_first());
    }
}

proof fn lemma_lex_transitive(a: Seq<u8>, b: Seq<u8>, c: Seq<u8>)
    requires
        lex_le(a, b),
        lex_le(b, c),
    ensures
        lex_le(a, c),
    decreases a.len(),
{
    if a.len() > 0 && b.len() > 0 && c.len() > 0 {
        if a[0] == b[0] && b[0] == c[0] {
            lemma_lex_transitive(a.drop_first(), b.drop_first(), c.drop_first());
        }
    }
}

proof fn lemma_lex_total(a: Seq<u8>, b: Seq<u8>)
    ensures
        lex_le(a, b) || lex_le(b, a),
    decreases a.len(),
{
    if a.len() > 0 && b.len() > 0 {
        lemma_lex_total(a.drop_first(), b.drop_first());
    }
}

proof fn lemma_array_view_injective(a: [u8; 32], b: [u8; 32])
    requires
        a@ == b@,
    ensures
        a == b,
{
    broadcast use vstd::array::group_array_axioms;

    assert forall|i: int| 0 <= i < 32 implies a[i] == b[i] by {
        assert(a@[i] == b@[i]);
    }
    assert(a =~= b);
}

/// The byte order of keys is a total order.
pub proof fn lemma_key_order_total()
    ensures
        total_ordering(key_le()),
{
    assert forall|a: [u8; 32]| #[trigger] key_le()(a, a) by {
        lemma_lex_reflexive(a@);
    }
    assert forall|a: [u8; 32], b: [u8; 32]|
        #[trigger] key_le()(a, b) && #[trigger] key_le()(b, a) implies a == b by {
        lemma_lex_antisymmetric(a@, b@);
        lemma_array_view_injective(a, b);
    }
    assert forall|a: [u8; 32], b: [u8; 32], c: [u8; 32]|
        #[trigger] key_le()(a, b) && #[trigger] key_le()(b, c) implies key_le()(a, c) by {
        lemma_lex_transitive(a@, b@, c@);
    }
    assert forall|a: [u8; 32], b: [u8; 32]|
        #[trigger] key_le()(a, b) || #[trigger] key_le()(b, a) by {
        lemma_lex_total(a@, b@);
    }
}

/// Canonicalization depends only on the multiset of keys: any reordering of
/// the same entries, duplicates included, gives the same ring, and so the
/// same member at position 0.
pub proof fn lemma_canonical_ring_order_independent(a: Seq<[u8; 32]>, b: Seq<[u8; 32]>)
    requires
        a.to_multiset() == b.to_multiset(),
    ensures
        canonical_ring(a) == canonical_ring(b),
{
    lemma_key_order_total();
    a.lemma_sort_by_ensures(key_le());
    b.lemma_sort_by_ensures(key_le());
    lemma_sorted_unique(a.sort_by(key_le()), b.sort_by(key_le()), key_le());
}

/// Whether `a` comes no later than `b` in byte order.
fn key_leq(a: &[u8; 32], b: &[u8; 32]) -> (r: bool)
    ensures
        r == lex_le(a@, b@),
{
    let mut i: usize = 0;
    assert(a@.subrange(0, 32) =~= a@);
    assert(b@.subrange(0, 32) =~= b@);
    while i < 32
        invariant
            i <= 32,
            a@.len() == 32,
            b@.len() == 32,
            lex_le(a@, b@) == lex_le(a@.subrange(i as int, 32), b@.subrange(i as int, 32)),
        decreases 32 - i,
    {
        let x = a[i];
        let y = b[i];
        if x != y {
            return x < y;
        }
        assert(a@.subrange(i as int, 32).drop_first() =~= a@.subrange(i + 1, 32));
        assert(b@.subrange(i as int, 32).drop_first() =~= b@.subrange(i + 1, 32));
        i = i + 1;
    }
    true
}

/// The keys in ascending byte order, duplicates kept.
fn sort_keys(keys: &Vec<[u8; 32]>) -> (r: Vec<[u8; 32]>)
    ensures
        r@ == keys@.sort_by(key_le()),
{
    proof {
        lemma_key_order_total();
    }
    let mut out: Vec<[u8; 32]> = Vec::new();
    let mut i: usize = 0;
    while i < keys.len()
        invariant
            i <= keys@.len(),
            total_ordering(key_le()),
            sorted_by(out@, key_le()),
            out@.to_multiset() == keys@.subrange(0, i as int).to_multiset(),
        decreases keys@.len() - i,
    {
        let k = keys[i];
        let mut j: usize = 0;
        while j < out.len() && key_leq(&out[j], &k)
            invariant
                j <= out@.len(),
                forall|m: int| 0 <= m < j ==> #[trigger] key_le()(out@[m], k),
            decreases out@.len() - j,
        {
            j = j + 1;
        }
        proof {
            if j < out@.len() {
                assert(!key_le()(out@[j as int], k));
                assert(key_le()(k, out@[j as int]));
            }
        }
        let ghost before = out@;
        out.insert(j, k);
        proof {
            assert(out@ == before.insert(j as int, k));
            vstd::seq_lib::to_multiset_insert(before, j as int, k);
            assert(keys@.subrange(0, i + 1) =~= keys@.subrange(0, i as int).push(k));
            assert forall|p: int, q: int| 0 <= p < q < out@.len() implies #[trigger] key_le()(
                out@[p],
                out@[q],
            ) by {
                if q < j {
                } else if q == j {
                } else if p < j {
                    assert(key_le()(out@[p], k));
                    assert(key_le()(k, before[j as int]));
                    if q > j + 1 {
                        assert(key_le()(before[j as int], before[q - 1]));
                    }
                } else if p == j {
                    assert(key_le()(k, before[j as int]));
                    if q > j + 1 {
                        assert(key_le()(before[j as int], before[q - 1]));
                    }
                } else {
                    assert(key_le()(before[p - 1], before[q - 1]));
                }
            }
        }
        i = i + 1;
    }
    proof {
        assert(keys@.subrange(0, i as int) =~= keys@);
        keys@.lemma_sort_by_ensures(key_le());
        lemma_sorted_unique(out@, keys@.sort_by(key_le()), key_le());
    }
    out
}

/// Keeps each key of `sorted`, from the front, unless a key kept before it
/// decompresses to the same point.
fn dedup_keys(sorted: &Vec<[u8; 32]>) -> (r: Vec<[u8; 32]>)
    requires
        all_points(sorted@),
        sorted_by(sorted@, key_le()),
    ensures
        r@ == dedup_points(sorted@),
        all_points(r@),
        strictly_ascending(r@),
        distinct_points(r@),
{
    let mut out: Vec<[u8; 32]> = Vec::new();
    let mut i: usize = 0;
    assert(sorted@.subrange(0, 0) =~= Seq::<[u8; 32]>::empty());
    while i < sorted.len()
        invariant
            i <= sorted@.len(),
            all_points(sorted@),
            all_points(out@),
            out@ == dedup_points(sorted@.subrange(0, i as int)),
            sorted_by(sorted@, key_le()),
            strictly_ascending(out@),
            distinct_points(out@),
            forall|m: int, q: int|
                0 <= m < out@.len() && i <= q < sorted@.len() ==> #[trigger] lex_le(
                    out@[m]@,
                    sorted@[q]@,
                ),
        decreases sorted@.len() - i,
    {
        let k = sorted[i];
        assert(is_curve_point(sorted@[i as int]@));
        let mut found = false;
        let mut j: usize = 0;
        while j < out.len() && !found
            invariant
                j <= out@.len(),
                all_points(out@),
                is_curve_point(k@),
                found ==> j < out@.len() && same_point(out@[j as int]@, k@),
                !found ==> forall|m: int|
                    0 <= m < j ==> !same_point(#[trigger] out@[m]@, k@) && out@[m]@ != k@,
            decreases out@.len() - j + (if found { 0int } else { 1int }),
        {
            assert(is_curve_point(out@[j as int]@));
            if points_equal(out[j], k) {
                found = true;
            } else {
                j = j + 1;
            }
        }
        let ghost prefix = sorted@.subrange(0, i + 1);
        assert(prefix.drop_last() =~= sorted@.subrange(0, i as int));
        assert(prefix.last() == k);
        let ghost before = out@;
        if !found {
            out.push(k);
        }
        proof {
            assert forall|m: int, q: int|
                0 <= m < out@.len() && i + 1 <= q < sorted@.len() implies #[trigger] lex_le(
                out@[m]@,
                sorted@[q]@,
            ) by {
                assert(key_le()(sorted@[i as int], sorted@[q]));
                if m < before.len() {
                    assert(lex_le(before[m]@, sorted@[i as int]@));
                    lemma_lex_transitive(before[m]@, sorted@[i as int]@, sorted@[q]@);
                }
            }
            if !found {
                assert forall|m: int, q: int| 0 <= m < q < out@.len() implies lex_le(
                    out@[m]@,
                    out@[q]@,
                ) && (#[trigger] out@[m])@ != (#[trigger] out@[q])@ by {
                    if q == before.len() {
                        assert(lex_le(before[m]@, sorted@[i as int]@));
                    }
                }
                assert forall|m: int, q: int| 0 <= m < q < out@.len() implies !same_point(
                    (#[trigger] out@[m])@,
                    (#[trigger] out@[q])@,
                ) by {
                    if q == before.len() {
                        assert(!same_point(before[m]@, k@));
                    }
                }
            }
        }
        i = i + 1;
    }
    assert(sorted@.subrange(0, i as int) =~= sorted@);
    out
}

/// The first position of `key` in `ring`, if it is there.
pub fn find_position(ring: &Vec<[u8; 32]>, key: &[u8; 32]) -> (r: Option<usize>)
    ensures
        r matches Some(i) ==> is_first_member(ring@, key@, i as nat),
        r is None ==> !has_member(ring@, key@),
{
    let mut i: usize = 0;
    while i < ring.len()
        invariant
            i <= ring@.len(),
            forall|j: int| 0 <= j < i ==> ring@[j]@ != key@,
        decreases ring@.len() - i,
    {
        let candidate = ring[i];
        if key_leq(&candidate, key) && key_leq(key, &candidate) {
            proof {
                lemma_lex_antisymmetric(candidate@, key@);
            }
            return Some(i);
        }
        proof {
            if candidate@ == key@ {
                lemma_lex_reflexive(key@);
            }
        }
        i = i + 1;
    }
    None
}

/// Whether every key decompresses to a curve point.
fn all_decompress(keys: &Vec<[u8; 32]>) -> (r: bool)
    ensures
        r == all_points(keys@),
{
    let mut i: usize = 0;
    while i < keys.len()
        invariant
            i <= keys@.len(),
            forall|j: int| 0 <= j < i ==> is_curve_point(#[trigger] keys@[j]@),
        decreases keys@.len() - i,
    {
        if !decompresses(keys[i]) {
            return false;
        }
        i = i + 1;
    }
    true
}

/// Sorts keys by their bytes and keeps one key of each point. Fails with
/// `Format` where a key does not decompress to a curve point.
pub fn canonicalize(keys: &Vec<[u8; 32]>) -> (r: Result<Vec<[u8; 32]>, RingError>)
    ensures
        all_points(keys@) ==> (r matches Ok(ring) && ring@ == canonical_ring(keys@) && all_points(
            ring@,
        ) && strictly_ascending(ring@) && distinct_points(ring@)),
        !all_points(keys@) ==> r == Err::<Vec<[u8; 32]>, RingError>(RingError::Format),
{
    if !all_decompress(keys) {
        return Err(RingError::Format);
    }
    let sorted = sort_keys(keys);
    proof {
        lemma_key_order_total();
        keys@.lemma_sort_by_ensures(key_le());
        assert forall|i: int| 0 <= i < sorted@.len() implies is_curve_point(
            #[trigger] sorted@[i]@,
        ) by {
            assert(sorted@.contains(sorted@[i]));
            assert(keys@.to_multiset().count(sorted@[i]) > 0);
            assert(keys@.contains(sorted@[i]));
        }
    }
    Ok(dedup_keys(&sorted))
}

} // verus!
