use ring_signature::chain::{get_next_e_value, hram_e_value};
use ring_signature::error::RingError;
use ring_signature::keys::{expand, expand_sk, public_key};
use ring_signature::ring::{canonicalize, find_position};
use ring_signature::signature::{draw_scalar, sign, sign_with, verify, verify_ring};

fn secret(seed: u8) -> [u8; 32] {
    [seed; 32]
}

fn keys_of(seeds: &[u8]) -> Vec<[u8; 32]> {
    seeds.iter().map(|s| public_key(&secret(*s))).collect()
}

/// The seed, among `seeds`, whose public key sits at `index` of the canonical ring.
fn seed_at(seeds: &[u8], index: usize) -> u8 {
    let ring = canonicalize(&keys_of(seeds)).unwrap();
    *seeds
        .iter()
        .find(|s| public_key(&secret(**s)) == ring[index])
        .unwrap()
}

fn not_a_point() -> [u8; 32] {
    (2u8..=255)
        .map(|b| {
            let mut k = [0u8; 32];
            k[0] = b;
            k
        })
        .find(|k| canonicalize(&vec![*k]).is_err())
        .expect("some encoding is not a curve point")
}

#[test]
fn expand_sk_matches_blake2b_digest() {
    let (scalar, nonce) = expand_sk(&secret(7));
    assert_eq!(
        scalar,
        [
            24, 252, 151, 96, 2, 21, 101, 148, 243, 129, 24, 208, 201, 197, 50, 15, 166, 87, 25,
            30, 170, 45, 16, 170, 233, 26, 212, 50, 127, 66, 38, 71
        ]
    );
    assert_eq!(
        nonce,
        [
            11, 168, 2, 63, 226, 175, 133, 237, 211, 11, 185, 167, 221, 18, 14, 85, 219, 137, 53,
            229, 191, 18, 48, 68, 253, 121, 137, 121, 122, 84, 110, 31
        ]
    );
}

#[test]
fn expand_sk_clamps_bits() {
    for seed in 0u8..20 {
        let (scalar, _) = expand_sk(&secret(seed));
        assert_eq!(scalar[0] & 7, 0);
        assert_eq!(scalar[31] & 128, 0);
        assert_eq!(scalar[31] & 64, 64);
    }
}

#[test]
fn expand_reduces_signing_scalar() {
    let expanded = expand(&secret(7));
    assert_eq!(
        expanded.scalar,
        [
            100, 172, 192, 236, 152, 136, 27, 52, 154, 14, 58, 68, 79, 222, 182, 187, 165, 87, 25,
            30, 170, 45, 16, 170, 233, 26, 212, 50, 127, 66, 38, 7
        ]
    );
    assert_eq!(expanded.nonce_seed, expand_sk(&secret(7)).1);
}

#[test]
fn hram_hashes_concatenation_to_scalar() {
    let e = hram_e_value(&[1u8; 32], &[2u8; 32], b"abc");
    assert_eq!(
        e,
        [
            21, 63, 189, 214, 9, 17, 118, 206, 142, 20, 186, 252, 244, 115, 198, 42, 27, 85, 255,
            121, 153, 153, 92, 230, 7, 82, 192, 65, 54, 104, 183, 5
        ]
    );
    // Only the concatenation counts, not where the parts split.
    let mut joined = vec![1u8; 32];
    joined.extend_from_slice(&[2u8; 32]);
    assert_eq!(hram_e_value(&joined, &[], b"abc"), e);
}

#[test]
fn hram_of_empty_input() {
    assert_eq!(
        hram_e_value(&[], &[], &[]),
        [
            77, 49, 255, 37, 46, 199, 39, 255, 177, 148, 160, 85, 116, 130, 198, 89, 228, 55, 110,
            118, 232, 20, 129, 52, 103, 132, 96, 203, 36, 34, 62, 6
        ]
    );
}

#[test]
fn next_e_value_depends_on_every_input() {
    let pk = public_key(&secret(1));
    let next = public_key(&secret(2));
    let e = [3u8; 32];
    let s = [4u8; 32];
    let base = get_next_e_value(b"m", &pk, &e, &s, &next);
    assert_ne!(base, get_next_e_value(b"n", &pk, &e, &s, &next));
    assert_ne!(base, get_next_e_value(b"m", &next, &e, &s, &next));
    assert_ne!(base, get_next_e_value(b"m", &pk, &[5u8; 32], &s, &next));
    assert_ne!(base, get_next_e_value(b"m", &pk, &e, &[5u8; 32], &next));
    assert_ne!(base, get_next_e_value(b"m", &pk, &e, &s, &pk));
    assert_eq!(base, get_next_e_value(b"m", &pk, &e, &s, &next));
}

#[test]
fn public_key_is_deterministic_and_distinct() {
    assert_eq!(public_key(&secret(1)), public_key(&secret(1)));
    assert_ne!(public_key(&secret(1)), public_key(&secret(2)));
    assert_ne!(public_key(&secret(1)), secret(1));
}

#[test]
fn canonicalize_sorts_and_dedups() {
    let keys = keys_of(&[5, 3, 9, 3, 5, 5]);
    let ring = canonicalize(&keys).unwrap();
    assert_eq!(ring.len(), 3);
    assert!(ring[0] < ring[1] && ring[1] < ring[2]);
    for k in &keys {
        assert!(ring.contains(k));
    }
}

#[test]
fn canonicalize_is_order_independent() {
    let a = canonicalize(&keys_of(&[1, 2, 3, 4])).unwrap();
    let b = canonicalize(&keys_of(&[4, 2, 2, 1, 3, 4])).unwrap();
    let c = canonicalize(&keys_of(&[3, 1, 4, 2])).unwrap();
    assert_eq!(a, b);
    assert_eq!(a, c);
}

#[test]
fn canonicalize_empty() {
    assert_eq!(canonicalize(&vec![]), Ok(vec![]));
}

#[test]
fn canonicalize_rejects_non_point() {
    let mut keys = keys_of(&[1, 2]);
    keys.push(not_a_point());
    assert_eq!(canonicalize(&keys), Err(RingError::Format));
}

#[test]
fn find_position_locates_member() {
    let ring = canonicalize(&keys_of(&[1, 2, 3])).unwrap();
    for (i, k) in ring.iter().enumerate() {
        assert_eq!(find_position(&ring, k), Some(i));
    }
    assert_eq!(find_position(&ring, &public_key(&secret(4))), None);
}

#[test]
fn round_trip_every_size_and_signer() {
    for n in 1u8..=5 {
        let seeds: Vec<u8> = (1..=n).collect();
        let keys = keys_of(&seeds);
        for seed in &seeds {
            let msg = format!("message {} {}", n, seed);
            let sig = sign(msg.as_bytes(), &keys, &secret(*seed)).unwrap();
            assert_eq!(sig.len(), 32 * (1 + n as usize));
            assert_eq!(verify(msg.as_bytes(), &keys, &sig), Ok(true));
        }
    }
}

#[test]
fn signatures_are_randomized() {
    let keys = keys_of(&[1, 2, 3]);
    let a = sign(b"same", &keys, &secret(2)).unwrap();
    let b = sign(b"same", &keys, &secret(2)).unwrap();
    assert_ne!(a, b);
    assert_eq!(verify(b"same", &keys, &a), Ok(true));
    assert_eq!(verify(b"same", &keys, &b), Ok(true));
}

#[test]
fn tamper_message_fails() {
    let keys = keys_of(&[1, 2, 3]);
    let sig = sign(b"hello", &keys, &secret(1)).unwrap();
    assert_eq!(verify(b"hellp", &keys, &sig), Ok(false));
    assert_eq!(verify(b"hello!", &keys, &sig), Ok(false));
    assert_eq!(verify(b"", &keys, &sig), Ok(false));
}

#[test]
fn tamper_ring_member_fails() {
    let keys = keys_of(&[1, 2, 3]);
    let sig = sign(b"hello", &keys, &secret(1)).unwrap();
    // A member replaced by another valid key.
    let other = keys_of(&[1, 2, 4]);
    assert_eq!(verify(b"hello", &other, &sig), Ok(false));
    // A single bit flipped in a member's key: either no longer a point, or a wrong one.
    let mut flipped = keys.clone();
    flipped[2][0] ^= 1;
    let result = verify(b"hello", &flipped, &sig);
    assert!(result == Ok(false) || result == Err(RingError::Format));
}

#[test]
fn tamper_scalar_fails() {
    let keys = keys_of(&[1, 2, 3]);
    let sig = sign(b"hello", &keys, &secret(3)).unwrap();
    for position in [0usize, 32, 64, 96, 127] {
        let mut bad = sig.clone();
        bad[position] ^= 1;
        let result = verify(b"hello", &keys, &bad);
        assert!(result == Ok(false) || result == Err(RingError::Format));
        assert_ne!(result, Ok(true));
    }
    let mut bad = sig.clone();
    bad[40] ^= 0x10;
    assert_eq!(verify(b"hello", &keys, &bad), Ok(false));
}

#[test]
fn verify_length_off_by_one_is_format_error() {
    let keys = keys_of(&[1, 2, 3]);
    let sig = sign(b"msg", &keys, &secret(2)).unwrap();
    let mut longer = sig.clone();
    longer.push(0);
    let shorter = sig[..sig.len() - 1].to_vec();
    assert_eq!(verify(b"msg", &keys, &longer), Err(RingError::Format));
    assert_eq!(verify(b"msg", &keys, &shorter), Err(RingError::Format));
    assert_eq!(verify(b"msg", &keys, &[]), Err(RingError::Format));
}

#[test]
fn verify_non_canonical_scalar_is_format_error() {
    let keys = keys_of(&[1, 2]);
    let mut sig = sign(b"msg", &keys, &secret(1)).unwrap();
    for b in &mut sig[32..64] {
        *b = 0xff;
    }
    assert_eq!(verify(b"msg", &keys, &sig), Err(RingError::Format));
    let mut sig = sign(b"msg", &keys, &secret(1)).unwrap();
    for b in &mut sig[..32] {
        *b = 0xff;
    }
    assert_eq!(verify(b"msg", &keys, &sig), Err(RingError::Format));
}

#[test]
fn verify_rejects_non_point_key() {
    let keys = vec![not_a_point()];
    assert_eq!(verify(b"msg", &keys, &[0u8; 64]), Err(RingError::Format));
}

#[test]
fn verify_empty_ring_is_format_error() {
    assert_eq!(verify(b"msg", &vec![], &[0u8; 32]), Err(RingError::Format));
}

#[test]
fn sign_outside_ring_is_membership_error() {
    let keys = keys_of(&[1, 2, 3]);
    assert_eq!(sign(b"msg", &keys, &secret(9)), Err(RingError::Membership));
    assert_eq!(sign(b"msg", &vec![], &secret(9)), Err(RingError::Membership));
}

#[test]
fn sign_with_non_point_is_format_error() {
    let mut keys = keys_of(&[1]);
    keys.push(not_a_point());
    assert_eq!(sign(b"msg", &keys, &secret(1)), Err(RingError::Format));
}

#[test]
fn ring_of_one_validates() {
    let keys = keys_of(&[42]);
    let sig = sign(b"solo", &keys, &secret(42)).unwrap();
    assert_eq!(sig.len(), 64);
    assert_eq!(verify(b"solo", &keys, &sig), Ok(true));
    assert_eq!(verify(b"solx", &keys, &sig), Ok(false));
}

#[test]
fn ring_of_three_signer_one_empty_message() {
    let seeds = [11u8, 12, 13];
    let signer = seed_at(&seeds, 1);
    let keys = keys_of(&seeds);
    let ring = canonicalize(&keys).unwrap();
    assert_eq!(find_position(&ring, &public_key(&secret(signer))), Some(1));
    let sig = sign(b"", &keys, &secret(signer)).unwrap();
    assert_eq!(sig.len(), 128);
    let reordered = vec![keys[2], keys[0], keys[1]];
    assert_eq!(verify(b"", &reordered, &sig), Ok(true));
}

#[test]
fn sign_with_fixed_draws_is_deterministic() {
    let seeds = [1u8, 2, 3, 4];
    let ring = canonicalize(&keys_of(&seeds)).unwrap();
    let signer = seed_at(&seeds, 2);
    let expanded = expand(&secret(signer));
    let nonce = [9u8; 32];
    // Drawn in walk order: positions 3, 0, 1 after the signer at 2.
    let draws = vec![[1u8; 32], [2u8; 32], [3u8; 32]];
    let a = sign_with(b"fixed", &ring, 2, &expanded.scalar, &nonce, &draws);
    let b = sign_with(b"fixed", &ring, 2, &expanded.scalar, &nonce, &draws);
    assert_eq!(a, b);
    assert_eq!(a.len(), 160);
    assert_eq!(&a[128..160], &draws[0]);
    assert_eq!(&a[32..64], &draws[1]);
    assert_eq!(&a[64..96], &draws[2]);
    assert_ne!(&a[96..128], &[0u8; 32]);
    assert_eq!(verify_ring(b"fixed", &ring, &a), Ok(true));
}

#[test]
fn sign_with_wrong_scalar_does_not_verify() {
    let ring = canonicalize(&keys_of(&[1, 2])).unwrap();
    let wrong = expand(&secret(5));
    let sig = sign_with(b"x", &ring, 0, &wrong.scalar, &[9u8; 32], &vec![[1u8; 32]]);
    assert_eq!(verify_ring(b"x", &ring, &sig), Ok(false));
}

#[test]
fn draw_scalar_gives_canonical_distinct_scalars() {
    let a = draw_scalar().unwrap();
    let b = draw_scalar().unwrap();
    assert_ne!(a, b);
    assert!(a[31] < 0x20 && b[31] < 0x20);
}

#[test]
fn ring_with_small_order_member_round_trips() {
    // The point of order two, (0, -1): a valid key with a small-order component.
    let mut order_two = [0u8; 32];
    order_two[0] = 0xec;
    for b in &mut order_two[1..31] {
        *b = 0xff;
    }
    order_two[31] = 0x7f;
    let keys = vec![public_key(&secret(1)), order_two];
    assert!(canonicalize(&keys).is_ok());
    for _ in 0..4 {
        let sig = sign(b"mixed", &keys, &secret(1)).unwrap();
        assert_eq!(verify(b"mixed", &keys, &sig), Ok(true));
    }
}

#[test]
fn canonicalize_drops_byte_identical_duplicates() {
    let k = public_key(&secret(3));
    assert_eq!(canonicalize(&vec![k, k, k]), Ok(vec![k]));
}
