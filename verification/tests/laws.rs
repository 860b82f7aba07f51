use std::collections::HashSet;

use ewm_cortex::encoding::{tid, SimCodec};
use ewm_cortex::hashing::{murmur3_hash, murmur3_hash_seeded, sha1_hex, to_hex_lower, token_to_position};
use ewm_cortex::hllset::HLLSet;
use ewm_cortex::kstorage::{KStorage, TokenLutStorage};
use ewm_cortex::moe::Observation;

fn list(words: &[&str]) -> Vec<Vec<u8>> {
    words.iter().map(|w| w.as_bytes().to_vec()).collect()
}

// ── the adjunction I ⊣ M over the tier-1 LUT ───────────────────────────────

#[test]
fn galois_materialize_of_ingest_contains_the_tokens() {
    let lut = TokenLutStorage::from_tokens(&list(&["red", "green", "blue", "cyan", "gray"]));
    let s = list(&["green", "cyan"]);
    let closure: HashSet<Vec<u8>> = lut.candidates(&HLLSet::from_tokens(&s)).into_iter().collect();
    for t in &s {
        assert!(closure.contains(t));
    }
    // idempotent: closing again changes nothing
    let closure_vec: Vec<Vec<u8>> = closure.iter().cloned().collect();
    let again: HashSet<Vec<u8>> = lut.candidates(&HLLSet::from_tokens(&closure_vec)).into_iter().collect();
    assert_eq!(again, closure);
}

#[test]
fn ingest_of_materialize_is_identity_on_covered_sets() {
    let lut = TokenLutStorage::from_tokens(&list(&["one", "two", "three", "four"]));
    let h = HLLSet::from_tokens(&list(&["two", "four"]));
    let back = HLLSet::from_tokens(&lut.candidates(&h));
    assert_eq!(back.positions(), h.positions());
}

#[test]
fn ingest_is_a_join_homomorphism() {
    let a = list(&["a", "b"]);
    let b = list(&["b", "c"]);
    let mut ab = a.clone();
    ab.extend(b.clone());
    let joined = HLLSet::from_tokens(&a).union(&HLLSet::from_tokens(&b));
    assert_eq!(HLLSet::from_tokens(&ab).positions(), joined.positions());
    let mut merged = HLLSet::from_tokens(&a);
    merged.merge(&HLLSet::from_tokens(&b));
    assert_eq!(merged.positions(), joined.positions());
}

#[test]
fn lattice_operations_agree_with_cell_sets() {
    let a = HLLSet::from_tokens(&list(&["p", "q", "r"]));
    let b = HLLSet::from_tokens(&list(&["q", "r", "s"]));
    let pa: HashSet<u32> = a.positions().into_iter().collect();
    let pb: HashSet<u32> = b.positions().into_iter().collect();
    let as_set = |h: &HLLSet| h.positions().into_iter().collect::<HashSet<u32>>();
    assert_eq!(as_set(&a.union(&b)), pa.union(&pb).cloned().collect());
    assert_eq!(as_set(&a.intersection(&b)), pa.intersection(&pb).cloned().collect());
    assert_eq!(as_set(&a.difference(&b)), pa.difference(&pb).cloned().collect());
    assert_eq!(as_set(&a.symmetric_difference(&b)), pa.symmetric_difference(&pb).cloned().collect());
    assert_eq!(a.popcount() as usize, pa.len());
    assert!(HLLSet::new().is_empty());
}

#[test]
fn cell_is_register_times_32_plus_trailing_zeros() {
    for t in ["alpha", "beta", "gamma", ""] {
        let h = murmur3_hash(t.as_bytes());
        let (reg, tz) = token_to_position(t.as_bytes());
        assert_eq!(reg as u64, h % 1024);
        let rest = h >> 10;
        let expected_tz = if rest == 0 { 31 } else { rest.trailing_zeros().min(31) };
        assert_eq!(tz, expected_tz);
        let single = HLLSet::from_tokens(&[t.as_bytes().to_vec()]);
        assert_eq!(single.positions(), vec![reg * 32 + tz]);
    }
}

// ── codec round-trips ──────────────────────────────────────────────────────

#[test]
fn encode_then_decode_gives_the_words_back() {
    let codec = SimCodec::from_text("bravo alpha charlie alpha");
    let ids = codec.encode_text("charlie alpha bravo");
    assert_eq!(ids, vec![tid(2).into_bytes(), tid(0).into_bytes(), tid(1).into_bytes()]);
    assert_eq!(codec.decode_ids(&ids), "charlie alpha bravo");
}

// ── outside computations ───────────────────────────────────────────────────

#[test]
fn murmur3_is_the_low_half_of_the_128_bit_digest() {
    for t in ["", "hello", "tid42"] {
        let full = fastmurmur3::murmur3_x64_128(t.as_bytes(), 0);
        assert_eq!(murmur3_hash(t.as_bytes()), full as u64);
        let seeded = fastmurmur3::murmur3_x64_128(t.as_bytes(), 7);
        assert_eq!(murmur3_hash_seeded(t.as_bytes(), 7), seeded as u64);
    }
    assert_ne!(murmur3_hash(b"hello"), murmur3_hash_seeded(b"hello", 1));
}

#[test]
fn sha1_hex_matches_known_digests() {
    assert_eq!(sha1_hex(b"abc"), "a9993e364706816aba3e25717850c26c9cd0d89d");
    assert_eq!(sha1_hex(b""), "da39a3ee5e6b4b0d3255bfef95601890afd80709");
    assert_eq!(to_hex_lower(&[0x00, 0xab, 0x0f]), "00ab0f");
}

#[test]
fn serialized_hllset_is_the_roaring_bitmap_of_its_cells() {
    let h = HLLSet::from_tokens(&list(&["x", "y", "z"]));
    let bitmap: roaring::RoaringBitmap = h.positions().into_iter().collect();
    let mut expected = Vec::new();
    bitmap.serialize_into(&mut expected).unwrap();
    assert_eq!(h.to_bytes(), expected);
    let observation = Observation::new(h.duplicate());
    assert_eq!(observation.cid, sha1_hex(&expected));
}
