use std::collections::HashSet;

use ewm_cortex::bridge::KBridge;
use ewm_cortex::context_vocab::ContextVocabulary;
use ewm_cortex::hashing::{murmur3_hash, murmur3_hash_seeded, token_to_position, BITS_PER_REG};
use ewm_cortex::hllset::HLLSet;
use ewm_cortex::kstorage::{CatalogLutStorage, KStorage, KeyRef, TokenLutStorage};
use ewm_cortex::moe::MoE;
use ewm_cortex::setkey::{bss_coverage_counts, jaccard_counts, overlap};
use ewm_cortex::token_mask::TokenMask;

fn bytes(s: &str) -> Vec<u8> {
    s.as_bytes().to_vec()
}

fn list(words: &[&str]) -> Vec<Vec<u8>> {
    words.iter().map(|w| bytes(w)).collect()
}

fn hll(words: &[&str]) -> HLLSet {
    HLLSet::from_tokens(&list(words))
}

fn catalog_hllset(values: &[&str]) -> HLLSet {
    let mut h = HLLSet::new();
    for seed in [0u64, 1, 2] {
        for v in values {
            h.add_hash(murmur3_hash_seeded(v.as_bytes(), seed));
        }
    }
    h
}

// ── context vocabulary ─────────────────────────────────────────────────────

#[test]
fn tier1_advance_replaces_vocabulary() {
    let storage = TokenLutStorage::from_tokens(&list(&["alpha", "beta", "gamma"]));
    let mut vocab = ContextVocabulary::from_context(storage, hll(&["alpha", "beta"]));
    assert_eq!(vocab.len(), 2);
    assert!(vocab.contains(b"alpha"));
    assert!(vocab.contains(b"beta"));
    assert!(vocab.coverage_is_full());

    let delta = vocab.advance(&hll(&["beta", "gamma"]));
    assert_eq!(delta.added, vec![bytes("gamma")]);
    assert_eq!(delta.removed, vec![bytes("alpha")]);
    assert_eq!(vocab.len(), 2);
    assert!(vocab.contains(b"beta"));
    assert!(vocab.contains(b"gamma"));
    assert!(!vocab.contains(b"alpha"));
}

#[test]
fn tier1_accumulate_only_adds() {
    let storage = TokenLutStorage::from_tokens(&list(&["alpha", "beta", "gamma"]));
    let mut vocab = ContextVocabulary::from_context(storage, hll(&["alpha"]));
    let delta = vocab.accumulate(&hll(&["alpha", "beta"]));
    assert!(delta.removed.is_empty());
    assert_eq!(delta.added, vec![bytes("beta")]);
    assert!(vocab.contains(b"alpha"));
    assert!(vocab.contains(b"beta"));
}

#[test]
fn register_keeps_collision_partner_in_vocabulary() {
    let mut seen: std::collections::HashMap<u32, Vec<u8>> = std::collections::HashMap::new();
    let pair = (0..5000).find_map(|i| {
        let token = format!("w{i}").into_bytes();
        let (reg, zeros) = token_to_position(&token);
        let bit = reg * BITS_PER_REG + zeros;
        if let Some(prev) = seen.get(&bit) {
            Some((prev.clone(), token))
        } else {
            seen.insert(bit, token);
            None
        }
    });
    let Some((a, b)) = pair else {
        return;
    };
    assert_eq!(token_to_position(&a), token_to_position(&b));

    let mut vocab = ContextVocabulary::new(TokenLutStorage::new());
    vocab.register(a.clone());
    vocab.accumulate(&HLLSet::from_tokens(&[a.clone()]));
    assert!(vocab.contains(&a));

    vocab.register(b.clone());
    vocab.accumulate(&HLLSet::from_tokens(&[b.clone()]));
    assert!(vocab.contains(&b));
}

#[test]
fn tier1_advance_matches_full_materialization() {
    let storage = TokenLutStorage::from_tokens(&list(&["a", "b", "c", "d"]));
    let mut vocab = ContextVocabulary::from_context(storage, hll(&["a", "b", "c"]));
    vocab.advance(&hll(&["c", "d"]));
    let full: HashSet<Vec<u8>> = vocab.storage().candidates(&hll(&["c", "d"])).into_iter().collect();
    let maintained: HashSet<Vec<u8>> = vocab.tokens().into_iter().collect();
    assert_eq!(maintained, full);
}

#[test]
fn mask_holds_hashes_not_bytes() {
    let storage = TokenLutStorage::from_tokens(&list(&["alpha", "beta"]));
    let vocab = ContextVocabulary::from_context(storage, hll(&["alpha"]));
    assert!(vocab.mask().contains_token(b"alpha"));
    assert!(!vocab.mask().contains_token(b"beta"));
    assert_eq!(vocab.tokens(), vec![bytes("alpha")]);
}

#[test]
fn tier2_advance_is_exact() {
    let storage = CatalogLutStorage::from_values(&list(&["alice", "bob", "carol", "dave"]));
    let mut vocab = ContextVocabulary::from_context(storage, catalog_hllset(&["alice", "bob", "carol"]));
    assert_eq!(vocab.len(), 3);
    let delta = vocab.advance(&catalog_hllset(&["alice", "bob", "dave"]));
    assert_eq!(delta.added, vec![bytes("dave")]);
    assert_eq!(delta.removed, vec![bytes("carol")]);
    assert_eq!(vocab.len(), 3);
    assert!(vocab.contains(b"dave"));
    assert!(!vocab.contains(b"carol"));
}

#[test]
fn tier2_accumulate_is_exact() {
    let storage = CatalogLutStorage::from_values(&list(&["x", "y", "z"]));
    let mut vocab = ContextVocabulary::from_context(storage, catalog_hllset(&["x"]));
    let delta = vocab.accumulate(&catalog_hllset(&["x", "y"]));
    assert_eq!(delta.added, vec![bytes("y")]);
    assert!(delta.removed.is_empty());
    assert!(vocab.contains(b"x"));
    assert!(vocab.contains(b"y"));
    assert!(!vocab.contains(b"z"));
}

// ── MoE / ETT ──────────────────────────────────────────────────────────────

#[test]
fn shuffle_is_deterministic() {
    let observations = vec![hll(&["a"]), hll(&["b"]), hll(&["c"]), hll(&["d"])];
    let m1 = MoE::from_observations(&observations, 2, 1, None);
    let m2 = MoE::from_observations(&observations, 2, 1, None);
    let c1: Vec<String> = m1.experts.iter().map(|e| e.cid.clone()).collect();
    let c2: Vec<String> = m2.experts.iter().map(|e| e.cid.clone()).collect();
    assert_eq!(c1, c2, "IICA shuffle must be deterministic");
}

#[test]
fn leader_covers_recent_observation() {
    let observations = vec![hll(&["x", "y"]), hll(&["a", "b"]), hll(&["c", "d"]), hll(&["a", "b", "c"])];
    let recent = hll(&["a", "b", "c"]);
    let moe = MoE::from_observations(&observations, 2, 1, None);
    let leader = moe.expert_leader(&recent).expect("non-empty MoE");
    let (covered, total) = bss_coverage_counts(&leader.hllset, &recent);
    assert!(covered > 0 && total > 0);
    for ranked in moe.think_tank(&recent) {
        assert!(ranked.overlap <= covered);
        assert_eq!(ranked.recent_bits, total);
    }
}

#[test]
fn resolution_contains_leader_and_is_monotone() {
    let observations = vec![hll(&["a", "b"]), hll(&["b", "c"]), hll(&["c", "d"]), hll(&["d", "e"])];
    let recent = hll(&["a", "b"]);
    let moe = MoE::from_observations(&observations, 2, 1, None);
    let leader = moe.expert_leader(&recent).unwrap();
    // relevance >= 0.5: overlap * 2 >= |R|
    let min_overlap = (recent.popcount() + 1) / 2;
    let resolved = moe.resolve(&recent, min_overlap);
    assert!(resolved.popcount() >= leader.hllset.popcount());
    let inter = leader.hllset.intersection(&resolved);
    assert_eq!(inter.popcount(), leader.hllset.popcount());
    // a lower threshold resolves to a superset
    let wider = moe.resolve(&recent, 0);
    assert_eq!(resolved.intersection(&wider).popcount(), resolved.popcount());
}

#[test]
fn multi_shuffle_gives_different_partitions() {
    let observations: Vec<HLLSet> = (0..10).map(|i| HLLSet::from_tokens(&[format!("w{i}").into_bytes()])).collect();
    let m1 = MoE::from_observations(&observations, 2, 1, Some("salt-1"));
    let m2 = MoE::from_observations(&observations, 2, 1, Some("salt-2"));
    let c1: Vec<String> = m1.experts.iter().map(|e| e.cid.clone()).collect();
    let c2: Vec<String> = m2.experts.iter().map(|e| e.cid.clone()).collect();
    assert_ne!(c1, c2, "different salts should shuffle differently");
}

#[test]
fn frames_cover_every_observation() {
    let observations: Vec<HLLSet> = (0..7).map(|i| HLLSet::from_tokens(&[format!("o{i}").into_bytes()])).collect();
    let moe = MoE::from_observations(&observations, 3, 2, None);
    // starts 0, 2, 4, 6
    assert_eq!(moe.experts.len(), 4);
    let mut seen: Vec<usize> = moe.experts.iter().flat_map(|e| e.frame.clone()).collect();
    seen.sort();
    seen.dedup();
    assert_eq!(seen, (0..7).collect::<Vec<usize>>());
    for e in &moe.experts {
        assert!(e.frame.len() <= 3 && !e.frame.is_empty());
        assert_eq!(e.cid.len(), 40);
    }
}

// ── set-key scores ─────────────────────────────────────────────────────────

#[test]
fn overlap_is_exact_popcount() {
    let a = hll(&["alpha"]);
    let b = hll(&["alpha", "beta"]);
    assert!(overlap(&a, &b) >= 1);
    assert_eq!(overlap(&a, &b), a.popcount());
}

#[test]
fn jaccard_is_one_for_identical() {
    let a = hll(&["alpha", "beta"]);
    let (inter, union) = jaccard_counts(&a, &a);
    assert_eq!(inter, union);
    assert!(union > 0);
}

#[test]
fn bss_coverage_is_one_when_context_covers_query() {
    let query = hll(&["alpha"]);
    let context = hll(&["alpha", "beta", "gamma"]);
    let (covered, total) = bss_coverage_counts(&context, &query);
    assert_eq!(covered, total);
}

#[test]
fn bss_symmetric_is_bounded() {
    let a = hll(&["alpha", "beta"]);
    let b = hll(&["beta", "gamma"]);
    let (ab, b_total) = bss_coverage_counts(&a, &b);
    let (ba, a_total) = bss_coverage_counts(&b, &a);
    assert!(ab <= b_total && ba <= a_total);
    assert_eq!(ab, ba);
}

// ── token mask ─────────────────────────────────────────────────────────────

#[test]
fn mask_holds_addresses_not_bytes() {
    let mut mask = TokenMask::new();
    let hash = murmur3_hash(b"hello");
    assert!(mask.insert(hash));
    assert!(mask.contains_hash(hash));
    assert!(mask.contains_token(b"hello"));
    assert!(!mask.contains_token(b"world"));
    assert_eq!(mask.len(), 1);
    assert!(mask.remove(hash));
    assert!(mask.is_empty());
}

#[test]
fn mask_insert_twice_reports_presence() {
    let mut mask = TokenMask::new();
    assert!(mask.insert(7));
    assert!(!mask.insert(7));
    assert!(mask.insert(3));
    assert_eq!(mask.sorted_hashes(), vec![3, 7]);
    assert!(!mask.remove(99));
}

// ── K-storage round-trips ──────────────────────────────────────────────────

#[test]
fn token_lut_key_of_matches_hash_decomposition() {
    let storage = TokenLutStorage::from_tokens(&list(&["alpha", "beta"]));
    let (reg, zeros) = token_to_position(b"alpha");
    assert_eq!(storage.key_of(b"alpha"), KeyRef::Cell(reg * BITS_PER_REG + zeros));
}

#[test]
fn token_lut_candidates_recover_all_tokens() {
    let storage = TokenLutStorage::from_tokens(&list(&["alpha", "beta", "gamma"]));
    let hllset = hll(&["alpha", "beta", "gamma"]);
    let candidates = storage.candidates(&hllset);
    for token in ["alpha", "beta", "gamma"] {
        assert!(candidates.iter().any(|c| c == token.as_bytes()), "missing candidate: {token}");
    }
}

#[test]
fn token_lut_confidence_is_full_on_covered_set() {
    let storage = TokenLutStorage::from_tokens(&list(&["alpha", "beta", "gamma"]));
    let hllset = hll(&["alpha", "beta", "gamma"]);
    let (resolved, total) = storage.coverage_counts(&hllset);
    assert_eq!(resolved, total);
}

#[test]
fn token_lut_confidence_drops_on_unknown_bits() {
    let storage = TokenLutStorage::from_tokens(&list(&["alpha"]));
    let hllset = hll(&["alpha", "unregistered-token-xyz"]);
    let (resolved, total) = storage.coverage_counts(&hllset);
    assert!(resolved < total, "resolved={resolved} total={total}");
    assert!(resolved > 0, "resolved={resolved} total={total}");
}

#[test]
fn catalog_lut_key_is_multi_seed_with_quorum() {
    let storage = CatalogLutStorage::from_values(&list(&["alice@example.com"]));
    match storage.key_of(b"alice@example.com") {
        KeyRef::Cells(cells, quorum) => {
            assert_eq!(cells.len(), 3);
            assert_eq!(quorum, 2);
        }
        other => panic!("expected Cells, got {other:?}"),
    }
}

#[test]
fn catalog_lut_consensus_roundtrip() {
    let values = ["alice", "bob", "carol"];
    let storage = CatalogLutStorage::from_values(&list(&values));
    let hllset = catalog_hllset(&values);
    let (resolved, total) = storage.coverage_counts(&hllset);
    assert_eq!(resolved, total);
    let candidates = storage.candidates(&hllset);
    for value in values {
        assert!(candidates.iter().any(|c| c == value.as_bytes()), "missing candidate: {value}");
    }
}

#[test]
fn setkey_scores_and_retrieval() {
    let query = hll(&["alpha"]);
    let context = hll(&["alpha", "beta", "gamma"]);
    let (inter, union) = jaccard_counts(&query, &query);
    assert_eq!(inter, union);
    assert_eq!(overlap(&query, &context), query.popcount());
    let (covered, total) = bss_coverage_counts(&context, &query);
    assert_eq!(covered, total);
}

#[test]
fn bridge_reads_keys_and_candidates() {
    let bridge = KBridge::new(TokenLutStorage::from_tokens(&list(&["hello", "world"])));
    let bit = match bridge.key_ref(b"hello") {
        KeyRef::Cell(b) => b,
        other => panic!("expected Cell, got {other:?}"),
    };
    let (reg, zeros) = token_to_position(b"hello");
    assert_eq!(bit, reg * BITS_PER_REG + zeros);
    let candidates = bridge.candidates(&hll(&["hello"]));
    assert!(candidates.contains(&bytes("hello")));
    let (resolved, total) = bridge.coverage_counts(&hll(&["hello", "world"]));
    assert_eq!(resolved, total);
}

#[test]
fn resolve_finds_first_token_by_content_address() {
    let storage = TokenLutStorage::from_tokens(&list(&["alpha", "beta"]));
    assert_eq!(storage.resolve(murmur3_hash(b"beta")), Some(bytes("beta")));
    assert_eq!(storage.resolve(murmur3_hash(b"gamma")), None);
    let catalog = CatalogLutStorage::from_values(&list(&["alice"]));
    assert_eq!(catalog.positions_of(b"alice").map(|c| c.len()), Some(3));
    assert!(catalog.positions_of(b"bob").is_none());
}

#[test]
fn token_lut_group_holds_the_collision_group() {
    let storage = TokenLutStorage::from_tokens(&list(&["alpha", "beta", "alpha"]));
    assert_eq!(storage.len(), 2);
    let (reg, zeros) = token_to_position(b"alpha");
    let group = storage.group(reg * BITS_PER_REG + zeros);
    assert!(group.contains(&bytes("alpha")));
    assert!(group.iter().all(|t| token_to_position(t) == (reg, zeros)));
}

#[test]
fn apply_delta_removes_departed_before_adding_new() {
    let storage = TokenLutStorage::from_tokens(&list(&["alpha", "beta"]));
    let mut vocab = ContextVocabulary::from_context(storage, hll(&["alpha"]));
    // alpha departs and arrives in the same delta: it stays
    let delta = vocab.apply_delta(&hll(&["alpha"]), &hll(&["alpha"]));
    assert!(vocab.contains(b"alpha"));
    assert_eq!(delta.removed, vec![bytes("alpha")]);
    assert_eq!(delta.added, vec![bytes("alpha")]);
    // beta was absent: nothing to remove, then it enters
    let delta = vocab.apply_delta(&hll(&["beta"]), &hll(&["beta"]));
    assert!(vocab.contains(b"beta"));
    assert!(delta.removed.is_empty());
    assert_eq!(delta.added, vec![bytes("beta")]);
}

#[test]
fn resolution_below_threshold_is_the_leader_alone() {
    let observations = vec![HLLSet::new(), hll(&["b"]), hll(&["c"])];
    let recent = hll(&["a"]);
    let moe = MoE::from_observations(&observations, 1, 1, None);
    let ranked = moe.think_tank(&recent);
    for r in &ranked {
        assert_eq!(r.overlap, 0);
    }
    let leader = &ranked[0].expert.hllset;
    let resolved = moe.resolve(&recent, 1);
    assert_eq!(resolved.popcount(), leader.popcount());
    assert_eq!(resolved.intersection(leader).popcount(), leader.popcount());
}

#[test]
fn token_mask_counts_inserts_and_removes() {
    let mut m = TokenMask::new();
    assert!(m.insert(7));
    assert!(!m.insert(7));
    assert_eq!(m.len(), 1);
    assert!(m.insert(9));
    assert_eq!(m.len(), 2);
    assert!(m.remove(7));
    assert!(!m.remove(7));
    assert_eq!(m.len(), 1);
}
