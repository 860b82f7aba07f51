use ewm_cortex::corpus::CORPUS;
use ewm_cortex::data::{batch_at, CharDataset};
use ewm_cortex::hashing::TOTAL_CELLS;
use ewm_cortex::kstorage::TokenLutStorage;
use ewm_cortex::phase1::{attach, collision_stats, matches_theory, SYNTHETIC_VOCAB};
use ewm_cortex::phase2::{bits_for_dataset, char_token, char_tokens};
use ewm_cortex::phase3::{run_phase3, sentence_tokens};
use ewm_cortex::rng::XorShift;

const SMALL: &str = "\
the cat sat on the mat
the dog ran in the sun
the cat purred on the mat
the dog chased the cat
";

fn list(words: &[&str]) -> Vec<Vec<u8>> {
    words.iter().map(|w| w.as_bytes().to_vec()).collect()
}

#[test]
fn vocab_and_roundtrip() {
    let ds = CharDataset::from_text("ab ca");
    assert_eq!(ds.vocab_size(), 4);
    let ids = ds.encode("ab c");
    assert_eq!(ds.decode(&ids), "ab c");
}

#[test]
fn batch_targets_are_shifted() {
    let ds = CharDataset::from_text("abcdef");
    let batch = batch_at(ds.data(), 0, 3);
    assert_eq!(batch.inputs, ds.encode("abc"));
    assert_eq!(batch.targets, ds.encode("bcd"));
}

#[test]
fn bits_cover_vocabulary_in_range() {
    let ds = CharDataset::from_text("abc");
    let bits = bits_for_dataset(&ds);
    assert_eq!(bits.len(), 3);
    assert!(bits.iter().all(|&b| (b as usize) < TOTAL_CELLS));
}

#[test]
fn coverage_is_full_on_corpus_vocabulary() {
    let ds = CharDataset::from_text("abcabc");
    let report = attach(&ds);
    assert_eq!(report.resolved_bits, report.corpus_bits);
    assert_eq!(report.vocab_size, 3);
    assert!(report.corpus_bits >= 1);
}

#[test]
fn synthetic_collisions_match_theory() {
    let ds = CharDataset::from_text("hello world");
    let report = attach(&ds);
    let n = report.synthetic.vocab_size as f64;
    let expected_pairs = n * (n - 1.0) / 2.0 / 3072.0;
    assert!(
        report.synthetic_matches_theory,
        "observed={} expected={}",
        report.synthetic.observed_pairs,
        expected_pairs
    );
    assert!(expected_pairs > 3000.0);
    assert_eq!(report.synthetic.vocab_size, SYNTHETIC_VOCAB);
}

#[test]
fn tiny_vocabulary_has_no_collisions() {
    let tokens = list(&["a", "b", "c"]);
    let storage = TokenLutStorage::from_tokens(&tokens);
    let stats = collision_stats(&storage, &tokens);
    assert_eq!(stats.occupied_cells, 3);
    assert_eq!(stats.observed_pairs, 0);
}

#[test]
fn pipeline_is_deterministic_and_covered() {
    let a = run_phase3(SMALL, 2, 1, 1, 2, 2);
    let b = run_phase3(SMALL, 2, 1, 1, 2, 2);
    assert_eq!(a.leader_cid, b.leader_cid, "IICA pipeline must be deterministic");
    assert_eq!(a.resolved_bits, b.resolved_bits);
    assert_eq!(a.covered_bits, a.resolved_bits, "coverage invariant over F(t)");
    assert!(a.resolved_tokens > 0);
}

#[test]
fn leader_explains_recent_observation() {
    let report = run_phase3(SMALL, 2, 1, 1, 2, 1);
    assert!(report.leader_overlap > 0);
    assert!(!report.top_tokens.is_empty());
}

// ── further scenarios ──────────────────────────────────────────────────────

#[test]
fn duplicate_tokens_collide_in_pairs() {
    let tokens = list(&["a", "a", "a", "b"]);
    let storage = TokenLutStorage::from_tokens(&tokens);
    let stats = collision_stats(&storage, &tokens);
    assert_eq!(stats.vocab_size, 4);
    // three copies of one token: C(3, 2) pairs in one cell
    assert!(stats.observed_pairs >= 3);
    assert!(stats.max_group_size >= 3);
    assert!(stats.occupied_cells <= 2);
}

#[test]
fn empty_vocabulary_has_zero_statistics() {
    let storage = TokenLutStorage::new();
    let stats = collision_stats(&storage, &[]);
    assert_eq!(stats.vocab_size, 0);
    assert_eq!(stats.occupied_cells, 0);
    assert_eq!(stats.max_group_size, 0);
    assert_eq!(stats.observed_pairs, 0);
}

#[test]
fn theory_match_is_exact_rational() {
    // 5000 tokens: C(5000, 2) = 12_497_500, expected 4068.19... pairs
    assert!(matches_theory(4068, 5000));
    assert!(matches_theory(3500, 5000));
    assert!(!matches_theory(3400, 5000));
    assert!(matches_theory(4670, 5000));
    assert!(!matches_theory(4700, 5000));
    // fewer than one expected pair: at most one observed
    assert!(matches_theory(1, 10));
    assert!(!matches_theory(2, 10));
}

#[test]
fn char_tokens_are_utf8() {
    assert_eq!(char_token('a'), b"a".to_vec());
    assert_eq!(char_token('é'), "é".as_bytes().to_vec());
    assert_eq!(char_tokens(&['x', 'y']), list(&["x", "y"]));
}

#[test]
fn sentences_skip_blank_lines() {
    let s = sentence_tokens("a b\n\n  \nc\r\n d  e \n");
    assert_eq!(s, vec![list(&["a", "b"]), list(&["c"]), list(&["d", "e"])]);
    assert!(sentence_tokens("").is_empty());
}

#[test]
fn corpus_phase3_is_covered() {
    let report = run_phase3(CORPUS, 3, 2, 3, 10, 2);
    assert_eq!(report.observations, 15);
    assert_eq!(report.experts, 8);
    assert_eq!(report.covered_bits, report.resolved_bits);
    assert!(report.top_tokens.len() <= 10);
    assert!(report.leader_overlap <= report.recent_bits);
    for w in report.top_tokens.windows(2) {
        assert!(w[0].1 > w[1].1 || (w[0].1 == w[1].1 && w[0].0 < w[1].0));
    }
}

#[test]
fn xorshift_is_deterministic_and_never_zero() {
    let mut a = XorShift::new(0);
    let mut b = XorShift::new(1);
    for _ in 0..100 {
        let x = a.next_u32();
        assert_eq!(x, b.next_u32());
        assert_ne!(x, 0);
    }
    let mut c = XorShift::new(7);
    // xorshift32 from 7: 7 ^ (7 << 13) = 57351, ^ (>> 17) = 57351, ^ (<< 5)
    let first = c.next_u32();
    let mut x: u32 = 7;
    x ^= x << 13;
    x ^= x >> 17;
    x ^= x << 5;
    assert_eq!(first, x);
}
