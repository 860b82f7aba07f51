use ewm_cortex::encoding::{tid, tid_as_bytes, SimCodec};
use ewm_cortex::gate::Gate;
use ewm_cortex::hllset::HLLSet;
use ewm_cortex::lut::TfLut;
use ewm_cortex::pipeline::CortexPipeline;

fn bytes(s: &str) -> Vec<u8> {
    s.as_bytes().to_vec()
}

fn list(words: &[&str]) -> Vec<Vec<u8>> {
    words.iter().map(|w| bytes(w)).collect()
}

#[test]
fn codec_roundtrip() {
    let codec = SimCodec::from_text("the cat sat the dog ran");
    let ids = codec.encode_text("the cat sat");
    assert_eq!(ids.len(), 3);
    assert_eq!(codec.decode_ids(&ids), "the cat sat");
}

#[test]
fn oov_words_are_dropped() {
    let codec = SimCodec::from_text("alpha beta");
    let ids = codec.encode_text("alpha gamma");
    assert_eq!(ids.len(), 1);
    assert_eq!(codec.decode_id(&ids[0]).unwrap(), b"alpha");
}

#[test]
fn vocab_is_sorted_and_tid_indexed() {
    let codec = SimCodec::from_words(&list(&["b", "a"]));
    assert_eq!(codec.vocab()[0], b"tid0");
    assert_eq!(codec.decode_id(&codec.vocab()[0]).unwrap(), b"a");
    assert_eq!(codec.decode_id(&codec.vocab()[1]).unwrap(), b"b");
}

#[test]
fn gate_filters_unknown_bits() {
    let gate = Gate::from_vocab(&list(&["tid0", "tid1"]));
    let doc = HLLSet::from_tokens(&list(&["tid0", "tid999"]));
    let gated = gate.apply(&doc);
    assert!(gated.popcount() <= doc.popcount());
    assert!(gate.exact_known(b"tid0"));
    assert!(!gate.exact_known(b"tid999"));
}

#[test]
fn gate_is_deterministic() {
    let g1 = Gate::from_vocab(&list(&["a", "b", "c"]));
    let g2 = Gate::from_vocab(&list(&["c", "b", "a"]));
    assert_eq!(g1.hllset().popcount(), g2.hllset().popcount());
    assert_eq!(g1.len(), 3);
}

#[test]
fn tf_ranking_orders_materialization() {
    let mut lut = TfLut::new();
    lut.observe(&list(&["a", "a", "a", "b"]));
    let doc = HLLSet::from_tokens(&list(&["a", "b"]));
    let restored = lut.materialize(&doc);
    assert_eq!(restored, vec![bytes("a"), bytes("b")]);
    assert_eq!(lut.tf(b"a"), 3);
    assert_eq!(lut.tf(b"b"), 1);
}

#[test]
fn register_is_idempotent() {
    let mut lut = TfLut::new();
    lut.register(bytes("x"));
    lut.register(bytes("x"));
    assert_eq!(lut.len(), 1);
    assert!(lut.known(b"x"));
}

#[test]
fn unknown_ids_are_reported_not_silently_dropped() {
    let mut pipeline = CortexPipeline::new();
    pipeline.set_gate(&list(&["tid0"]));
    let result = pipeline.process(&list(&["tid0", "tid999"]));
    assert!(
        result.materialized_ids.contains(&bytes("tid999")),
        "LUT must not be gated: OOV ids are still materialized"
    );
    assert!(
        !result.restored_ids.contains(&bytes("tid999")),
        "output gate must filter OOV ids"
    );
    assert!(result.restored_ids.contains(&bytes("tid0")));
    assert!(result.leaks.contains(&bytes("tid999")));
}

#[test]
fn known_ids_roundtrip_materialized_equals_restored() {
    let mut pipeline = CortexPipeline::new();
    pipeline.set_gate(&list(&["tid0", "tid1", "tid2"]));
    let result = pipeline.process(&list(&["tid0", "tid1"]));
    assert!(result.ok(), "leaks: {:?}", result.leaks);
    assert_eq!(result.materialized_ids, result.restored_ids);
    let mut expected = vec![bytes("tid0"), bytes("tid1")];
    let mut actual = result.restored_ids.clone();
    expected.sort();
    actual.sort();
    assert_eq!(actual, expected);
    assert!(result.full_coverage());
}

#[test]
fn tf_accumulates_across_passes() {
    let mut pipeline = CortexPipeline::new();
    pipeline.set_gate(&list(&["tid0", "tid1"]));
    pipeline.process(&list(&["tid0"]));
    let result = pipeline.process(&list(&["tid0", "tid1"]));
    assert_eq!(pipeline.tf(b"tid0"), 2);
    assert_eq!(pipeline.tf(b"tid1"), 1);
    assert!(result.restored_ids.contains(&bytes("tid0")));
    assert!(result.restored_ids.contains(&bytes("tid1")));
}

// ── further scenarios ──────────────────────────────────────────────────────

#[test]
fn tid_names_are_decimal() {
    assert_eq!(tid(0), "tid0");
    assert_eq!(tid(42), "tid42");
    assert_eq!(tid_as_bytes(1234), b"tid1234".to_vec());
}

#[test]
fn decode_then_encode_gives_the_id_back() {
    let codec = SimCodec::from_text("zeta alpha mu");
    for id in codec.vocab().to_vec() {
        let word = codec.decode_id(&id).unwrap();
        assert_eq!(codec.encode_word(&word).unwrap(), id);
    }
    assert_eq!(codec.len(), 3);
    assert!(codec.decode_id(b"tid3").is_none());
    assert!(codec.encode_word(b"omega").is_none());
}

#[test]
fn empty_text_gives_empty_codec() {
    let codec = SimCodec::from_text("   ");
    assert_eq!(codec.len(), 0);
    assert!(codec.encode_text("a b").is_empty());
    assert_eq!(codec.decode_ids(&[]), "");
}

#[test]
fn gate_partitions_ids_into_known_and_leaks() {
    let gate = Gate::from_vocab(&list(&["tid0", "tid1"]));
    let ids = list(&["tid1", "tid7", "tid0", "tid7"]);
    assert_eq!(gate.filter_tokens(&ids), list(&["tid1", "tid0"]));
    assert_eq!(gate.out_of_vocab(&ids), list(&["tid7", "tid7"]));
    assert!(!gate.is_empty());
}

#[test]
fn gate_apply_keeps_only_vocabulary_cells() {
    let gate = Gate::from_vocab(&list(&["tid0", "tid1"]));
    let doc = HLLSet::from_tokens(&list(&["tid0", "tid1"]));
    let gated = gate.apply(&doc);
    assert_eq!(gated.popcount(), doc.popcount());
    let empty = gate.apply(&HLLSet::new());
    assert!(empty.is_empty());
}

#[test]
fn materialization_breaks_tf_ties_by_bytes() {
    let mut lut = TfLut::new();
    lut.observe(&list(&["b", "a", "c", "c"]));
    let doc = HLLSet::from_tokens(&list(&["a", "b", "c"]));
    assert_eq!(lut.materialize(&doc), list(&["c", "a", "b"]));
    let (resolved, total) = lut.coverage_counts(&doc);
    assert_eq!(resolved, total);
    assert_eq!(lut.tf(b"zzz"), 0);
}

#[test]
fn pipeline_without_gate_restores_everything() {
    let mut pipeline = CortexPipeline::new();
    assert!(!pipeline.has_gate());
    let result = pipeline.process(&list(&["tid5", "tid6"]));
    assert_eq!(result.materialized_ids, result.restored_ids);
    assert!(result.ok());
    assert_eq!(pipeline.processed(), 1);
    assert_eq!(pipeline.lut_len(), 2);
    assert_eq!(result.input_ids, list(&["tid5", "tid6"]));
}

#[test]
fn lut_knows_exactly_the_registered_and_observed_ids() {
    let mut lut = TfLut::new();
    lut.register(bytes("tid1"));
    lut.observe(&list(&["tid2", "tid2", "tid3"]));
    lut.register(bytes("tid2"));
    assert!(lut.known(b"tid1") && lut.known(b"tid2") && lut.known(b"tid3"));
    assert!(!lut.known(b"tid4"));
    assert_eq!(lut.tf(b"tid1"), 0);
    assert_eq!(lut.tf(b"tid2"), 2);
    assert_eq!(lut.tf(b"tid3"), 1);
    assert_eq!(lut.len(), 3);
    assert!(!lut.is_empty());
}

#[test]
fn codec_roundtrip_joins_words_with_single_spaces() {
    let c = SimCodec::from_text("the cat sat the dog ran");
    let ids = c.encode_text("  the\tcat   sat ");
    assert_eq!(c.decode_ids(&ids), "the cat sat");
}
