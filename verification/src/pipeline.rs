//! `CortexPipeline`: the black-box interface
//! `tokens -> hash -> tokenLUT -> HLLSet -> materialize -> gate_TF -> restored`.
//!
//! The LUT and TF-LUT are never gated: they register and resolve every
//! ingested ID. Only the output passes through the token gate; out-of-vocabulary
//! IDs are reported as leaks, never hidden.

use vstd::prelude::*;
use crate::byte_map::{count_of, occurrences};
use crate::bytes_order::{clone_all, views};
use crate::gate::Gate;
use crate::hashing::token_bit;
use crate::hllset::{ingest, lemma_ingest_contains, HLLSet};
use crate::lut::{tf_ranked, TfLut};

verus! {

broadcast use {vstd::seq_lib::group_seq_properties, vstd::seq_lib::group_filter_ensures};

/// Result of one pipeline pass.
#[derive(Debug)]
pub struct PipelineResult {
    /// The ingested encoding IDs (in input order).
    pub input_ids: Vec<Vec<u8>>,
    /// Bits set by the document HLLSet.
    pub doc_bits: u64,
    /// IDs materialized from the full (ungated) HLLSet, TF-ranked.
    pub materialized_ids: Vec<Vec<u8>>,
    /// Materialized IDs that pass the output gate (decoder vocabulary).
    pub restored_ids: Vec<Vec<u8>>,
    /// Materialized IDs that are not in the decoder vocabulary.
    pub leaks: Vec<Vec<u8>>,
    /// Document bits that resolve through the LUT; the coverage gauge is
    /// `resolved_bits / doc_bits`.
    pub resolved_bits: u64,
}

impl PipelineResult {
    /// Whether the pass is leak-free.
    pub fn ok(&self) -> (r: bool)
        ensures
            r == (self.leaks@.len() == 0),
    {
        self.leaks.len() == 0
    }

    /// Whether every document bit resolved (coverage 1.0).
    pub fn full_coverage(&self) -> (r: bool)
        ensures
            r == (self.resolved_bits == self.doc_bits),
    {
        self.resolved_bits == self.doc_bits
    }
}

/// The black-box cortex pipeline.
#[derive(Debug)]
pub struct CortexPipeline {
    gate: Option<Gate>,
    lut: TfLut,
    processed: u64,
}

impl CortexPipeline {
    /// Internal consistency.
    pub closed spec fn wf(&self) -> bool {
        &&& self.lut.wf()
        &&& match self.gate {
            Some(g) => g.wf(),
            None => true,
        }
    }

    /// The token gate vocabulary, if a gate is configured.
    pub closed spec fn gate_spec(&self) -> Option<Seq<Seq<u8>>> {
        match self.gate {
            Some(g) => Some(g.vocab_spec()),
            None => None,
        }
    }

    /// Term frequencies of the TF-LUT.
    pub closed spec fn tf_spec(&self) -> Map<Seq<u8>, nat> {
        self.lut.tf_spec()
    }

    /// Number of processed passes.
    pub closed spec fn processed_spec(&self) -> nat {
        self.processed as nat
    }

    /// Create an empty pipeline (no gate until `set_gate`).
    pub fn new() -> (r: CortexPipeline)
        ensures
            r.wf(),
            r.gate_spec() is None,
            r.tf_spec() == Map::<Seq<u8>, nat>::empty(),
            r.processed_spec() == 0,
    {
        CortexPipeline { gate: None, lut: TfLut::new(), processed: 0 }
    }

    /// Build the `gate_TF` from the decoder vocabulary.
    pub fn set_gate(&mut self, vocab: &Vec<Vec<u8>>)
        requires
            old(self).wf(),
        ensures
            final(self).wf(),
            final(self).gate_spec() matches Some(v) && v.to_set() == views(vocab@).to_set()
                && crate::bytes_order::strictly_sorted(v),
            final(self).tf_spec() == old(self).tf_spec(),
            final(self).processed_spec() == old(self).processed_spec(),
    {
        let g = Gate::from_vocab(vocab);
        proof {
            g.lemma_wf();
        }
        self.gate = Some(g);
    }

    /// Whether a gate is configured.
    pub fn has_gate(&self) -> (r: bool)
        ensures
            r == self.gate_spec() is Some,
    {
        self.gate.is_some()
    }

    /// Number of processed passes.
    pub fn processed(&self) -> (r: u64)
        ensures
            r == self.processed_spec(),
    {
        self.processed
    }

    /// Number of interned encoding IDs in the TF-LUT.
    pub fn lut_len(&self) -> (r: usize)
        requires
            self.wf(),
        ensures
            r == self.tf_spec().dom().len(),
    {
        self.lut.len()
    }

    /// Term frequency of an encoding ID (0 if never observed).
    pub fn tf(&self, id: &[u8]) -> (r: u64)
        requires
            self.wf(),
        ensures
            r == count_of(self.tf_spec(), id@),
    {
        self.lut.tf(id)
    }

    /// Process one document of encoding IDs.
    ///
    /// TF accumulates for every ingested ID, materialization resolves the
    /// full document HLLSet, and only the output is gated.
    pub fn process(&mut self, ids: &[Vec<u8>]) -> (r: PipelineResult)
        requires
            old(self).wf(),
            old(self).processed_spec() < u64::MAX,
            forall|t: Seq<u8>|
                #[trigger] old(self).tf_spec().contains_key(t) ==> old(self).tf_spec()[t]
                    + ids@.len() <= u64::MAX,
        ensures
            final(self).wf(),
            final(self).processed_spec() == old(self).processed_spec() + 1,
            final(self).gate_spec() == old(self).gate_spec(),
            final(self).tf_spec().dom() == old(self).tf_spec().dom().union(views(ids@).to_set()),
            forall|t: Seq<u8>|
                #[trigger] count_of(final(self).tf_spec(), t) == count_of(old(self).tf_spec(), t)
                    + occurrences(views(ids@), t),
            views(r.input_ids@) == views(ids@),
            r.doc_bits == ingest(views(ids@)).len(),
            views(r.materialized_ids@).to_set() == final(self).tf_spec().dom().filter(
                |t: Seq<u8>| ingest(views(ids@)).contains(token_bit(t)),
            ),
            views(r.materialized_ids@).no_duplicates(),
            tf_ranked(final(self).tf_spec(), views(r.materialized_ids@)),
            match old(self).gate_spec() {
                Some(v) => views(r.restored_ids@) == views(r.materialized_ids@).filter(
                    |id: Seq<u8>| v.contains(id),
                ) && views(r.leaks@) == views(r.materialized_ids@).filter(
                    |id: Seq<u8>| !v.contains(id),
                ),
                None => views(r.restored_ids@) == views(r.materialized_ids@) && r.leaks@.len()
                    == 0,
            },
            r.resolved_bits == r.doc_bits,
            forall|id: Seq<u8>|
                #[trigger] views(ids@).contains(id) ==> views(r.materialized_ids@).contains(id),
    {
        let doc = HLLSet::from_tokens(ids);
        proof {
            assert forall|t: Seq<u8>| #[trigger] self.lut.tf_spec().contains_key(t) implies self.lut.tf_spec()[t] + ids@.len() <= u64::MAX by {
                assert(old(self).tf_spec().contains_key(t));
            }
        }
        self.lut.observe(ids);
        let materialized_ids = self.lut.materialize(&doc);
        let restored_ids = match &self.gate {
            Some(gate) => gate.filter_tokens(materialized_ids.as_slice()),
            None => clone_all(materialized_ids.as_slice()),
        };
        let leaks = match &self.gate {
            Some(gate) => gate.out_of_vocab(materialized_ids.as_slice()),
            None => Vec::new(),
        };
        let (resolved_bits, doc_bits) = self.lut.coverage_counts(&doc);
        proof {
            doc.lemma_wf();
            let pred = |b: u32| exists|t: Seq<u8>| #[trigger] self.lut.tf_spec().contains_key(t) && token_bit(t) == b;
            assert forall|b: u32| doc@.contains(b) implies pred(b) by {
                lemma_ingest_contains(views(ids@), b);
                let i = choose|i: int| 0 <= i < views(ids@).len() && #[trigger] token_bit(views(ids@)[i]) == b;
                let t = views(ids@)[i];
                assert(views(ids@).to_set().contains(t));
                assert(self.lut.tf_spec().contains_key(t));
            }
            assert(doc@.filter(pred) =~= doc@);
            assert forall|id: Seq<u8>| #[trigger] views(ids@).contains(id) implies views(materialized_ids@).contains(id) by {
                let i = choose|i: int| 0 <= i < views(ids@).len() && views(ids@)[i] == id;
                lemma_ingest_contains(views(ids@), token_bit(id));
                assert(views(ids@).to_set().contains(id));
                assert(self.lut.tf_spec().contains_key(id));
                assert(views(materialized_ids@).to_set().contains(id));
            }
        }
        self.processed = self.processed + 1;
        PipelineResult {
            input_ids: clone_all(ids),
            doc_bits,
            materialized_ids,
            restored_ids,
            leaks,
            resolved_bits,
        }
    }
}

} // verus!
