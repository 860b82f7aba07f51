//! `gate_TF`: the output TokenGate (decoder-vocabulary limit).
//!
//! Built once from the decoder's valid encoding-ID vocabulary. The token gate acts
//! only on the output: materialized IDs are filtered to the vocabulary and
//! out-of-vocabulary IDs are reported. Exact membership is the sorted
//! vocabulary list; the sketch HLLSet is an optional pre-filter.

use vstd::prelude::*;
use crate::bytes_order::{clone_bytes, search_sorted, sort_dedup, strictly_sorted, views};
use crate::hllset::{ingest, HLLSet};

verus! {

broadcast use {vstd::seq_lib::group_seq_properties, vstd::seq_lib::group_filter_ensures};

/// The token gate: the sketch HLLSet over the valid vocabulary plus the exact,
/// sorted membership list.
#[derive(Debug)]
pub struct Gate {
    hllset: HLLSet,
    vocab: Vec<Vec<u8>>,
}

impl Gate {
    /// The valid IDs, ascending and duplicate-free.
    pub closed spec fn vocab_spec(&self) -> Seq<Seq<u8>> {
        views(self.vocab@)
    }

    /// The sketch: `I(valid ids)`.
    pub closed spec fn sketch_spec(&self) -> Set<u32> {
        self.hllset@
    }

    /// Internal consistency.
    pub closed spec fn wf(&self) -> bool {
        &&& strictly_sorted(views(self.vocab@))
        &&& self.hllset.wf()
        &&& self.hllset@ == ingest(views(self.vocab@))
    }

    /// Facts every well-formed gate has.
    pub proof fn lemma_wf(&self)
        requires
            self.wf(),
        ensures
            strictly_sorted(self.vocab_spec()),
            self.sketch_spec() == ingest(self.vocab_spec()),
    {
    }

    /// The sketch HLLSet over the valid vocabulary (an optional bit-level
    /// pre-filter).
    pub fn hllset(&self) -> (r: &HLLSet)
        requires
            self.wf(),
        ensures
            r.wf(),
            r@ == self.sketch_spec(),
    {
        &self.hllset
    }

    /// Build the token gate from the decoder vocabulary (any order, duplicates
    /// allowed).
    pub fn from_vocab(vocab: &Vec<Vec<u8>>) -> (r: Gate)
        ensures
            r.wf(),
            r.vocab_spec().to_set() == views(vocab@).to_set(),
    {
        let v = sort_dedup(vocab);
        let hllset = HLLSet::from_tokens(v.as_slice());
        Gate { hllset, vocab: v }
    }

    /// A copy of the token gate.
    pub fn duplicate(&self) -> (r: Gate)
        requires
            self.wf(),
        ensures
            r.wf(),
            r.vocab_spec() == self.vocab_spec(),
    {
        Gate { hllset: self.hllset.duplicate(), vocab: crate::bytes_order::clone_all(self.vocab.as_slice()) }
    }

    /// Exact membership: is this encoding ID in the decoder vocabulary?
    pub fn exact_known(&self, id: &[u8]) -> (r: bool)
        requires
            self.wf(),
        ensures
            r == self.vocab_spec().contains(id@),
    {
        let (found, _) = search_sorted(&self.vocab, id);
        found
    }

    fn select(&self, ids: &[Vec<u8>], keep_known: bool) -> (r: Vec<Vec<u8>>)
        requires
            self.wf(),
        ensures
            views(r@) == views(ids@).filter(|id: Seq<u8>| self.vocab_spec().contains(id) == keep_known),
    {
        let ghost p = |id: Seq<u8>| self.vocab_spec().contains(id) == keep_known;
        let mut r: Vec<Vec<u8>> = Vec::new();
        let mut i: usize = 0;
        while i < ids.len()
            invariant
                self.wf(),
                p == (|id: Seq<u8>| self.vocab_spec().contains(id) == keep_known),
                i <= ids@.len(),
                views(r@) == views(ids@).take(i as int).filter(p),
            decreases ids@.len() - i,
        {
            proof {
                assert(views(ids@).take(i + 1) =~= views(ids@).take(i as int).push(ids@[i as int]@));
                views(ids@).take(i as int).lemma_filter_push(ids@[i as int]@, p);
            }
            if self.exact_known(ids[i].as_slice()) == keep_known {
                let ghost r0 = r@;
                r.push(clone_bytes(&ids[i]));
                proof {
                    assert(views(r@) =~= views(r0).push(ids@[i as int]@));
                }
            }
            i = i + 1;
        }
        proof {
            assert(views(ids@).take(i as int) =~= views(ids@));
        }
        r
    }

    /// The output TokenGate: the materialized IDs that are in the decoder
    /// vocabulary, in order.
    pub fn filter_tokens(&self, ids: &[Vec<u8>]) -> (r: Vec<Vec<u8>>)
        requires
            self.wf(),
        ensures
            views(r@) == views(ids@).filter(|id: Seq<u8>| self.vocab_spec().contains(id)),
    {
        let r = self.select(ids, true);
        proof {
            assert((|id: Seq<u8>| self.vocab_spec().contains(id) == true) =~= (|id: Seq<u8>| self.vocab_spec().contains(id)));
            assert(views(ids@).filter(|id: Seq<u8>| self.vocab_spec().contains(id) == true)
                =~= views(ids@).filter(|id: Seq<u8>| self.vocab_spec().contains(id)));
        }
        r
    }

    /// The out-of-vocabulary IDs among the materialized tokens, in order
    /// (reported, never silently dropped).
    pub fn out_of_vocab(&self, ids: &[Vec<u8>]) -> (r: Vec<Vec<u8>>)
        requires
            self.wf(),
        ensures
            views(r@) == views(ids@).filter(|id: Seq<u8>| !self.vocab_spec().contains(id)),
    {
        let r = self.select(ids, false);
        proof {
            assert((|id: Seq<u8>| self.vocab_spec().contains(id) == false) =~= (|id: Seq<u8>| !self.vocab_spec().contains(id)));
            assert(views(ids@).filter(|id: Seq<u8>| self.vocab_spec().contains(id) == false)
                =~= views(ids@).filter(|id: Seq<u8>| !self.vocab_spec().contains(id)));
        }
        r
    }

    /// The sketch gate `doc ∩ gate_TF`.
    pub fn apply(&self, doc: &HLLSet) -> (r: HLLSet)
        requires
            self.wf(),
            doc.wf(),
        ensures
            r.wf(),
            r@ == doc@.intersect(self.sketch_spec()),
    {
        doc.intersection(&self.hllset)
    }

    /// Number of valid encoding IDs.
    pub fn len(&self) -> (r: usize)
        requires
            self.wf(),
        ensures
            r == self.vocab_spec().len(),
    {
        self.vocab.len()
    }

    /// Whether the token gate vocabulary is empty.
    pub fn is_empty(&self) -> (r: bool)
        requires
            self.wf(),
        ensures
            r == (self.vocab_spec().len() == 0),
    {
        self.vocab.len() == 0
    }
}

/// The token gate depends only on the set of vocabulary IDs: building it from any
/// ordering (or with repetitions) of the same IDs gives the same gate.
pub proof fn lemma_gate_deterministic(a: &Gate, b: &Gate)
    requires
        a.wf(),
        b.wf(),
        a.vocab_spec().to_set() == b.vocab_spec().to_set(),
    ensures
        a.vocab_spec() == b.vocab_spec(),
        a.sketch_spec() == b.sketch_spec(),
{
    crate::bytes_order::lemma_sorted_unique(a.vocab_spec(), b.vocab_spec());
}

/// The output gate splits the materialized IDs: every ID is either restored
/// or reported as out of vocabulary, never both, and never dropped.
pub proof fn lemma_gate_partitions(g: &Gate, ids: Seq<Seq<u8>>)
    requires
        g.wf(),
    ensures
        ids.filter(|id: Seq<u8>| g.vocab_spec().contains(id)).len()
            + ids.filter(|id: Seq<u8>| !g.vocab_spec().contains(id)).len() == ids.len(),
        forall|id: Seq<u8>|
            #[trigger] ids.contains(id) ==> (ids.filter(|x: Seq<u8>| g.vocab_spec().contains(x)).contains(id)
                != ids.filter(|x: Seq<u8>| !g.vocab_spec().contains(x)).contains(id)),
    decreases ids.len(),
{
    let p = |x: Seq<u8>| g.vocab_spec().contains(x);
    let q = |x: Seq<u8>| !g.vocab_spec().contains(x);
    if ids.len() > 0 {
        let s0 = ids.drop_last();
        assert(ids =~= s0.push(ids.last()));
        lemma_gate_partitions(g, s0);
        s0.lemma_filter_push(ids.last(), p);
        s0.lemma_filter_push(ids.last(), q);
    }
    assert forall|id: Seq<u8>| #[trigger] ids.contains(id) implies (ids.filter(p).contains(id)
        != ids.filter(q).contains(id)) by {
        crate::bytes_order::lemma_filter_mem(ids, p, id);
        crate::bytes_order::lemma_filter_mem(ids, q, id);
    }
}

/// IDs all in the vocabulary pass the token gate unchanged: everything
/// materialized is restored and nothing leaks.
pub proof fn lemma_known_ids_restored(g: &Gate, ids: Seq<Seq<u8>>)
    requires
        g.wf(),
        forall|id: Seq<u8>| #[trigger] ids.contains(id) ==> g.vocab_spec().contains(id),
    ensures
        ids.filter(|id: Seq<u8>| g.vocab_spec().contains(id)) == ids,
        ids.filter(|id: Seq<u8>| !g.vocab_spec().contains(id)).len() == 0,
    decreases ids.len(),
{
    let p = |x: Seq<u8>| g.vocab_spec().contains(x);
    let q = |x: Seq<u8>| !g.vocab_spec().contains(x);
    if ids.len() > 0 {
        let s0 = ids.drop_last();
        assert(ids =~= s0.push(ids.last()));
        assert forall|id: Seq<u8>| #[trigger] s0.contains(id) implies g.vocab_spec().contains(id) by {
            let k = choose|k: int| 0 <= k < s0.len() && s0[k] == id;
            assert(ids[k] == id);
            assert(ids.contains(id));
        }
        lemma_known_ids_restored(g, s0);
        s0.lemma_filter_push(ids.last(), p);
        s0.lemma_filter_push(ids.last(), q);
        assert(ids.contains(ids.last()));
    } else {
        assert(ids.filter(p) =~= ids);
    }
}

} // verus!
