//! Incremental context vocabulary maintenance.
//!
//! The context sub-lattice evolves by commits with `D = C(t-1) \ S(t)`
//! (departed) and `N = S(t) \ C(t-1)` (new). The vocabulary is kept as a
//! mask of content addresses and updated by
//! `V(t) = (V(t-1) ∪ M(N(t))) \ M(D(t))`, with `M` the K-storage
//! materialization. The LUT is append-only; `V(t)` is the only place where
//! removal happens.

use vstd::prelude::*;
use crate::bytes_order::{clone_bytes, sort_dedup, strictly_sorted, views};
use crate::hashing::{content_address, murmur3_hash};
use crate::hllset::HLLSet;
use crate::kstorage::{catalog_cells, key_present, CatalogLutStorage, KStorage, KeySpec, TokenLutStorage};
use crate::hashing::token_bit;
use crate::token_mask::{ascending, TokenMask};

verus! {

broadcast use {vstd::seq_lib::group_seq_properties, vstd::seq_lib::group_filter_ensures};

/// Materialization `M(bits)` under a K-storage: the registered tokens whose
/// key is present, in registration order.
pub open spec fn materialized<S: KStorage>(s: S, bits: Set<u32>) -> Seq<Seq<u8>> {
    s.token_seq().filter(|t: Seq<u8>| key_present(s.key_spec(t), bits))
}

/// `t` is the first token of `ts` with its content address.
pub open spec fn first_with_address(ts: Seq<Seq<u8>>, t: Seq<u8>) -> bool {
    exists|i: int|
        0 <= i < ts.len() && ts[i] == t && forall|j: int| 0 <= j < i ==> content_address(#[trigger] ts[j]) != content_address(t)
}

/// Content addresses of a token sequence.
pub open spec fn hashes_of(ts: Seq<Seq<u8>>) -> Set<u64> {
    ts.map_values(|t: Seq<u8>| content_address(t)).to_set()
}

/// The sorted, duplicate-free form of a token sequence.
pub open spec fn sorted_form(ts: Seq<Seq<u8>>) -> Seq<Seq<u8>> {
    choose|s: Seq<Seq<u8>>| strictly_sorted(s) && s.to_set() == ts.to_set()
}

/// Tokens of `ts` whose address is new: not in `m` nor in an earlier token.
pub open spec fn fresh(ts: Seq<Seq<u8>>, m: Set<u64>) -> Seq<Seq<u8>>
    decreases ts.len(),
{
    if ts.len() == 0 {
        Seq::empty()
    } else {
        let prev = fresh(ts.drop_last(), m);
        if m.union(hashes_of(ts.drop_last())).contains(content_address(ts.last())) {
            prev
        } else {
            prev.push(ts.last())
        }
    }
}

/// Tokens of `ts` whose address is still present: in `m` and not removed by
/// an earlier token.
pub open spec fn gone(ts: Seq<Seq<u8>>, m: Set<u64>) -> Seq<Seq<u8>>
    decreases ts.len(),
{
    if ts.len() == 0 {
        Seq::empty()
    } else {
        let prev = gone(ts.drop_last(), m);
        if m.difference(hashes_of(ts.drop_last())).contains(content_address(ts.last())) {
            prev.push(ts.last())
        } else {
            prev
        }
    }
}

proof fn lemma_hashes_push(ts: Seq<Seq<u8>>, t: Seq<u8>)
    ensures
        hashes_of(ts.push(t)) == hashes_of(ts).insert(content_address(t)),
{
    let f = |x: Seq<u8>| content_address(x);
    assert(ts.push(t).map_values(f) =~= ts.map_values(f).push(content_address(t)));
    crate::bytes_order::lemma_push_to_set(ts.map_values(f), content_address(t));
}

/// The sorted form of a sorted, duplicate-free sequence is itself.
proof fn lemma_sorted_form(s: Seq<Seq<u8>>, ts: Seq<Seq<u8>>)
    requires
        strictly_sorted(s),
        s.to_set() == ts.to_set(),
    ensures
        sorted_form(ts) == s,
        hashes_of(s) == hashes_of(ts),
{
    let c = sorted_form(ts);
    assert(strictly_sorted(c) && c.to_set() == ts.to_set());
    crate::bytes_order::lemma_sorted_unique(c, s);
    lemma_hashes_same_set(s, ts);
}

/// Sequences with the same elements have the same addresses.
pub proof fn lemma_hashes_same_set(a: Seq<Seq<u8>>, b: Seq<Seq<u8>>)
    requires
        a.to_set() == b.to_set(),
    ensures
        hashes_of(a) == hashes_of(b),
{
    let f = |x: Seq<u8>| content_address(x);
    a.lemma_to_set_map_commutes(f);
    b.lemma_to_set_map_commutes(f);
}

/// The vocabulary change produced by one commit.
#[derive(Clone, Debug, Default, PartialEq, Eq)]
pub struct VocabDelta {
    /// Tokens added by `M(N(t))` (sorted, deduplicated).
    pub added: Vec<Vec<u8>>,
    /// Tokens removed by `M(D(t))` (sorted, deduplicated).
    pub removed: Vec<Vec<u8>>,
}

impl VocabDelta {
    /// Whether the commit changed nothing.
    pub fn is_empty(&self) -> (r: bool)
        ensures
            r == (self.added@.len() == 0 && self.removed@.len() == 0),
    {
        self.added.len() == 0 && self.removed.len() == 0
    }
}

/// Incremental token-vocabulary maintainer over a context sub-lattice.
#[derive(Debug)]
pub struct ContextVocabulary<S: KStorage> {
    storage: S,
    context: HLLSet,
    mask: TokenMask,
}

impl<S: KStorage> ContextVocabulary<S> {
    /// Internal consistency.
    pub closed spec fn wf(&self) -> bool {
        self.storage.wf() && self.context.wf()
    }

    /// The K-storage (LUT).
    pub closed spec fn storage_spec(&self) -> S {
        self.storage
    }

    /// The context sub-lattice `C(t)`.
    pub closed spec fn context_spec(&self) -> Set<u32> {
        self.context@
    }

    /// The vocabulary `V(t)` as content addresses.
    pub closed spec fn mask_spec(&self) -> Set<u64> {
        self.mask@
    }

    /// An empty vocabulary over the given K-storage.
    pub fn new(storage: S) -> (r: Self)
        requires
            storage.wf(),
        ensures
            r.wf(),
            r.storage_spec() == storage,
            r.context_spec() == Set::<u32>::empty(),
            r.mask_spec() == Set::<u64>::empty(),
    {
        ContextVocabulary { storage, context: HLLSet::new(), mask: TokenMask::new() }
    }

    /// Rebuild from an existing context sub-lattice: `V = M(context)`.
    pub fn from_context(storage: S, context: HLLSet) -> (r: Self)
        requires
            storage.wf(),
            context.wf(),
        ensures
            r.wf(),
            r.storage_spec() == storage,
            r.context_spec() == context@,
            r.mask_spec() == hashes_of(materialized(storage, context@)),
    {
        let cands = storage.candidates(&context);
        let mut mask = TokenMask::new();
        let mut i: usize = 0;
        proof {
            assert(mask@ =~= hashes_of(views(cands@).take(0)));
        }
        while i < cands.len()
            invariant
                i <= cands@.len(),
                mask@ == hashes_of(views(cands@).take(i as int)),
            decreases cands@.len() - i,
        {
            let h = murmur3_hash(cands[i].as_slice());
            mask.insert(h);
            proof {
                assert(views(cands@).take(i + 1) =~= views(cands@).take(i as int).push(cands@[i as int]@));
                lemma_hashes_push(views(cands@).take(i as int), cands@[i as int]@);
            }
            i = i + 1;
        }
        proof {
            assert(views(cands@).take(i as int) =~= views(cands@));
        }
        ContextVocabulary { storage, context, mask }
    }

    /// Register a token in the append-only LUT and, if its key is already
    /// present in the context, gate it into `V` immediately.
    pub fn register(&mut self, token: Vec<u8>)
        requires
            old(self).wf(),
        ensures
            final(self).wf(),
            final(self).context_spec() == old(self).context_spec(),
            final(self).storage_spec().token_seq() == if old(self).storage_spec().token_seq().contains(token@) {
                old(self).storage_spec().token_seq()
            } else {
                old(self).storage_spec().token_seq().push(token@)
            },
            forall|t: Seq<u8>| #[trigger] final(self).storage_spec().key_spec(t) == old(self).storage_spec().key_spec(t),
            final(self).mask_spec() == if key_present(old(self).storage_spec().key_spec(token@), old(self).context_spec()) {
                old(self).mask_spec().insert(content_address(token@))
            } else {
                old(self).mask_spec()
            },
    {
        let hash = murmur3_hash(token.as_slice());
        let key = self.storage.key_of(token.as_slice());
        self.storage.register(token);
        let present = key.present_in(&self.context);
        if present {
            self.mask.insert(hash);
        }
    }

    /// The K-storage (LUT).
    pub fn storage(&self) -> (r: &S)
        ensures
            *r == self.storage_spec(),
    {
        &self.storage
    }

    /// The current context sub-lattice `C(t)`.
    pub fn context(&self) -> (r: &HLLSet)
        requires
            self.wf(),
        ensures
            r.wf(),
            r@ == self.context_spec(),
    {
        &self.context
    }

    /// The hash gate `V(t)`.
    pub fn mask(&self) -> (r: &TokenMask)
        ensures
            r@ == self.mask_spec(),
    {
        &self.mask
    }

    /// The current token vocabulary `V(t)`, resolved through the LUT in
    /// ascending address order; addresses with no registered token are
    /// skipped.
    pub fn tokens(&self) -> (r: Vec<Vec<u8>>)
        requires
            self.wf(),
        ensures
            forall|k: int| 0 <= k < r@.len() ==> self.mask_spec().contains(content_address(#[trigger] r@[k]@))
                && self.storage_spec().token_seq().contains(r@[k]@),
            forall|k: int| 0 <= k < r@.len() ==> first_with_address(self.storage_spec().token_seq(), #[trigger] r@[k]@),
            forall|a: int, b: int| 0 <= a < b < r@.len() ==> content_address(#[trigger] r@[a]@) < content_address(#[trigger] r@[b]@),
            forall|h: u64| #[trigger] self.mask_spec().contains(h) && (exists|i: int| 0 <= i < self.storage_spec().token_seq().len() && content_address(self.storage_spec().token_seq()[i]) == h)
                ==> exists|k: int| 0 <= k < r@.len() && content_address(r@[k]@) == h,
    {
        let hs = self.mask.sorted_hashes();
        let mut out: Vec<Vec<u8>> = Vec::new();
        let mut i: usize = 0;
        while i < hs.len()
            invariant
                self.wf(),
                i <= hs@.len(),
                ascending(hs@),
                hs@.to_set() == self.mask@,
                forall|k: int| 0 <= k < out@.len() ==> self.mask@.contains(content_address(#[trigger] out@[k]@))
                    && self.storage.token_seq().contains(out@[k]@),
                forall|k: int| 0 <= k < out@.len() ==> exists|j: int| 0 <= j < i && hs@[j] == content_address(#[trigger] out@[k]@),
                forall|k: int| 0 <= k < out@.len() ==> first_with_address(self.storage.token_seq(), #[trigger] out@[k]@),
                forall|a: int, b: int| 0 <= a < b < out@.len() ==> content_address(#[trigger] out@[a]@) < content_address(#[trigger] out@[b]@),
                forall|j: int| 0 <= j < i && (exists|m: int| 0 <= m < self.storage.token_seq().len() && content_address(self.storage.token_seq()[m]) == #[trigger] hs@[j])
                    ==> exists|k: int| 0 <= k < out@.len() && content_address(out@[k]@) == hs@[j],
            decreases hs@.len() - i,
        {
            let h = hs[i];
            proof {
                assert(hs@.to_set().contains(h));
            }
            match self.storage.resolve(h) {
                Some(t) => {
                    let ghost o0 = out@;
                    out.push(t);
                    proof {
                        assert forall|a: int, b: int| 0 <= a < b < out@.len() implies content_address(#[trigger] out@[a]@) < content_address(#[trigger] out@[b]@) by {
                            if b == out@.len() - 1 {
                                assert(o0[a] == out@[a]);
                                let j = choose|j: int| 0 <= j < i && hs@[j] == content_address(o0[a]@);
                                assert(hs@[j] < hs@[i as int]);
                            }
                        }
                        assert forall|k: int| 0 <= k < out@.len() implies exists|j: int| 0 <= j < i + 1 && hs@[j] == content_address(#[trigger] out@[k]@) by {
                            if k < o0.len() {
                                assert(o0[k] == out@[k]);
                                let j = choose|j: int| 0 <= j < i && hs@[j] == content_address(o0[k]@);
                            } else {
                                assert(hs@[i as int] == content_address(out@[k]@));
                            }
                        }
                        assert forall|j: int| 0 <= j < i + 1 && (exists|m: int| 0 <= m < self.storage.token_seq().len() && content_address(self.storage.token_seq()[m]) == #[trigger] hs@[j])
                            implies exists|k: int| 0 <= k < out@.len() && content_address(out@[k]@) == hs@[j] by {
                            if j < i {
                                let k = choose|k: int| 0 <= k < o0.len() && content_address(o0[k]@) == hs@[j];
                                assert(out@[k] == o0[k]);
                            } else {
                                assert(content_address(out@[o0.len() as int]@) == hs@[j]);
                            }
                        }
                    }
                },
                None => {
                    proof {
                        assert forall|k: int| 0 <= k < out@.len() implies exists|j: int| 0 <= j < i + 1 && hs@[j] == content_address(#[trigger] out@[k]@) by {
                            let j = choose|j: int| 0 <= j < i && hs@[j] == content_address(out@[k]@);
                        }
                    }
                },
            }
            i = i + 1;
        }
        proof {
            assert forall|h: u64| #[trigger] self.mask_spec().contains(h) && (exists|m: int| 0 <= m < self.storage_spec().token_seq().len() && content_address(self.storage_spec().token_seq()[m]) == h)
                implies exists|k: int| 0 <= k < out@.len() && content_address(out@[k]@) == h by {
                assert(hs@.to_set().contains(h));
                let j = choose|j: int| 0 <= j < hs@.len() && hs@[j] == h;
                let m = choose|m: int| 0 <= m < self.storage.token_seq().len() && content_address(self.storage.token_seq()[m]) == h;
                assert(content_address(self.storage.token_seq()[m]) == hs@[j]);
            }
        }
        out
    }

    /// Whether `token` is in `V(t)` (by content address).
    pub fn contains(&self, token: &[u8]) -> (r: bool)
        ensures
            r == self.mask_spec().contains(content_address(token@)),
    {
        self.mask.contains_token(token)
    }

    /// Number of tokens in `V(t)`.
    pub fn len(&self) -> (r: usize)
        ensures
            r == self.mask_spec().len(),
    {
        self.mask.len()
    }

    /// Whether the vocabulary is empty.
    pub fn is_empty(&self) -> (r: bool)
        ensures
            r == (self.mask_spec().len() == 0),
    {
        self.mask.is_empty()
    }

    /// `(resolved context cells, context cells)`: the coverage gauge over
    /// `C(t)` is their ratio.
    pub fn coverage_counts(&self) -> (r: (u64, u64))
        requires
            self.wf(),
        ensures
            r.1 == self.context_spec().len(),
            r.0 == self.context_spec().filter(|b: u32| self.storage_spec().resolves(b)).len(),
            r.0 <= r.1,
    {
        self.storage.coverage_counts(&self.context)
    }

    /// Whether every context cell resolves through the LUT (coverage 1.0).
    pub fn coverage_is_full(&self) -> (r: bool)
        requires
            self.wf(),
        ensures
            r == (forall|b: u32| #[trigger] self.context_spec().contains(b) ==> self.storage_spec().resolves(b)),
    {
        let (resolved, total) = self.coverage_counts();
        proof {
            self.context.lemma_wf();
            let f = self.context_spec().filter(|b: u32| self.storage_spec().resolves(b));
            assert(f.subset_of(self.context_spec()));
            if resolved == total {
                vstd::set_lib::lemma_subset_equality(f, self.context_spec());
                assert forall|b: u32| #[trigger] self.context_spec().contains(b) implies self.storage_spec().resolves(b) by {
                    assert(f.contains(b));
                }
            } else {
                if forall|b: u32| #[trigger] self.context_spec().contains(b) ==> self.storage_spec().resolves(b) {
                    assert(f =~= self.context_spec());
                }
            }
        }
        resolved == total
    }

    /// Advance with commit semantics: `C(t) = S(t)`, with `N = S \ C(t-1)`
    /// and `D = C(t-1) \ S`. Returns the applied delta.
    pub fn advance(&mut self, source: &HLLSet) -> (delta: VocabDelta)
        requires
            old(self).wf(),
            source.wf(),
        ensures
            final(self).wf(),
            final(self).context_spec() == source@,
            final(self).storage_spec() == old(self).storage_spec(),
            delta_applied(
                old(self).storage_spec(),
                old(self).mask_spec(),
                source@.difference(old(self).context_spec()),
                old(self).context_spec().difference(source@),
                final(self).mask_spec(),
                delta,
            ),
    {
        let n = source.difference(&self.context);
        let d = self.context.difference(source);
        self.context = source.duplicate();
        self.apply_delta(&n, &d)
    }

    /// Accumulate with union semantics: `C(t) = C(t-1) ∪ S(t)`, with
    /// `D = ∅` and `N = S \ C(t-1)`.
    pub fn accumulate(&mut self, source: &HLLSet) -> (delta: VocabDelta)
        requires
            old(self).wf(),
            source.wf(),
        ensures
            final(self).wf(),
            final(self).context_spec() == old(self).context_spec().union(source@),
            final(self).storage_spec() == old(self).storage_spec(),
            delta_applied(
                old(self).storage_spec(),
                old(self).mask_spec(),
                source@.difference(old(self).context_spec()),
                Set::<u32>::empty(),
                final(self).mask_spec(),
                delta,
            ),
            materialized(old(self).storage_spec(), Set::<u32>::empty()).len() == 0 ==> old(self).mask_spec().subset_of(
                final(self).mask_spec(),
            ) && delta.removed@.len() == 0,
    {
        let n = source.difference(&self.context);
        let d = HLLSet::new();
        self.context.merge(source);
        let delta = self.apply_delta(&n, &d);
        proof {
            let ms = materialized(old(self).storage_spec(), Set::<u32>::empty());
            if ms.len() == 0 {
                assert(ms =~= Seq::<Seq<u8>>::empty());
                assert(hashes_of(ms) =~= Set::<u64>::empty()) by {
                    assert(ms.map_values(|t: Seq<u8>| content_address(t)) =~= Seq::<u64>::empty());
                }
                let r = sorted_form(ms);
                assert(strictly_sorted(Seq::<Seq<u8>>::empty()));
                assert(Seq::<Seq<u8>>::empty().to_set() =~= ms.to_set());
                assert(r.to_set() == ms.to_set());
                if r.len() > 0 {
                    assert(r.to_set().contains(r[0]));
                    assert(ms.to_set().contains(r[0]));
                }
                assert(r =~= Seq::<Seq<u8>>::empty());
                assert(views(delta.removed@) =~= Seq::<Seq<u8>>::empty());
            }
        }
        delta
    }

    /// Apply a pre-computed delta: `V = (V \ M(d)) ∪ M(n)`.
    pub fn apply_delta(&mut self, n: &HLLSet, d: &HLLSet) -> (delta: VocabDelta)
        requires
            old(self).wf(),
            n.wf(),
            d.wf(),
        ensures
            final(self).wf(),
            final(self).context_spec() == old(self).context_spec(),
            final(self).storage_spec() == old(self).storage_spec(),
            delta_applied(old(self).storage_spec(), old(self).mask_spec(), n@, d@, final(self).mask_spec(), delta),
    {
        let ghost m0 = self.mask@;
        let cand_n = self.storage.candidates(n);
        let added_all = sort_dedup(&cand_n);
        let cand_d = self.storage.candidates(d);
        let removed_all = sort_dedup(&cand_d);
        let ghost a = views(added_all@);
        let ghost rm = views(removed_all@);
        proof {
            lemma_sorted_form(a, views(cand_n@));
            lemma_sorted_form(rm, views(cand_d@));
        }
        let mut delta = VocabDelta { added: Vec::new(), removed: Vec::new() };
        // departed tokens leave first
        let mut j: usize = 0;
        proof {
            assert(views(delta.removed@) =~= gone(rm.take(0), m0));
            assert(self.mask@ =~= m0.difference(hashes_of(rm.take(0))));
        }
        while j < removed_all.len()
            invariant
                rm == views(removed_all@),
                self.wf(),
                self.storage == old(self).storage,
                self.context == old(self).context,
                j <= removed_all@.len(),
                self.mask@ == m0.difference(hashes_of(rm.take(j as int))),
                views(delta.removed@) == gone(rm.take(j as int), m0),
                delta.added@.len() == 0,
            decreases removed_all@.len() - j,
        {
            let h = murmur3_hash(removed_all[j].as_slice());
            let was = self.mask.remove(h);
            proof {
                assert(rm.take(j + 1) =~= rm.take(j as int).push(rm[j as int]));
                assert(rm.take(j + 1).drop_last() =~= rm.take(j as int));
                lemma_hashes_push(rm.take(j as int), rm[j as int]);
                assert(self.mask@ =~= m0.difference(hashes_of(rm.take(j + 1))));
            }
            if was {
                let ghost d0 = delta.removed@;
                delta.removed.push(clone_bytes(&removed_all[j]));
                proof {
                    assert(views(delta.removed@) =~= views(d0).push(rm[j as int]));
                }
            }
            j = j + 1;
        }
        let ghost m1 = self.mask@;
        proof {
            assert(rm.take(j as int) =~= rm);
            assert(views(delta.added@) =~= fresh(a.take(0), m1));
            assert(self.mask@ =~= m1.union(hashes_of(a.take(0))));
        }
        // then the new tokens enter
        let mut i: usize = 0;
        while i < added_all.len()
            invariant
                a == views(added_all@),
                self.wf(),
                self.storage == old(self).storage,
                self.context == old(self).context,
                i <= added_all@.len(),
                self.mask@ == m1.union(hashes_of(a.take(i as int))),
                views(delta.added@) == fresh(a.take(i as int), m1),
                views(delta.removed@) == gone(rm, m0),
            decreases added_all@.len() - i,
        {
            let h = murmur3_hash(added_all[i].as_slice());
            let inserted = self.mask.insert(h);
            proof {
                assert(a.take(i + 1) =~= a.take(i as int).push(a[i as int]));
                assert(a.take(i + 1).drop_last() =~= a.take(i as int));
                lemma_hashes_push(a.take(i as int), a[i as int]);
            }
            if inserted {
                let ghost d0 = delta.added@;
                delta.added.push(clone_bytes(&added_all[i]));
                proof {
                    assert(views(delta.added@) =~= views(d0).push(a[i as int]));
                }
            }
            i = i + 1;
        }
        proof {
            assert(a.take(i as int) =~= a);
        }
        delta
    }
}

/// What one delta application does, over the storage `s`, the previous
/// vocabulary `m`, the new cells `n`, the departed cells `d`, the resulting
/// vocabulary `m2` and the returned delta:
/// `m2 = (m \ M(d)) ∪ M(n)`: the departed tokens leave first, then the new
/// ones enter, so a token of both `M(d)` and `M(n)` stays. `removed` are the
/// tokens of `M(d)`, ascending, whose address was present; `added` are the
/// tokens of `M(n)`, ascending, whose address was absent after the removal.
pub open spec fn delta_applied<S: KStorage>(s: S, m: Set<u64>, n: Set<u32>, d: Set<u32>, m2: Set<u64>, delta: VocabDelta) -> bool {
    let a = sorted_form(materialized(s, n));
    let r = sorted_form(materialized(s, d));
    let m1 = m.difference(hashes_of(materialized(s, d)));
    &&& m2 == m1.union(hashes_of(materialized(s, n)))
    &&& views(delta.removed@) == gone(r, m)
    &&& views(delta.added@) == fresh(a, m1)
}

/// Distinct registered tokens have distinct content addresses.
pub open spec fn addresses_injective(ts: Seq<Seq<u8>>) -> bool {
    forall|i: int, j: int|
        0 <= i < ts.len() && 0 <= j < ts.len() && content_address(#[trigger] ts[i]) == content_address(
            #[trigger] ts[j],
        ) ==> ts[i] == ts[j]
}

/// An address is in `hashes_of(M(X))` (tier 1) exactly when a registered
/// token with that address lands in `X`.
proof fn lemma_tier1_hashes(s: TokenLutStorage, bits: Set<u32>, x: u64)
    ensures
        hashes_of(materialized(s, bits)).contains(x) <==> exists|t: Seq<u8>|
            #[trigger] s.token_seq().contains(t) && bits.contains(token_bit(t)) && content_address(t) == x,
{
    let p = |t: Seq<u8>| key_present(s.key_spec(t), bits);
    let f = |t: Seq<u8>| content_address(t);
    let ms = materialized(s, bits);
    if hashes_of(ms).contains(x) {
        let k = choose|k: int| 0 <= k < ms.map_values(f).len() && ms.map_values(f)[k] == x;
        let t = ms[k];
        assert(ms.contains(t));
        crate::bytes_order::lemma_filter_mem(s.token_seq(), p, t);
        assert(s.token_seq().contains(t) && bits.contains(token_bit(t)) && content_address(t) == x);
    }
    if exists|t: Seq<u8>| #[trigger] s.token_seq().contains(t) && bits.contains(token_bit(t)) && content_address(t) == x {
        let t = choose|t: Seq<u8>| #[trigger] s.token_seq().contains(t) && bits.contains(token_bit(t)) && content_address(t) == x;
        crate::bytes_order::lemma_filter_mem(s.token_seq(), p, t);
        assert(ms.contains(t));
        let k = choose|k: int| 0 <= k < ms.len() && ms[k] == t;
        assert(ms.map_values(f)[k] == x);
        assert(ms.map_values(f).contains(x));
    }
}

/// Tier-1 commit semantics are exact: if `V = M(C)` (as addresses) before
/// `advance(S)`, then after it `V = M(S)`, provided distinct registered
/// tokens have distinct addresses.
pub proof fn lemma_tier1_advance_exact(s: TokenLutStorage, c: Set<u32>, src: Set<u32>, m: Set<u64>)
    requires
        s.wf(),
        m == hashes_of(materialized(s, c)),
        addresses_injective(s.token_seq()),
    ensures
        m.union(hashes_of(materialized(s, src.difference(c)))).difference(
            hashes_of(materialized(s, c.difference(src))),
        ) == hashes_of(materialized(s, src)),
{
    let n = src.difference(c);
    let d = c.difference(src);
    let ts = s.token_seq();
    assert forall|x: u64| m.union(hashes_of(materialized(s, n))).difference(hashes_of(materialized(s, d))).contains(x)
        <==> hashes_of(materialized(s, src)).contains(x) by {
        lemma_tier1_hashes(s, c, x);
        lemma_tier1_hashes(s, n, x);
        lemma_tier1_hashes(s, d, x);
        lemma_tier1_hashes(s, src, x);
        if hashes_of(materialized(s, src)).contains(x) {
            let t = choose|t: Seq<u8>| #[trigger] ts.contains(t) && src.contains(token_bit(t)) && content_address(t) == x;
            if hashes_of(materialized(s, d)).contains(x) {
                let u = choose|u: Seq<u8>| #[trigger] ts.contains(u) && d.contains(token_bit(u)) && content_address(u) == x;
                let i = choose|i: int| 0 <= i < ts.len() && ts[i] == t;
                let j = choose|j: int| 0 <= j < ts.len() && ts[j] == u;
                assert(content_address(ts[i]) == content_address(ts[j]));
            }
            if !c.contains(token_bit(t)) {
                assert(n.contains(token_bit(t)));
            }
        }
        if m.union(hashes_of(materialized(s, n))).difference(hashes_of(materialized(s, d))).contains(x) {
            if m.contains(x) {
                let t = choose|t: Seq<u8>| #[trigger] ts.contains(t) && c.contains(token_bit(t)) && content_address(t) == x;
                if !src.contains(token_bit(t)) {
                    assert(d.contains(token_bit(t)));
                }
            } else {
                let t = choose|t: Seq<u8>| #[trigger] ts.contains(t) && n.contains(token_bit(t)) && content_address(t) == x;
            }
        }
    }
    assert(m.union(hashes_of(materialized(s, n))).difference(hashes_of(materialized(s, d))) =~= hashes_of(materialized(s, src)));
}

/// Tier-1 union semantics are exact: if `V = M(C)` (as addresses) before
/// `accumulate(S)`, then after it `V = M(C ∪ S)`.
pub proof fn lemma_tier1_accumulate_exact(s: TokenLutStorage, c: Set<u32>, src: Set<u32>, m: Set<u64>)
    requires
        s.wf(),
        m == hashes_of(materialized(s, c)),
    ensures
        m.union(hashes_of(materialized(s, src.difference(c)))).difference(
            hashes_of(materialized(s, Set::<u32>::empty())),
        ) == hashes_of(materialized(s, c.union(src))),
{
    let n = src.difference(c);
    let e = Set::<u32>::empty();
    let ts = s.token_seq();
    assert forall|x: u64| m.union(hashes_of(materialized(s, n))).difference(hashes_of(materialized(s, e))).contains(x)
        <==> hashes_of(materialized(s, c.union(src))).contains(x) by {
        lemma_tier1_hashes(s, c, x);
        lemma_tier1_hashes(s, n, x);
        lemma_tier1_hashes(s, e, x);
        lemma_tier1_hashes(s, c.union(src), x);
        if hashes_of(materialized(s, c.union(src))).contains(x) {
            let t = choose|t: Seq<u8>| #[trigger] ts.contains(t) && c.union(src).contains(token_bit(t)) && content_address(t) == x;
            if !c.contains(token_bit(t)) {
                assert(n.contains(token_bit(t)));
            }
        }
        if m.union(hashes_of(materialized(s, n))).contains(x) {
            if m.contains(x) {
                let t = choose|t: Seq<u8>| #[trigger] ts.contains(t) && c.contains(token_bit(t)) && content_address(t) == x;
                assert(c.union(src).contains(token_bit(t)));
            } else {
                let t = choose|t: Seq<u8>| #[trigger] ts.contains(t) && n.contains(token_bit(t)) && content_address(t) == x;
                assert(c.union(src).contains(token_bit(t)));
            }
        }
    }
    assert(m.union(hashes_of(materialized(s, n))).difference(hashes_of(materialized(s, e))) =~= hashes_of(materialized(s, c.union(src))));
}

/// Tier-1 registration keeps `V = M(C)`: registering a token whose cell is
/// already in the context gates it in at once.
pub proof fn lemma_tier1_register_exact(s: TokenLutStorage, s2: TokenLutStorage, t: Seq<u8>, c: Set<u32>, m: Set<u64>)
    requires
        s.wf(),
        s2.wf(),
        m == hashes_of(materialized(s, c)),
        s2.token_seq() == if s.token_seq().contains(t) { s.token_seq() } else { s.token_seq().push(t) },
    ensures
        (if key_present(s.key_spec(t), c) { m.insert(content_address(t)) } else { m }) == hashes_of(materialized(s2, c)),
{
    let m2 = if key_present(s.key_spec(t), c) { m.insert(content_address(t)) } else { m };
    assert forall|x: u64| m2.contains(x) <==> hashes_of(materialized(s2, c)).contains(x) by {
        lemma_tier1_hashes(s, c, x);
        lemma_tier1_hashes(s2, c, x);
        if hashes_of(materialized(s2, c)).contains(x) {
            let u = choose|u: Seq<u8>| #[trigger] s2.token_seq().contains(u) && c.contains(token_bit(u)) && content_address(u) == x;
            if u != t {
                if !s.token_seq().contains(t) {
                    let k = choose|k: int| 0 <= k < s2.token_seq().len() && s2.token_seq()[k] == u;
                    assert(k < s.token_seq().len());
                    assert(s.token_seq()[k] == u);
                }
                assert(s.token_seq().contains(u));
            }
        }
        if m.contains(x) {
            let u = choose|u: Seq<u8>| #[trigger] s.token_seq().contains(u) && c.contains(token_bit(u)) && content_address(u) == x;
            if !s.token_seq().contains(t) {
                let k = choose|k: int| 0 <= k < s.token_seq().len() && s.token_seq()[k] == u;
                assert(s2.token_seq()[k] == u);
            }
            assert(s2.token_seq().contains(u));
        }
        if key_present(s.key_spec(t), c) && x == content_address(t) {
            if !s.token_seq().contains(t) {
                assert(s2.token_seq()[s.token_seq().len() as int] == t);
            }
            assert(s2.token_seq().contains(t));
        }
    }
    assert(m2 =~= hashes_of(materialized(s2, c)));
}

/// No registered token of a single-seed LUT is materialized from no cells,
/// so accumulating over it only grows the vocabulary.
pub proof fn lemma_tier1_nothing_from_empty(s: TokenLutStorage)
    ensures
        materialized(s, Set::<u32>::empty()).len() == 0,
{
    let ms = materialized(s, Set::<u32>::empty());
    if ms.len() > 0 {
        assert(key_present(s.key_spec(ms[0]), Set::<u32>::empty()));
    }
}

/// No registered value of the multi-seed catalog is materialized from no
/// cells (its quorum is positive), so accumulating over it only grows the
/// vocabulary.
pub proof fn lemma_catalog_nothing_from_empty(s: CatalogLutStorage)
    ensures
        materialized(s, Set::<u32>::empty()).len() == 0,
{
    let ms = materialized(s, Set::<u32>::empty());
    if ms.len() > 0 {
        let cs = catalog_cells(ms[0]);
        assert(key_present(s.key_spec(ms[0]), Set::<u32>::empty()));
        let pred = |c: u32| Set::<u32>::empty().contains(c);
        let f = cs.filter(pred);
        if f.len() > 0 {
            assert(pred(f[0]));
        }
    }
}

} // verus!
