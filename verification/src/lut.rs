//! TF-LUT: the monotonic term-frequency reverse index over encoding IDs.
//!
//! `register` interns an ID in the append-only LUT, `observe` accumulates
//! per-ID term frequency, and `materialize` resolves an HLLSet through the
//! LUT, ranked by term frequency (ties by byte order).

use vstd::prelude::*;
use crate::byte_map::{count_of, occurrences, ByteMap};
use crate::bytes_order::{
    bytes_of, clone_bytes, lemma_lex_irrefl, lemma_lex_trans, lemma_lex_trichotomy, lex_lt, views,
};
use crate::hashing::token_bit;
use crate::hllset::HLLSet;
use crate::kstorage::{key_present, KStorage, TokenLutStorage};

verus! {

broadcast use {vstd::seq_lib::group_seq_properties, vstd::seq_lib::group_filter_ensures};

/// The ranking of materialized IDs: higher term frequency first, ties in
/// ascending byte order.
pub open spec fn ranked_before(fa: nat, a: Seq<u8>, fb: nat, b: Seq<u8>) -> bool {
    fa > fb || (fa == fb && lex_lt(a, b))
}

/// A sequence of IDs strictly ordered by `ranked_before` under the counters `m`.
pub open spec fn tf_ranked(m: Map<Seq<u8>, nat>, s: Seq<Seq<u8>>) -> bool {
    forall|i: int, j: int|
        0 <= i < j < s.len() ==> ranked_before(
            count_of(m, #[trigger] s[i]),
            s[i],
            count_of(m, #[trigger] s[j]),
            s[j],
        )
}

proof fn lemma_ranked_trans(fa: nat, a: Seq<u8>, fb: nat, b: Seq<u8>, fc: nat, c: Seq<u8>)
    requires
        ranked_before(fa, a, fb, b),
        ranked_before(fb, b, fc, c),
    ensures
        ranked_before(fa, a, fc, c),
{
    if fa == fb && fb == fc {
        lemma_lex_trans(a, b, c);
    }
}

proof fn lemma_ranked_total(fa: nat, a: Seq<u8>, fb: nat, b: Seq<u8>)
    requires
        a != b,
    ensures
        ranked_before(fa, a, fb, b) || ranked_before(fb, b, fa, a),
        !(ranked_before(fa, a, fb, b) && ranked_before(fb, b, fa, a)),
{
    lemma_lex_trichotomy(a, b);
}

/// `occurrences` never exceeds the length.
pub proof fn lemma_occurrences_le(s: Seq<Seq<u8>>, t: Seq<u8>)
    ensures
        occurrences(s, t) <= s.len(),
    decreases s.len(),
{
    if s.len() > 0 {
        lemma_occurrences_le(s.drop_last(), t);
    }
}

/// Monotonic TF reverse index over encoding IDs.
#[derive(Clone, Debug)]
pub struct TfLut {
    storage: TokenLutStorage,
    tf: ByteMap,
}

impl TfLut {
    /// Internal consistency: the TF map holds exactly the registered IDs.
    pub closed spec fn wf(&self) -> bool {
        &&& self.storage.wf()
        &&& self.tf.wf()
        &&& self.tf@.dom() == self.storage.token_seq().to_set()
    }

    /// Term frequency per registered ID.
    pub closed spec fn tf_spec(&self) -> Map<Seq<u8>, nat> {
        self.tf@
    }

    /// Facts every well-formed LUT has.
    pub proof fn lemma_wf(&self)
        requires
            self.wf(),
        ensures
            self.tf_spec().dom().finite(),
    {
        self.tf.lemma_keys();
    }

    /// Create an empty TF-LUT.
    pub fn new() -> (r: TfLut)
        ensures
            r.wf(),
            r.tf_spec() == Map::<Seq<u8>, nat>::empty(),
            r.tf_spec() == lut_replay(Seq::empty()),
    {
        let r = TfLut { storage: TokenLutStorage::new(), tf: ByteMap::new() };
        proof {
            assert(r.storage.token_seq().to_set() =~= Set::<Seq<u8>>::empty());
        }
        r
    }

    /// Intern an encoding ID (append-only, idempotent): its TF stays as it
    /// was, or starts at 0.
    pub fn register(&mut self, id: Vec<u8>)
        requires
            old(self).wf(),
        ensures
            final(self).wf(),
            final(self).tf_spec() == if old(self).tf_spec().contains_key(id@) {
                old(self).tf_spec()
            } else {
                old(self).tf_spec().insert(id@, 0)
            },
            final(self).tf_spec() == lut_step(old(self).tf_spec(), (false, seq![id@])),
    {
        let ghost before = self.storage.token_seq();
        let known = self.tf.contains_key(id.as_slice());
        let key = clone_bytes(&id);
        self.storage.register(id);
        if !known {
            self.tf.add(key.as_slice(), 0);
        }
        proof {
            if before.contains(key@) {
                assert(self.storage.token_seq() == before);
            } else {
                crate::bytes_order::lemma_push_to_set(before, key@);
            }
            if known {
                assert(self.tf@ =~= old(self).tf@);
            } else {
                assert(count_of(old(self).tf@, key@) == 0);
            }
            let e = (false, seq![key@]);
            assert forall|t: Seq<u8>| #[trigger] self.tf@.contains_key(t) <==> lut_step(old(self).tf@, e).contains_key(t) by {
                assert(seq![key@].contains(t) <==> t == key@) by {
                    if t == key@ {
                        assert(seq![key@][0] == t);
                    }
                }
            }
            assert(self.tf@ =~= lut_step(old(self).tf@, e));
        }
    }

    /// Accumulate term frequency for a batch of ingested IDs: each ID is
    /// registered and its TF grows by its number of occurrences.
    pub fn observe(&mut self, ids: &[Vec<u8>])
        requires
            old(self).wf(),
            forall|t: Seq<u8>|
                #[trigger] old(self).tf_spec().contains_key(t) ==> old(self).tf_spec()[t]
                    + ids@.len() <= u64::MAX,
        ensures
            final(self).wf(),
            final(self).tf_spec().dom() == old(self).tf_spec().dom().union(views(ids@).to_set()),
            forall|t: Seq<u8>|
                #[trigger] count_of(final(self).tf_spec(), t) == count_of(old(self).tf_spec(), t)
                    + occurrences(views(ids@), t),
            final(self).tf_spec() == lut_step(old(self).tf_spec(), (true, views(ids@))),
    {
        let mut i: usize = 0;
        proof {
            assert(views(ids@).take(0).to_set() =~= Set::<Seq<u8>>::empty());
            assert(self.tf@.dom().union(Set::<Seq<u8>>::empty()) =~= self.tf@.dom());
        }
        while i < ids.len()
            invariant
                self.wf(),
                i <= ids@.len(),
                forall|t: Seq<u8>|
                    #[trigger] old(self).tf_spec().contains_key(t) ==> old(self).tf_spec()[t]
                        + ids@.len() <= u64::MAX,
                self.tf@.dom() == old(self).tf@.dom().union(views(ids@).take(i as int).to_set()),
                forall|t: Seq<u8>|
                    #[trigger] count_of(self.tf@, t) == count_of(old(self).tf@, t) + occurrences(
                        views(ids@).take(i as int),
                        t,
                    ),
            decreases ids@.len() - i,
        {
            let ghost prev = self.tf@;
            let id = clone_bytes(&ids[i]);
            let key = bytes_of(ids[i].as_slice());
            self.register(id);
            proof {
                let s = views(ids@).take(i as int);
                lemma_occurrences_le(s, key@);
                assert(count_of(self.tf@, key@) == count_of(prev, key@));
                assert(count_of(prev, key@) == count_of(old(self).tf@, key@) + occurrences(s, key@));
                assert(occurrences(s, key@) <= i);
                if old(self).tf@.contains_key(key@) {
                    assert(old(self).tf_spec().contains_key(key@));
                    assert(old(self).tf_spec()[key@] + ids@.len() <= u64::MAX);
                } else {
                    assert(count_of(old(self).tf@, key@) == 0);
                }
                assert(count_of(self.tf@, key@) + 1 <= u64::MAX);
            }
            self.tf.add(key.as_slice(), 1);
            proof {
                let s = views(ids@).take(i as int);
                let s1 = views(ids@).take(i + 1);
                assert(s1 =~= s.push(ids@[i as int]@));
                assert(s1.drop_last() =~= s);
                crate::bytes_order::lemma_push_to_set(s, ids@[i as int]@);
                assert(self.tf@.dom() =~= old(self).tf@.dom().union(s1.to_set()));
                assert forall|t: Seq<u8>| #[trigger] count_of(self.tf@, t) == count_of(
                    old(self).tf@,
                    t,
                ) + occurrences(s1, t) by {
                    assert(occurrences(s1, t) == occurrences(s, t) + if s1.last() == t {
                        1nat
                    } else {
                        0nat
                    });
                    if t != key@ {
                        assert(count_of(self.tf@, t) == count_of(prev, t)) by {
                            if prev.contains_key(t) {
                            } else {
                                assert(!self.tf@.contains_key(t) || t == key@);
                            }
                        }
                    }
                }
                // storage and tf domains agree
                assert(self.tf@.dom() == self.storage.token_seq().to_set());
            }
            i = i + 1;
        }
        proof {
            assert(views(ids@).take(i as int) =~= views(ids@));
            let e = (true, views(ids@));
            assert forall|t: Seq<u8>| #[trigger] self.tf@.contains_key(t) <==> lut_step(old(self).tf@, e).contains_key(t) by {
                assert(views(ids@).to_set().contains(t) <==> views(ids@).contains(t));
            }
            assert forall|t: Seq<u8>| #[trigger] self.tf@.contains_key(t) implies self.tf@[t] == lut_step(old(self).tf@, e)[t] by {
                assert(count_of(self.tf@, t) == self.tf@[t]);
            }
            assert(self.tf@ =~= lut_step(old(self).tf@, e));
        }
    }

    /// Term frequency of an encoding ID (0 if never observed).
    pub fn tf(&self, id: &[u8]) -> (r: u64)
        requires
            self.wf(),
        ensures
            r == count_of(self.tf_spec(), id@),
    {
        match self.tf.get(id) {
            Some(v) => v,
            None => 0,
        }
    }

    /// Whether the ID is registered.
    pub fn known(&self, id: &[u8]) -> (r: bool)
        requires
            self.wf(),
        ensures
            r == self.tf_spec().contains_key(id@),
    {
        self.tf.contains_key(id)
    }

    /// Materialize an HLLSet through the LUT: the registered IDs whose cell
    /// is in `h`, TF-ranked (ties by byte order).
    pub fn materialize(&self, h: &HLLSet) -> (r: Vec<Vec<u8>>)
        requires
            self.wf(),
            h.wf(),
        ensures
            views(r@).to_set() == self.tf_spec().dom().filter(|t: Seq<u8>| h@.contains(token_bit(t))),
            views(r@).no_duplicates(),
            tf_ranked(self.tf_spec(), views(r@)),
    {
        let cands = self.storage.candidates(h);
        let ghost cs = views(cands@);
        let ghost p = |t: Seq<u8>| key_present(self.storage.key_spec(t), h@);
        proof {
            self.storage.lemma_wf_no_dup();
            assert(cs == self.storage.token_seq().filter(p));
            crate::bytes_order::lemma_filter_no_dup(self.storage.token_seq(), p);
        }
        let mut r: Vec<Vec<u8>> = Vec::new();
        let mut i: usize = 0;
        while i < cands.len()
            invariant
                self.wf(),
                h.wf(),
                cs == views(cands@),
                cs.no_duplicates(),
                i <= cands@.len(),
                views(r@).to_set() == cs.take(i as int).to_set(),
                views(r@).no_duplicates(),
                tf_ranked(self.tf@, views(r@)),
            decreases cands@.len() - i,
        {
            let item = clone_bytes(&cands[i]);
            let f = self.tf(item.as_slice());
            // find the first position whose entry ranks after the new item
            let mut k: usize = 0;
            while k < r.len()
                invariant
                    self.wf(),
                    k <= r@.len(),
                    f == count_of(self.tf@, item@),
                    tf_ranked(self.tf@, views(r@)),
                    forall|m: int|
                        0 <= m < k ==> !ranked_before(f as nat, item@, count_of(self.tf@, #[trigger] views(r@)[m]), views(r@)[m]),
                ensures
                    k <= r@.len(),
                    k < r@.len() ==> ranked_before(f as nat, item@, count_of(self.tf@, views(r@)[k as int]), views(r@)[k as int]),
                    forall|m: int|
                        0 <= m < k ==> !ranked_before(f as nat, item@, count_of(self.tf@, #[trigger] views(r@)[m]), views(r@)[m]),
                decreases r@.len() - k,
            {
                let g = self.tf(r[k].as_slice());
                proof {
                    assert(views(r@)[k as int] == r@[k as int]@);
                }
                if f > g || (f == g && crate::bytes_order::bytes_lt(item.as_slice(), r[k].as_slice())) {
                    break;
                }
                proof {
                    assert(views(r@)[k as int] == r@[k as int]@);
                }
                k = k + 1;
            }
            proof {
                assert(cs.take(i + 1) =~= cs.take(i as int).push(cs[i as int]));
                crate::bytes_order::lemma_push_to_set(cs.take(i as int), cs[i as int]);
                assert(!views(r@).contains(item@)) by {
                    if views(r@).contains(item@) {
                        assert(cs.take(i as int).to_set().contains(item@));
                        let m = choose|m: int| 0 <= m < cs.take(i as int).len() && cs.take(i as int)[m] == item@;
                        assert(cs[m] == cs[i as int]);
                    }
                }
            }
            let ghost r0 = views(r@);
            r.insert(k, item);
            proof {
                let r1 = views(r@);
                assert(r1 =~= r0.insert(k as int, item@));
                if k < r0.len() {
                    assert(ranked_before(f as nat, item@, count_of(self.tf@, r0[k as int]), r0[k as int]));
                }
                assert forall|b: int| k < b < r1.len() implies ranked_before(f as nat, item@, count_of(self.tf@, #[trigger] r1[b]), r1[b]) by {
                    assert(r1[b] == r0[b - 1]);
                    if b - 1 > k {
                        assert(ranked_before(count_of(self.tf@, r0[k as int]), r0[k as int], count_of(self.tf@, r0[b - 1]), r0[b - 1]));
                        lemma_ranked_trans(f as nat, item@, count_of(self.tf@, r0[k as int]), r0[k as int], count_of(self.tf@, r0[b - 1]), r0[b - 1]);
                    }
                }
                assert forall|a: int, b: int| 0 <= a < b < r1.len() implies ranked_before(
                    count_of(self.tf@, #[trigger] r1[a]),
                    r1[a],
                    count_of(self.tf@, #[trigger] r1[b]),
                    r1[b],
                ) by {
                    if a < k && b == k {
                        lemma_ranked_total(count_of(self.tf@, r1[a]), r1[a], f as nat, item@);
                    } else if a < k && b > k {
                        lemma_ranked_total(count_of(self.tf@, r1[a]), r1[a], f as nat, item@);
                        lemma_ranked_trans(count_of(self.tf@, r1[a]), r1[a], f as nat, item@, count_of(self.tf@, r1[b]), r1[b]);
                    } else if a == k && b > k + 1 {
                        assert(ranked_before(count_of(self.tf@, r0[k as int]), r0[k as int], count_of(self.tf@, r0[b - 1]), r0[b - 1]));
                        lemma_ranked_trans(f as nat, item@, count_of(self.tf@, r0[k as int]), r0[k as int], count_of(self.tf@, r1[b]), r1[b]);
                    } else if a == k {
                    } else if a > k {
                        assert(r1[a] == r0[a - 1]);
                        assert(r1[b] == r0[b - 1]);
                    } else {
                        assert(r1[a] == r0[a]);
                        assert(r1[b] == r0[b]);
                    }
                }
                assert forall|y: Seq<u8>| r1.to_set().contains(y) <==> r0.to_set().insert(item@).contains(y) by {
                    if r1.contains(y) {
                        let m = choose|m: int| 0 <= m < r1.len() && r1[m] == y;
                        if m < k {
                            assert(r0[m] == y);
                        } else if m > k {
                            assert(r0[m - 1] == y);
                        }
                    }
                    if r0.contains(y) {
                        let m = choose|m: int| 0 <= m < r0.len() && r0[m] == y;
                        if m < k {
                            assert(r1[m] == y);
                        } else {
                            assert(r1[m + 1] == y);
                        }
                    }
                    if y == item@ {
                        assert(r1[k as int] == y);
                    }
                }
                assert(r1.to_set() =~= r0.to_set().insert(item@));
                assert(r1.no_duplicates()) by {
                    assert forall|a: int, b: int| 0 <= a < r1.len() && 0 <= b < r1.len() && a != b implies r1[a] != r1[b] by {
                        if a < b {
                            assert(ranked_before(count_of(self.tf@, r1[a]), r1[a], count_of(self.tf@, r1[b]), r1[b]));
                        } else {
                            assert(ranked_before(count_of(self.tf@, r1[b]), r1[b], count_of(self.tf@, r1[a]), r1[a]));
                        }
                        lemma_lex_irrefl(r1[a]);
                    }
                }
            }
            i = i + 1;
        }
        proof {
            assert(cs.take(i as int) =~= cs);
            assert forall|t: Seq<u8>| cs.to_set().contains(t) <==> self.tf@.dom().filter(|t: Seq<u8>| h@.contains(token_bit(t))).contains(t) by {
                crate::bytes_order::lemma_filter_mem(self.storage.token_seq(), p, t);
                if cs.contains(t) {
                    assert(self.storage.token_seq().contains(t));
                    assert(p(t));
                }
                if self.tf@.dom().contains(t) && h@.contains(token_bit(t)) {
                    assert(self.storage.token_seq().to_set().contains(t));
                    assert(self.storage.token_seq().contains(t));
                    assert(p(t));
                    assert(cs.contains(t));
                }
            }
            assert(cs.to_set() =~= self.tf@.dom().filter(|t: Seq<u8>| h@.contains(token_bit(t))));
        }
        r
    }

    /// `(resolved cells of h, cells of h)`: the coverage gauge is their ratio
    /// (1.0 iff every cell of `h` resolves through the LUT).
    pub fn coverage_counts(&self, h: &HLLSet) -> (r: (u64, u64))
        requires
            self.wf(),
            h.wf(),
        ensures
            r.1 == h@.len(),
            r.0 == h@.filter(|b: u32| exists|t: Seq<u8>| #[trigger] self.tf_spec().contains_key(t) && token_bit(t) == b).len(),
            r.0 <= r.1,
    {
        let r = self.storage.coverage_counts(h);
        proof {
            assert(h@.filter(|b: u32| self.storage.resolves(b)) =~= h@.filter(|b: u32| exists|t: Seq<u8>| #[trigger] self.tf_spec().contains_key(t) && token_bit(t) == b)) by {
                assert forall|b: u32| self.storage.resolves(b) <==> exists|t: Seq<u8>| #[trigger] self.tf_spec().contains_key(t) && token_bit(t) == b by {
                    self.storage.lemma_resolves(b);
                    if self.storage.resolves(b) {
                        let t = choose|t: Seq<u8>| #[trigger] self.storage.token_seq().to_set().contains(t) && token_bit(t) == b;
                        assert(self.tf_spec().contains_key(t));
                    }
                    if exists|t: Seq<u8>| #[trigger] self.tf_spec().contains_key(t) && token_bit(t) == b {
                        let t = choose|t: Seq<u8>| #[trigger] self.tf_spec().contains_key(t) && token_bit(t) == b;
                        assert(self.storage.token_seq().to_set().contains(t));
                    }
                }
            }
        }
        r
    }

    /// Number of registered encoding IDs.
    pub fn len(&self) -> (r: usize)
        requires
            self.wf(),
        ensures
            r == self.tf_spec().dom().len(),
    {
        self.tf.len()
    }

    /// Whether the LUT is empty.
    pub fn is_empty(&self) -> (r: bool)
        requires
            self.wf(),
        ensures
            r == (self.tf_spec().dom().len() == 0),
    {
        self.tf.len() == 0
    }
}

/// One LUT event: `(false, ids)` registers the IDs, `(true, ids)` observes
/// them as a batch. The map after the event: every ID of the event is
/// known, and an observed batch adds its occurrences to the TF.
pub open spec fn lut_step(m: Map<Seq<u8>, nat>, e: (bool, Seq<Seq<u8>>)) -> Map<Seq<u8>, nat> {
    Map::new(
        |t: Seq<u8>| m.contains_key(t) || e.1.contains(t),
        |t: Seq<u8>| count_of(m, t) + if e.0 { occurrences(e.1, t) } else { 0 },
    )
}

/// The LUT reached from an empty one by a sequence of events.
pub open spec fn lut_replay(es: Seq<(bool, Seq<Seq<u8>>)>) -> Map<Seq<u8>, nat>
    decreases es.len(),
{
    if es.len() == 0 {
        Map::empty()
    } else {
        lut_step(lut_replay(es.drop_last()), es.last())
    }
}

/// Total occurrences of `t` over the observed batches of `es`.
pub open spec fn observed_count(es: Seq<(bool, Seq<Seq<u8>>)>, t: Seq<u8>) -> nat
    decreases es.len(),
{
    if es.len() == 0 {
        0
    } else {
        observed_count(es.drop_last(), t) + if es.last().0 { occurrences(es.last().1, t) } else { 0 }
    }
}

/// Every LUT reached from an empty one by registrations and observed
/// batches knows exactly the IDs that were registered or observed, holds
/// as TF of each ID its total number of observed occurrences, and knows
/// every ID whose TF is positive.
pub proof fn lemma_lut_replay(es: Seq<(bool, Seq<Seq<u8>>)>, t: Seq<u8>)
    ensures
        lut_replay(es).contains_key(t) <==> exists|i: int| 0 <= i < es.len() && (#[trigger] es[i]).1.contains(t),
        count_of(lut_replay(es), t) == observed_count(es, t),
        count_of(lut_replay(es), t) > 0 ==> lut_replay(es).contains_key(t),
    decreases es.len(),
{
    if es.len() > 0 {
        let pre = es.drop_last();
        lemma_lut_replay(pre, t);
        if exists|i: int| 0 <= i < pre.len() && (#[trigger] pre[i]).1.contains(t) {
            let i = choose|i: int| 0 <= i < pre.len() && (#[trigger] pre[i]).1.contains(t);
            assert(es[i] == pre[i]);
        }
        if exists|i: int| 0 <= i < es.len() && (#[trigger] es[i]).1.contains(t) {
            let i = choose|i: int| 0 <= i < es.len() && (#[trigger] es[i]).1.contains(t);
            if i < pre.len() {
                assert(pre[i] == es[i]);
            }
        }
        if es.last().0 && !lut_replay(pre).contains_key(t) && !es.last().1.contains(t) {
            lemma_occurrences_absent(es.last().1, t);
        }
    }
}

/// An ID absent from a batch occurs in it zero times.
proof fn lemma_occurrences_absent(s: Seq<Seq<u8>>, t: Seq<u8>)
    requires
        !s.contains(t),
    ensures
        occurrences(s, t) == 0,
    decreases s.len(),
{
    if s.len() > 0 {
        assert(!s.drop_last().contains(t)) by {
            if s.drop_last().contains(t) {
                let k = choose|k: int| 0 <= k < s.drop_last().len() && s.drop_last()[k] == t;
                assert(s[k] == t);
            }
        }
        lemma_occurrences_absent(s.drop_last(), t);
        assert(s.last() != t) by {
            assert(s[s.len() - 1] == s.last());
        }
    }
}

} // verus!
