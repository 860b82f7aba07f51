//! An ordered map from byte strings to counters, kept as strictly sorted
//! keys with parallel values.

use vstd::prelude::*;
use crate::bytes_order::{clone_bytes, search_sorted, strictly_sorted, views, lex_lt, lemma_lex_trans};

verus! {

/// Number of occurrences of `t` in `s`.
pub open spec fn occurrences(s: Seq<Seq<u8>>, t: Seq<u8>) -> nat
    decreases s.len(),
{
    if s.len() == 0 {
        0
    } else {
        occurrences(s.drop_last(), t) + if s.last() == t { 1nat } else { 0nat }
    }
}

/// The counter of `t` in `m` (0 when absent).
pub open spec fn count_of(m: Map<Seq<u8>, nat>, t: Seq<u8>) -> nat {
    if m.contains_key(t) { m[t] } else { 0 }
}

/// Byte string -> counter map.
#[derive(Clone, Debug)]
pub struct ByteMap {
    keys: Vec<Vec<u8>>,
    vals: Vec<u64>,
}

impl View for ByteMap {
    type V = Map<Seq<u8>, nat>;

    closed spec fn view(&self) -> Map<Seq<u8>, nat> {
        Map::new(
            |k: Seq<u8>| views(self.keys@).contains(k),
            |k: Seq<u8>| self.vals@[views(self.keys@).index_of(k)] as nat,
        )
    }
}

impl ByteMap {
    /// Internal consistency.
    pub closed spec fn wf(&self) -> bool {
        &&& strictly_sorted(views(self.keys@))
        &&& self.keys@.len() == self.vals@.len()
    }

    /// The keys in ascending order.
    pub closed spec fn keys_spec(&self) -> Seq<Seq<u8>> {
        views(self.keys@)
    }

    /// The keys are ascending and hold the domain.
    pub proof fn lemma_keys(&self)
        requires
            self.wf(),
        ensures
            strictly_sorted(self.keys_spec()),
            self.keys_spec().to_set() == self@.dom(),
            self@.dom().finite(),
            self@.dom().len() == self.keys_spec().len(),
    {
        let s = self.keys_spec();
        assert(s.to_set() =~= self@.dom());
        lemma_sorted_no_dup(s);
        s.unique_seq_to_set();
    }

    proof fn lemma_index(&self, i: int)
        requires
            self.wf(),
            0 <= i < self.keys@.len(),
        ensures
            views(self.keys@).index_of(self.keys@[i]@) == i,
            self@.contains_key(self.keys@[i]@),
            self@[self.keys@[i]@] == self.vals@[i] as nat,
    {
        let s = views(self.keys@);
        assert(s[i] == self.keys@[i]@);
        assert(s.contains(s[i]));
        let k = s.index_of(s[i]);
        if k != i {
            if k < i {
                assert(lex_lt(s[k], s[i]));
            } else {
                assert(lex_lt(s[i], s[k]));
            }
            crate::bytes_order::lemma_lex_irrefl(s[i]);
        }
    }

    /// An empty map.
    pub fn new() -> (r: ByteMap)
        ensures
            r.wf(),
            r@ == Map::<Seq<u8>, nat>::empty(),
    {
        let r = ByteMap { keys: Vec::new(), vals: Vec::new() };
        proof {
            assert(r@ =~= Map::<Seq<u8>, nat>::empty());
        }
        r
    }

    /// Number of keys.
    pub fn len(&self) -> (r: usize)
        requires
            self.wf(),
        ensures
            r == self@.dom().len(),
    {
        proof {
            self.lemma_keys();
        }
        self.keys.len()
    }

    /// The counter of `key`, if present.
    pub fn get(&self, key: &[u8]) -> (r: Option<u64>)
        requires
            self.wf(),
        ensures
            match r {
                Some(v) => self@.contains_key(key@) && self@[key@] == v as nat,
                None => !self@.contains_key(key@),
            },
    {
        let (found, pos) = search_sorted(&self.keys, key);
        if found {
            proof {
                self.lemma_index(pos as int);
            }
            Some(self.vals[pos])
        } else {
            None
        }
    }

    /// Whether `key` is present.
    pub fn contains_key(&self, key: &[u8]) -> (r: bool)
        requires
            self.wf(),
        ensures
            r == self@.contains_key(key@),
    {
        let (found, _) = search_sorted(&self.keys, key);
        found
    }

    /// Add `delta` to the counter of `key`, inserting it at 0 first when absent.
    pub fn add(&mut self, key: &[u8], delta: u64)
        requires
            old(self).wf(),
            count_of(old(self)@, key@) + delta <= u64::MAX,
        ensures
            final(self).wf(),
            final(self)@ == old(self)@.insert(key@, count_of(old(self)@, key@) + delta as nat),
    {
        let (found, pos) = search_sorted(&self.keys, key);
        let ghost s0 = views(self.keys@);
        if found {
            proof {
                self.lemma_index(pos as int);
            }
            let v = self.vals[pos];
            self.vals.set(pos, v + delta);
            proof {
                assert forall|k: Seq<u8>| #[trigger] self@.contains_key(k) implies self@[k]
                    == old(self)@.insert(key@, count_of(old(self)@, key@) + delta as nat)[k] by {
                    let j = views(self.keys@).index_of(k);
                    assert(views(self.keys@)[j] == k);
                    old(self).lemma_index(j);
                }
                assert(self@ =~= old(self)@.insert(key@, count_of(old(self)@, key@) + delta as nat));
            }
        } else {
            let kb = crate::bytes_order::bytes_of(key);
            proof {
                assert(kb@ == key@);
            }
            self.keys.insert(pos, kb);
            self.vals.insert(pos, delta);
            proof {
                let s1 = views(self.keys@);
                assert(s1 =~= s0.insert(pos as int, key@));
                assert forall|i: int, j: int| 0 <= i < j < s1.len() implies lex_lt(
                    #[trigger] s1[i],
                    #[trigger] s1[j],
                ) by {
                    if i < pos && j > pos {
                        lemma_lex_trans(s1[i], key@, s1[j]);
                    }
                }
                assert forall|k: Seq<u8>| #[trigger] s1.contains(k) <==> (s0.contains(k) || k
                    == key@) by {
                    if s1.contains(k) {
                        let m = choose|m: int| 0 <= m < s1.len() && s1[m] == k;
                        if m < pos {
                            assert(s0[m] == k);
                        } else if m > pos {
                            assert(s0[m - 1] == k);
                        }
                    }
                    if s0.contains(k) {
                        let m = choose|m: int| 0 <= m < s0.len() && s0[m] == k;
                        if m < pos {
                            assert(s1[m] == k);
                        } else {
                            assert(s1[m + 1] == k);
                        }
                    }
                    if k == key@ {
                        assert(s1[pos as int] == k);
                    }
                }
                assert forall|k: Seq<u8>| #[trigger] self@.contains_key(k) implies self@[k]
                    == old(self)@.insert(key@, count_of(old(self)@, key@) + delta as nat)[k] by {
                    let j = s1.index_of(k);
                    assert(s1[j] == k);
                    self.lemma_index(j);
                    if j < pos {
                        old(self).lemma_index(j);
                    } else if j > pos {
                        old(self).lemma_index(j - 1);
                    }
                }
                assert(self@ =~= old(self)@.insert(key@, count_of(old(self)@, key@) + delta as nat));
            }
        }
    }

    /// A copy of the keys, ascending.
    pub fn keys(&self) -> (r: Vec<Vec<u8>>)
        requires
            self.wf(),
        ensures
            views(r@) == self.keys_spec(),
    {
        crate::bytes_order::clone_all(self.keys.as_slice())
    }
}

/// A strictly sorted sequence has no duplicates.
pub proof fn lemma_sorted_no_dup(s: Seq<Seq<u8>>)
    requires
        strictly_sorted(s),
    ensures
        s.no_duplicates(),
{
    assert forall|i: int, j: int| 0 <= i < s.len() && 0 <= j < s.len() && i != j implies s[i]
        != s[j] by {
        if i < j {
            assert(lex_lt(s[i], s[j]));
        } else {
            assert(lex_lt(s[j], s[i]));
        }
        crate::bytes_order::lemma_lex_irrefl(s[i]);
    }
}

} // verus!
