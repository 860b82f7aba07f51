//! `TokenMask`: a gate of content addresses (seed-0 murmur3 hashes) over the
//! LUT's canonical token store. Bytes live only in the LUT; the mask
//! references them by address.

use vstd::prelude::*;
use std::collections::HashSet;
use crate::hashing::{content_address, murmur3_hash};
use vstd::std_specs::iter::IteratorSpec;

verus! {

broadcast use vstd::std_specs::hash::group_hash_axioms;

/// Strictly ascending.
pub open spec fn ascending(s: Seq<u64>) -> bool {
    forall|i: int, j: int| 0 <= i < j < s.len() ==> #[trigger] s[i] < #[trigger] s[j]
}

/// Insert `x` into an ascending vector (it must be absent).
fn insert_ascending(v: &mut Vec<u64>, x: u64)
    requires
        ascending(old(v)@),
        !old(v)@.contains(x),
    ensures
        ascending(final(v)@),
        final(v)@.to_set() == old(v)@.to_set().insert(x),
        final(v)@.len() == old(v)@.len() + 1,
{
    let mut k: usize = 0;
    while k < v.len() && v[k] < x
        invariant
            k <= v@.len(),
            forall|m: int| 0 <= m < k ==> #[trigger] v@[m] < x,
        decreases v@.len() - k,
    {
        k = k + 1;
    }
    let ghost v0 = v@;
    v.insert(k, x);
    proof {
        assert(v@ =~= v0.insert(k as int, x));
        if k < v0.len() {
            assert(v0[k as int] != x);
        }
        assert forall|y: u64| v@.to_set().contains(y) <==> v0.to_set().insert(x).contains(y) by {
            if v@.contains(y) {
                let m = choose|m: int| 0 <= m < v@.len() && v@[m] == y;
                if m < k {
                    assert(v0[m] == y);
                } else if m > k {
                    assert(v0[m - 1] == y);
                }
            }
            if v0.contains(y) {
                let m = choose|m: int| 0 <= m < v0.len() && v0[m] == y;
                if m < k {
                    assert(v@[m] == y);
                } else {
                    assert(v@[m + 1] == y);
                }
            }
            if y == x {
                assert(v@[k as int] == y);
            }
        }
        assert(v@.to_set() =~= v0.to_set().insert(x));
    }
}

/// A gate of content addresses over a K-storage.
#[derive(Debug)]
pub struct TokenMask {
    hashes: HashSet<u64>,
}

impl View for TokenMask {
    type V = Set<u64>;

    closed spec fn view(&self) -> Set<u64> {
        self.hashes@
    }
}

impl TokenMask {
    /// A mask holds finitely many addresses.
    #[verifier::type_invariant]
    spec fn finite_addresses(self) -> bool {
        self.hashes@.finite()
    }

    /// An empty mask.
    pub fn new() -> (r: TokenMask)
        ensures
            r@ == Set::<u64>::empty(),
            r@.finite(),
    {
        TokenMask { hashes: HashSet::new() }
    }

    /// Insert a content address; `true` if it was newly inserted.
    pub fn insert(&mut self, hash: u64) -> (r: bool)
        ensures
            final(self)@ == old(self)@.insert(hash),
            r == !old(self)@.contains(hash),
            final(self)@.len() == old(self)@.len() + if r { 1int } else { 0int },
            final(self)@.finite(),
    {
        proof {
            use_type_invariant(&*self);
        }
        let mut h = HashSet::new();
        std::mem::swap(&mut h, &mut self.hashes);
        let r = h.insert(hash);
        self.hashes = h;
        r
    }

    /// Remove a content address; `true` if it was present.
    pub fn remove(&mut self, hash: u64) -> (r: bool)
        ensures
            final(self)@ == old(self)@.remove(hash),
            r == old(self)@.contains(hash),
            final(self)@.len() == old(self)@.len() - if r { 1int } else { 0int },
            final(self)@.finite(),
    {
        proof {
            use_type_invariant(&*self);
        }
        let mut h = HashSet::new();
        std::mem::swap(&mut h, &mut self.hashes);
        let r = h.remove(&hash);
        self.hashes = h;
        r
    }

    /// Whether the address is in the mask.
    pub fn contains_hash(&self, hash: u64) -> (r: bool)
        ensures
            r == self@.contains(hash),
    {
        self.hashes.contains(&hash)
    }

    /// Whether the token (by content address) is in the mask.
    pub fn contains_token(&self, token: &[u8]) -> (r: bool)
        ensures
            r == self@.contains(content_address(token@)),
    {
        self.hashes.contains(&murmur3_hash(token))
    }

    /// Number of gated tokens.
    pub fn len(&self) -> (r: usize)
        ensures
            r == self@.len(),
            self@.finite(),
    {
        proof {
            use_type_invariant(self);
        }
        self.hashes.len()
    }

    /// Whether the mask is empty.
    pub fn is_empty(&self) -> (r: bool)
        ensures
            r == (self@.len() == 0),
    {
        self.hashes.len() == 0
    }

    /// The content addresses, in the set's iteration order.
    pub fn hashes(&self) -> (r: Vec<u64>)
        ensures
            r@.to_set() == self@,
            r@.no_duplicates(),
            r@.len() == self@.len(),
    {
        let ghost ks = vstd::std_specs::hash::spec_hash_keys_iter(&self.hashes).remaining().unref();
        proof {
            vstd::std_specs::hash::axiom_spec_hash_keys_iter(&self.hashes);
        }
        let mut out: Vec<u64> = Vec::new();
        for h in it: self.hashes.iter()
            invariant
                it.seq().unref() == ks,
                out@ == ks.take(it.index() as int),
        {
            out.push(*h);
            proof {
                assert(ks.take(it.index() + 1) =~= out@);
            }
        }
        proof {
            assert(out@ =~= ks);
        }
        out
    }

    /// A copy of the mask.
    pub fn duplicate(&self) -> (r: TokenMask)
        ensures
            r@ == self@,
    {
        let hs = self.hashes();
        let mut r = TokenMask::new();
        let mut i: usize = 0;
        proof {
            assert(r@ =~= hs@.take(0).to_set());
        }
        while i < hs.len()
            invariant
                i <= hs@.len(),
                r@ == hs@.take(i as int).to_set(),
            decreases hs@.len() - i,
        {
            r.insert(hs[i]);
            proof {
                assert(hs@.take(i + 1) =~= hs@.take(i as int).push(hs@[i as int]));
                crate::bytes_order::lemma_push_to_set(hs@.take(i as int), hs@[i as int]);
            }
            i = i + 1;
        }
        proof {
            assert(hs@.take(i as int) =~= hs@);
        }
        r
    }

    /// Sorted content addresses (deterministic iteration).
    pub fn sorted_hashes(&self) -> (r: Vec<u64>)
        ensures
            ascending(r@),
            r@.to_set() == self@,
            r@.len() == self@.len(),
    {
        let hs = self.hashes();
        let mut out: Vec<u64> = Vec::new();
        let mut i: usize = 0;
        proof {
            assert(out@.to_set() =~= hs@.take(0).to_set());
        }
        while i < hs.len()
            invariant
                i <= hs@.len(),
                hs@.no_duplicates(),
                ascending(out@),
                out@.to_set() == hs@.take(i as int).to_set(),
                out@.len() == i,
            decreases hs@.len() - i,
        {
            proof {
                assert(hs@.take(i + 1) =~= hs@.take(i as int).push(hs@[i as int]));
                crate::bytes_order::lemma_push_to_set(hs@.take(i as int), hs@[i as int]);
                assert(!out@.contains(hs@[i as int])) by {
                    if out@.contains(hs@[i as int]) {
                        assert(out@.to_set().contains(hs@[i as int]));
                        let m = choose|m: int| 0 <= m < i && hs@.take(i as int)[m] == hs@[i as int];
                        assert(hs@[m] == hs@[i as int]);
                    }
                }
            }
            insert_ascending(&mut out, hs[i]);
            i = i + 1;
        }
        proof {
            assert(hs@.take(i as int) =~= hs@);
        }
        out
    }
}

} // verus!
