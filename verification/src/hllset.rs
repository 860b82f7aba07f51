//! The HLLSet lattice: subsets of the 32,768 bit cells, ordered by
//! inclusion, with join (union), meet (intersection) and difference.

use vstd::prelude::*;
use crate::bytes_order::views;
use crate::hashing::{
    bit_of_hash, hash_to_bit, lemma_bit_of_hash_in_range, murmur3_hash, token_bit, TOTAL_CELLS,
};

verus! {

/// The serialized (portable roaring) form of a bitmap holding `positions`,
/// as produced by the `roaring` crate.
pub uninterp spec fn roaring_serialized(positions: Seq<u32>) -> Seq<u8>;

/// Collects the positions into a `roaring::RoaringBitmap` and serializes it
/// with `serialize_into` into a fresh vector. Writing into a `Vec<u8>` does
/// not fail; the `Err` arm, which the crate's `io::Result` forces, never runs.
/// The contract names the serialized bytes.
#[verifier::external_body]
fn roaring_bytes(positions: &[u32]) -> (r: Vec<u8>)
    ensures
        r@ == roaring_serialized(positions@),
{
    let rb: roaring::RoaringBitmap = positions.iter().copied().collect();
    let mut out: Vec<u8> = Vec::with_capacity(rb.serialized_size());
    match rb.serialize_into(&mut out) {
        Ok(()) => out,
        Err(_) => Vec::new(),
    }
}

/// Whether every cell of `s` lies in the lattice.
pub open spec fn in_lattice(s: Set<u32>) -> bool {
    &&& s.finite()
    &&& forall|b: u32| #[trigger] s.contains(b) ==> (b as int) < TOTAL_CELLS
}

/// The ingestion morphism `I` on token sequences: the set of their cells.
pub open spec fn ingest(tokens: Seq<Seq<u8>>) -> Set<u32> {
    tokens.map_values(|t: Seq<u8>| token_bit(t)).to_set()
}

/// Cells of `bits` below `n` that are set.
pub open spec fn prefix_set(bits: Seq<bool>, n: int) -> Set<u32> {
    Set::new(|b: u32| (b as int) < n && bits[b as int])
}

/// Positions of the set cells below `n`, ascending.
pub open spec fn prefix_positions(bits: Seq<bool>, n: int) -> Seq<u32>
    decreases n,
{
    if n <= 0 {
        Seq::empty()
    } else if bits[n - 1] {
        prefix_positions(bits, n - 1).push((n - 1) as u32)
    } else {
        prefix_positions(bits, n - 1)
    }
}

proof fn lemma_prefix_set(bits: Seq<bool>, n: int)
    requires
        0 <= n <= u32::MAX + 1,
    ensures
        prefix_set(bits, n).finite(),
        prefix_set(bits, n).len() <= n,
        prefix_positions(bits, n).to_set() == prefix_set(bits, n),
        prefix_positions(bits, n).len() == prefix_set(bits, n).len(),
        forall|i: int, j: int|
            0 <= i < j < prefix_positions(bits, n).len() ==> #[trigger] prefix_positions(bits, n)[i]
                < #[trigger] prefix_positions(bits, n)[j],
        forall|i: int|
            0 <= i < prefix_positions(bits, n).len() ==> (#[trigger] prefix_positions(bits, n)[i]
                as int) < n,
    decreases n,
{
    if n == 0 {
        assert(prefix_set(bits, 0) =~= Set::empty());
        assert(prefix_positions(bits, 0).to_set() =~= Set::empty());
    } else {
        lemma_prefix_set(bits, n - 1);
        let p = prefix_positions(bits, n - 1);
        let s = prefix_set(bits, n - 1);
        let x = (n - 1) as u32;
        if bits[n - 1] {
            assert(prefix_set(bits, n) =~= s.insert(x));
            assert(!s.contains(x));
            crate::bytes_order::lemma_push_to_set(p, x);
        } else {
            assert(prefix_set(bits, n) =~= s);
        }
    }
}

/// A subset of the 32,768 bit cells.
#[derive(Debug)]
pub struct HLLSet {
    bits: Vec<bool>,
}

impl View for HLLSet {
    type V = Set<u32>;

    closed spec fn view(&self) -> Set<u32> {
        prefix_set(self.bits@, TOTAL_CELLS as int)
    }
}

impl HLLSet {
    /// Well-formedness: one flag per cell.
    pub closed spec fn wf(&self) -> bool {
        self.bits@.len() == TOTAL_CELLS
    }

    /// The set cells in ascending order.
    pub closed spec fn positions_spec(&self) -> Seq<u32> {
        prefix_positions(self.bits@, TOTAL_CELLS as int)
    }

    /// The view of a well-formed set lies in the lattice; its ordered
    /// positions hold exactly its cells, ascending.
    pub proof fn lemma_wf(&self)
        requires
            self.wf(),
        ensures
            in_lattice(self@),
            self@.len() <= TOTAL_CELLS,
            self.positions_spec().to_set() == self@,
            self.positions_spec().len() == self@.len(),
            forall|i: int, j: int|
                0 <= i < j < self.positions_spec().len() ==> #[trigger] self.positions_spec()[i]
                    < #[trigger] self.positions_spec()[j],
    {
        lemma_prefix_set(self.bits@, TOTAL_CELLS as int);
    }

    /// Equal views give equal ordered positions.
    pub proof fn lemma_positions_determined(a: &HLLSet, b: &HLLSet)
        requires
            a.wf(),
            b.wf(),
            a@ == b@,
        ensures
            a.positions_spec() == b.positions_spec(),
    {
        assert forall|i: int| 0 <= i < TOTAL_CELLS implies a.bits@[i] == b.bits@[i] by {
            let x = i as u32;
            assert(a@.contains(x) == a.bits@[i]);
            assert(b@.contains(x) == b.bits@[i]);
        }
        assert(a.bits@ =~= b.bits@);
    }

    /// The empty set.
    pub fn new() -> (r: HLLSet)
        ensures
            r.wf(),
            r@ == Set::<u32>::empty(),
    {
        let mut bits: Vec<bool> = Vec::new();
        let mut i: usize = 0;
        while i < TOTAL_CELLS
            invariant
                i <= TOTAL_CELLS,
                bits@.len() == i,
                forall|k: int| 0 <= k < i ==> !#[trigger] bits@[k],
            decreases TOTAL_CELLS - i,
        {
            bits.push(false);
            i = i + 1;
        }
        let r = HLLSet { bits };
        proof {
            assert(r@ =~= Set::<u32>::empty());
        }
        r
    }

    /// A copy with the same cells.
    pub fn duplicate(&self) -> (r: HLLSet)
        requires
            self.wf(),
        ensures
            r.wf(),
            r@ == self@,
    {
        let bits = self.bits.clone();
        proof {
            assert(bits@ =~= self.bits@);
        }
        HLLSet { bits }
    }

    /// Whether cell `bit` is set.
    pub fn contains(&self, bit: u32) -> (r: bool)
        requires
            self.wf(),
        ensures
            r == self@.contains(bit),
    {
        if (bit as usize) < TOTAL_CELLS {
            self.bits[bit as usize]
        } else {
            false
        }
    }

    /// Set cell `bit` (a cell of the lattice).
    pub fn insert_bit(&mut self, bit: u32)
        requires
            old(self).wf(),
            (bit as int) < TOTAL_CELLS,
        ensures
            final(self).wf(),
            final(self)@ == old(self)@.insert(bit),
    {
        self.bits.set(bit as usize, true);
        proof {
            assert(self@ =~= old(self)@.insert(bit));
        }
    }

    /// Add one hash: sets the cell `reg * 32 + tz` of the hash.
    pub fn add_hash(&mut self, hash: u64)
        requires
            old(self).wf(),
        ensures
            final(self).wf(),
            final(self)@ == old(self)@.insert(bit_of_hash(hash)),
    {
        let bit = hash_to_bit(hash);
        self.insert_bit(bit);
    }

    /// Add one token under the seed-0 hash.
    pub fn add_token(&mut self, token: &[u8])
        requires
            old(self).wf(),
        ensures
            final(self).wf(),
            final(self)@ == old(self)@.insert(token_bit(token@)),
    {
        let h = murmur3_hash(token);
        self.add_hash(h);
    }

    /// The HLLSet of a token sequence: `I(tokens)`.
    pub fn from_tokens(tokens: &[Vec<u8>]) -> (r: HLLSet)
        ensures
            r.wf(),
            r@ == ingest(views(tokens@)),
    {
        let mut r = HLLSet::new();
        let mut i: usize = 0;
        while i < tokens.len()
            invariant
                i <= tokens@.len(),
                r.wf(),
                r@ == ingest(views(tokens@).take(i as int)),
            decreases tokens@.len() - i,
        {
            r.add_token(tokens[i].as_slice());
            proof {
                let f = |t: Seq<u8>| token_bit(t);
                let s = views(tokens@);
                assert(s.take(i + 1) =~= s.take(i as int).push(tokens@[i as int]@));
                assert(s.take(i + 1).map_values(f) =~= s.take(i as int).map_values(f).push(
                    token_bit(tokens@[i as int]@),
                ));
                crate::bytes_order::lemma_push_to_set(
                    s.take(i as int).map_values(f),
                    token_bit(tokens@[i as int]@),
                );
            }
            i = i + 1;
        }
        proof {
            assert(views(tokens@).take(i as int) =~= views(tokens@));
        }
        r
    }

    /// Join: `self ∪ other`.
    pub fn union(&self, other: &HLLSet) -> (r: HLLSet)
        requires
            self.wf(),
            other.wf(),
        ensures
            r.wf(),
            r@ == self@.union(other@),
    {
        let mut bits: Vec<bool> = Vec::new();
        let mut i: usize = 0;
        while i < TOTAL_CELLS
            invariant
                self.wf(),
                other.wf(),
                i <= TOTAL_CELLS,
                bits@.len() == i,
                forall|k: int|
                    0 <= k < i ==> #[trigger] bits@[k] == (self.bits@[k] || other.bits@[k]),
            decreases TOTAL_CELLS - i,
        {
            bits.push(self.bits[i] || other.bits[i]);
            i = i + 1;
        }
        let r = HLLSet { bits };
        proof {
            assert(r@ =~= self@.union(other@));
        }
        r
    }

    /// Meet: `self ∩ other`.
    pub fn intersection(&self, other: &HLLSet) -> (r: HLLSet)
        requires
            self.wf(),
            other.wf(),
        ensures
            r.wf(),
            r@ == self@.intersect(other@),
    {
        let mut bits: Vec<bool> = Vec::new();
        let mut i: usize = 0;
        while i < TOTAL_CELLS
            invariant
                self.wf(),
                other.wf(),
                i <= TOTAL_CELLS,
                bits@.len() == i,
                forall|k: int|
                    0 <= k < i ==> #[trigger] bits@[k] == (self.bits@[k] && other.bits@[k]),
            decreases TOTAL_CELLS - i,
        {
            bits.push(self.bits[i] && other.bits[i]);
            i = i + 1;
        }
        let r = HLLSet { bits };
        proof {
            assert(r@ =~= self@.intersect(other@));
        }
        r
    }

    /// Difference: `self \ other`.
    pub fn difference(&self, other: &HLLSet) -> (r: HLLSet)
        requires
            self.wf(),
            other.wf(),
        ensures
            r.wf(),
            r@ == self@.difference(other@),
    {
        let mut bits: Vec<bool> = Vec::new();
        let mut i: usize = 0;
        while i < TOTAL_CELLS
            invariant
                self.wf(),
                other.wf(),
                i <= TOTAL_CELLS,
                bits@.len() == i,
                forall|k: int|
                    0 <= k < i ==> #[trigger] bits@[k] == (self.bits@[k] && !other.bits@[k]),
            decreases TOTAL_CELLS - i,
        {
            bits.push(self.bits[i] && !other.bits[i]);
            i = i + 1;
        }
        let r = HLLSet { bits };
        proof {
            assert(r@ =~= self@.difference(other@));
        }
        r
    }

    /// Symmetric difference: `self Δ other`.
    pub fn symmetric_difference(&self, other: &HLLSet) -> (r: HLLSet)
        requires
            self.wf(),
            other.wf(),
        ensures
            r.wf(),
            r@ == self@.difference(other@).union(other@.difference(self@)),
    {
        let mut bits: Vec<bool> = Vec::new();
        let mut i: usize = 0;
        while i < TOTAL_CELLS
            invariant
                self.wf(),
                other.wf(),
                i <= TOTAL_CELLS,
                bits@.len() == i,
                forall|k: int|
                    0 <= k < i ==> #[trigger] bits@[k] == (self.bits@[k] != other.bits@[k]),
            decreases TOTAL_CELLS - i,
        {
            bits.push(self.bits[i] != other.bits[i]);
            i = i + 1;
        }
        let r = HLLSet { bits };
        proof {
            assert(r@ =~= self@.difference(other@).union(other@.difference(self@)));
        }
        r
    }

    /// In-place join: `self := self ∪ other`.
    pub fn merge(&mut self, other: &HLLSet)
        requires
            old(self).wf(),
            other.wf(),
        ensures
            final(self).wf(),
            final(self)@ == old(self)@.union(other@),
    {
        let mut i: usize = 0;
        while i < TOTAL_CELLS
            invariant
                self.wf(),
                other.wf(),
                i <= TOTAL_CELLS,
                forall|k: int|
                    0 <= k < TOTAL_CELLS ==> #[trigger] self.bits@[k] == (if k < i {
                        old(self).bits@[k] || other.bits@[k]
                    } else {
                        old(self).bits@[k]
                    }),
            decreases TOTAL_CELLS - i,
        {
            if other.bits[i] {
                self.bits.set(i, true);
            }
            i = i + 1;
        }
        proof {
            assert(self@ =~= old(self)@.union(other@));
        }
    }

    /// Number of set cells (exact bit count).
    pub fn popcount(&self) -> (r: u64)
        requires
            self.wf(),
        ensures
            r == self@.len(),
            r <= TOTAL_CELLS,
    {
        let mut count: u64 = 0;
        let mut i: usize = 0;
        proof {
            lemma_prefix_set(self.bits@, 0);
        }
        while i < TOTAL_CELLS
            invariant
                self.wf(),
                i <= TOTAL_CELLS,
                count == prefix_set(self.bits@, i as int).len(),
                prefix_set(self.bits@, i as int).finite(),
                count <= i,
            decreases TOTAL_CELLS - i,
        {
            proof {
                lemma_prefix_set(self.bits@, i as int);
                lemma_prefix_set(self.bits@, i + 1);
                let s = prefix_set(self.bits@, i as int);
                if self.bits@[i as int] {
                    assert(prefix_set(self.bits@, i + 1) =~= s.insert(i as u32));
                    assert(!s.contains(i as u32));
                } else {
                    assert(prefix_set(self.bits@, i + 1) =~= s);
                }
            }
            if self.bits[i] {
                count = count + 1;
            }
            i = i + 1;
        }
        count
    }

    /// Whether no cell is set.
    pub fn is_empty(&self) -> (r: bool)
        requires
            self.wf(),
        ensures
            r == (self@ == Set::<u32>::empty()),
    {
        proof {
            self.lemma_wf();
        }
        let n = self.popcount();
        proof {
            if n != 0 {
                assert(self@ != Set::<u32>::empty());
            } else {
                assert(self@ =~= Set::<u32>::empty());
            }
        }
        n == 0
    }

    /// The set cells in ascending order.
    pub fn positions(&self) -> (r: Vec<u32>)
        requires
            self.wf(),
        ensures
            r@ == self.positions_spec(),
            r@.to_set() == self@,
            r@.len() == self@.len(),
            forall|i: int, j: int| 0 <= i < j < r@.len() ==> #[trigger] r@[i] < #[trigger] r@[j],
            forall|i: int| 0 <= i < r@.len() ==> (#[trigger] r@[i] as int) < TOTAL_CELLS,
    {
        let mut r: Vec<u32> = Vec::new();
        let mut i: usize = 0;
        while i < TOTAL_CELLS
            invariant
                self.wf(),
                i <= TOTAL_CELLS,
                r@ == prefix_positions(self.bits@, i as int),
            decreases TOTAL_CELLS - i,
        {
            if self.bits[i] {
                r.push(i as u32);
            }
            i = i + 1;
        }
        proof {
            self.lemma_wf();
            lemma_prefix_set(self.bits@, TOTAL_CELLS as int);
        }
        r
    }

    /// The serialized form of the set: the portable roaring serialization of
    /// its positions.
    pub fn to_bytes(&self) -> (r: Vec<u8>)
        requires
            self.wf(),
        ensures
            r@ == roaring_serialized(self.positions_spec()),
    {
        let p = self.positions();
        roaring_bytes(p.as_slice())
    }
}

/// `I` is a join-homomorphism: ingesting a concatenation is the union of
/// the ingestions.
pub proof fn lemma_ingest_concat(a: Seq<Seq<u8>>, b: Seq<Seq<u8>>)
    ensures
        ingest(a + b) == ingest(a).union(ingest(b)),
{
    let f = |t: Seq<u8>| token_bit(t);
    assert((a + b).map_values(f) =~= a.map_values(f) + b.map_values(f));
    assert forall|x: u32| ingest(a + b).contains(x) <==> ingest(a).union(ingest(b)).contains(x) by {
        let s = a.map_values(f) + b.map_values(f);
        if s.contains(x) {
            let k = choose|k: int| 0 <= k < s.len() && s[k] == x;
            if k < a.len() {
                assert(a.map_values(f)[k] == x);
            } else {
                assert(b.map_values(f)[k - a.len()] == x);
            }
        }
        if a.map_values(f).contains(x) {
            let k = choose|k: int| 0 <= k < a.map_values(f).len() && a.map_values(f)[k] == x;
            assert(s[k] == x);
        }
        if b.map_values(f).contains(x) {
            let k = choose|k: int| 0 <= k < b.map_values(f).len() && b.map_values(f)[k] == x;
            assert(s[k + a.len()] == x);
        }
    }
    assert(ingest(a + b) =~= ingest(a).union(ingest(b)));
}

/// A cell is in `I(tokens)` exactly when some token lands on it.
pub proof fn lemma_ingest_contains(tokens: Seq<Seq<u8>>, b: u32)
    ensures
        ingest(tokens).contains(b) <==> exists|i: int|
            0 <= i < tokens.len() && #[trigger] token_bit(tokens[i]) == b,
{
    let f = |t: Seq<u8>| token_bit(t);
    let s = tokens.map_values(f);
    if ingest(tokens).contains(b) {
        let k = choose|k: int| 0 <= k < s.len() && s[k] == b;
        assert(token_bit(tokens[k]) == b);
    }
    if exists|i: int| 0 <= i < tokens.len() && #[trigger] token_bit(tokens[i]) == b {
        let i = choose|i: int| 0 <= i < tokens.len() && #[trigger] token_bit(tokens[i]) == b;
        assert(s[i] == b);
    }
}

/// `I` lands in the lattice.
pub proof fn lemma_ingest_in_lattice(tokens: Seq<Seq<u8>>)
    ensures
        in_lattice(ingest(tokens)),
{
    let f = |t: Seq<u8>| token_bit(t);
    vstd::seq_lib::seq_to_set_is_finite(tokens.map_values(f));
    assert forall|b: u32| #[trigger] ingest(tokens).contains(b) implies (b as int) < TOTAL_CELLS by {
        lemma_ingest_contains(tokens, b);
        let i = choose|i: int| 0 <= i < tokens.len() && #[trigger] token_bit(tokens[i]) == b;
        lemma_bit_of_hash_in_range(crate::hashing::content_address(tokens[i]));
    }
}

} // verus!
