//! K-storage: the LUTs that hold token bytes behind lattice cells.
//!
//! A key is a cell address (tier 1, single seed) or a set of cells with a
//! quorum (tier 2, multi-seed). `candidates` is the materialization `M`,
//! `key_of` the ingestion direction `I`, and the coverage counts give the
//! confidence gauge `resolved_bits / total_bits`.

use vstd::prelude::*;
use crate::bytes_order::{bytes_eq, clone_bytes, views};
use crate::hashing::{
    content_address, hash_to_bit, lemma_bit_of_hash_in_range, murmur3_hash, seeded_bit,
    seeded_token_bit, token_bit, TOTAL_CELLS,
};
use crate::hllset::HLLSet;

verus! {

broadcast use {vstd::seq_lib::group_seq_properties, vstd::seq_lib::group_filter_ensures};

/// A key reference into the lattice.
#[derive(Clone, Debug, PartialEq, Eq)]
pub enum KeyRef {
    /// One bit cell: `reg * 32 + tz` (tier 1).
    Cell(u32),
    /// Multi-seed cells and the number of them that must be present (tier 2).
    Cells(Vec<u32>, usize),
}

/// The mathematical form of a key.
pub enum KeySpec {
    Cell(u32),
    Cells(Seq<u32>, nat),
}

impl View for KeyRef {
    type V = KeySpec;

    open spec fn view(&self) -> KeySpec {
        match self {
            KeyRef::Cell(b) => KeySpec::Cell(*b),
            KeyRef::Cells(cs, q) => KeySpec::Cells(cs@, *q as nat),
        }
    }
}

/// The cells a key refers to.
pub open spec fn key_cells(k: KeySpec) -> Seq<u32> {
    match k {
        KeySpec::Cell(b) => seq![b],
        KeySpec::Cells(cs, _) => cs,
    }
}

/// Whether a key is present in a set of cells: its cell is set (tier 1),
/// or at least `quorum` of its cells are set, counted with multiplicity
/// (tier 2).
pub open spec fn key_present(k: KeySpec, bits: Set<u32>) -> bool {
    match k {
        KeySpec::Cell(b) => bits.contains(b),
        KeySpec::Cells(cs, q) => cs.filter(|c: u32| bits.contains(c)).len() >= q,
    }
}

impl KeyRef {
    /// The cells of the key.
    pub fn cells(&self) -> (r: Vec<u32>)
        ensures
            r@ == key_cells(self@),
    {
        match self {
            KeyRef::Cell(b) => {
                let mut v: Vec<u32> = Vec::new();
                v.push(*b);
                proof {
                    assert(v@ =~= seq![*b]);
                }
                v
            },
            KeyRef::Cells(cs, _) => {
                let v = cs.clone();
                proof {
                    assert(v@ =~= cs@);
                }
                v
            },
        }
    }

    /// Whether the key is present in `h` (see [`key_present`]).
    pub fn present_in(&self, h: &HLLSet) -> (r: bool)
        requires
            h.wf(),
        ensures
            r == key_present(self@, h@),
    {
        match self {
            KeyRef::Cell(b) => h.contains(*b),
            KeyRef::Cells(cs, q) => {
                let ghost p = |c: u32| h@.contains(c);
                let mut count: usize = 0;
                let mut i: usize = 0;
                while i < cs.len()
                    invariant
                        h.wf(),
                        i <= cs@.len(),
                        p == (|c: u32| h@.contains(c)),
                        count == cs@.take(i as int).filter(p).len(),
                        count <= i,
                    decreases cs@.len() - i,
                {
                    proof {
                        assert(cs@.take(i + 1) =~= cs@.take(i as int).push(cs@[i as int]));
                        cs@.take(i as int).lemma_filter_push(cs@[i as int], p);
                    }
                    if h.contains(cs[i]) {
                        count = count + 1;
                    }
                    i = i + 1;
                }
                proof {
                    assert(cs@.take(i as int) =~= cs@);
                }
                count >= *q
            },
        }
    }
}

/// The K-storage interface.
pub trait KStorage: Sized {
    /// Internal consistency of the LUT.
    spec fn wf(&self) -> bool;

    /// Registered tokens, in registration order (no duplicates).
    spec fn token_seq(&self) -> Seq<Seq<u8>>;

    /// The key a token maps to.
    spec fn key_spec(&self, token: Seq<u8>) -> KeySpec;

    /// Whether some registered token refers to cell `bit`.
    spec fn resolves(&self, bit: u32) -> bool;

    /// The key of a token.
    fn key_of(&self, token: &[u8]) -> (r: KeyRef)
        ensures
            r@ == self.key_spec(token@),
    ;

    /// Register a token in the append-only LUT (idempotent).
    fn register(&mut self, token: Vec<u8>)
        requires
            old(self).wf(),
        ensures
            final(self).wf(),
            final(self).token_seq() == if old(self).token_seq().contains(token@) {
                old(self).token_seq()
            } else {
                old(self).token_seq().push(token@)
            },
            forall|t: Seq<u8>| #[trigger] final(self).key_spec(t) == old(self).key_spec(t),
            forall|b: u32|
                #[trigger] final(self).resolves(b) == (old(self).resolves(b) || key_cells(
                    old(self).key_spec(token@),
                ).contains(b)),
    ;

    /// Materialization `M(h)`: the registered tokens whose key is present in
    /// `h`, in registration order.
    fn candidates(&self, h: &HLLSet) -> (r: Vec<Vec<u8>>)
        requires
            self.wf(),
            h.wf(),
        ensures
            views(r@) == self.token_seq().filter(|t: Seq<u8>| key_present(self.key_spec(t), h@)),
    ;

    /// The first registered token with content address `hash`, if any.
    fn resolve(&self, hash: u64) -> (r: Option<Vec<u8>>)
        requires
            self.wf(),
        ensures
            match r {
                Some(t) => exists|i: int|
                    0 <= i < self.token_seq().len() && self.token_seq()[i] == t@ && content_address(
                        t@,
                    ) == hash && forall|j: int|
                        0 <= j < i ==> content_address(#[trigger] self.token_seq()[j]) != hash,
                None => forall|i: int|
                    0 <= i < self.token_seq().len() ==> content_address(
                        #[trigger] self.token_seq()[i],
                    ) != hash,
            },
    ;

    /// `(resolved cells of h, cells of h)`: the confidence gauge is their
    /// ratio.
    fn coverage_counts(&self, h: &HLLSet) -> (r: (u64, u64))
        requires
            self.wf(),
            h.wf(),
        ensures
            r.1 == h@.len(),
            r.0 == h@.filter(|b: u32| self.resolves(b)).len(),
            r.0 <= r.1,
    ;
}

/// Counting the resolved cells of a set.
fn count_resolved(h: &HLLSet, occupied: &Vec<bool>, Ghost(pred): Ghost<spec_fn(u32) -> bool>) -> (r: (u64, u64))
    requires
        h.wf(),
        occupied@.len() == TOTAL_CELLS,
        forall|b: u32| (b as int) < TOTAL_CELLS ==> occupied@[b as int] == pred(b),
    ensures
        r.1 == h@.len(),
        r.0 == h@.filter(pred).len(),
        r.0 <= r.1,
{
    let pos = h.positions();
    let mut count: u64 = 0;
    let mut i: usize = 0;
    proof {
        h.lemma_wf();
    }
    while i < pos.len()
        invariant
            h.wf(),
            occupied@.len() == TOTAL_CELLS,
            forall|b: u32| (b as int) < TOTAL_CELLS ==> occupied@[b as int] == pred(b),
            i <= pos@.len(),
            pos@.len() == h@.len(),
            h@.len() <= TOTAL_CELLS,
            forall|k: int| 0 <= k < pos@.len() ==> (#[trigger] pos@[k] as int) < TOTAL_CELLS,
            count == pos@.take(i as int).filter(pred).len(),
            count <= i,
        decreases pos@.len() - i,
    {
        proof {
            assert(pos@.take(i + 1) =~= pos@.take(i as int).push(pos@[i as int]));
            pos@.take(i as int).lemma_filter_push(pos@[i as int], pred);
        }
        if occupied[pos[i] as usize] {
            count = count + 1;
        }
        i = i + 1;
    }
    proof {
        assert(pos@.take(i as int) =~= pos@);
        lemma_filter_count(pos@, h@, pred);
    }
    (count, h.popcount())
}

/// For a duplicate-free sequence holding exactly the set `s`, the filtered
/// sequence has as many elements as the filtered set.
pub proof fn lemma_filter_count(q: Seq<u32>, s: Set<u32>, p: spec_fn(u32) -> bool)
    requires
        q.no_duplicates(),
        q.to_set() == s,
    ensures
        q.filter(p).len() == s.filter(p).len(),
        s.filter(p).finite(),
    decreases q.len(),
{
    if q.len() == 0 {
        assert(s.filter(p) =~= Set::empty());
    } else {
        let q0 = q.drop_last();
        let x = q.last();
        assert(q =~= q0.push(x));
        assert(q0.no_duplicates());
        crate::bytes_order::lemma_push_to_set(q0, x);
        lemma_filter_count(q0, q0.to_set(), p);
        q0.lemma_filter_push(x, p);
        assert(!q0.contains(x)) by {
            if q0.contains(x) {
                let k = choose|k: int| 0 <= k < q0.len() && q0[k] == x;
                assert(q[k] == q[q.len() - 1]);
            }
        }
        if p(x) {
            assert(s.filter(p) =~= q0.to_set().filter(p).insert(x));
        } else {
            assert(s.filter(p) =~= q0.to_set().filter(p));
        }
    }
}

/// Tier-1 K-storage: the single-seed token LUT. A token's key is its cell.
#[derive(Clone, Debug)]
pub struct TokenLutStorage {
    tokens: Vec<Vec<u8>>,
    hashes: Vec<u64>,
    occupied: Vec<bool>,
}

impl KStorage for TokenLutStorage {
    closed spec fn wf(&self) -> bool {
        &&& self.tokens@.len() == self.hashes@.len()
        &&& self.occupied@.len() == TOTAL_CELLS
        &&& views(self.tokens@).no_duplicates()
        &&& forall|i: int|
            0 <= i < self.tokens@.len() ==> #[trigger] self.hashes@[i] == content_address(
                self.tokens@[i]@,
            )
        &&& forall|b: u32|
            (b as int) < TOTAL_CELLS ==> (self.occupied@[b as int] <==> self.resolves(b))
    }

    closed spec fn token_seq(&self) -> Seq<Seq<u8>> {
        views(self.tokens@)
    }

    open spec fn key_spec(&self, token: Seq<u8>) -> KeySpec {
        KeySpec::Cell(token_bit(token))
    }

    closed spec fn resolves(&self, bit: u32) -> bool {
        exists|i: int| 0 <= i < self.tokens@.len() && token_bit(#[trigger] self.tokens@[i]@) == bit
    }

    fn key_of(&self, token: &[u8]) -> (r: KeyRef) {
        let h = murmur3_hash(token);
        KeyRef::Cell(hash_to_bit(h))
    }

    fn register(&mut self, token: Vec<u8>) {
        let h = murmur3_hash(token.as_slice());
        let mut i: usize = 0;
        while i < self.tokens.len()
            invariant
                self == old(self),
                self.wf(),
                h == content_address(token@),
                i <= self.tokens@.len(),
                forall|j: int| 0 <= j < i ==> self.tokens@[j]@ != token@,
            decreases self.tokens@.len() - i,
        {
            if self.hashes[i] == h && bytes_eq(self.tokens[i].as_slice(), token.as_slice()) {
                proof {
                    assert(views(self.tokens@)[i as int] == token@);
                    assert(self.token_seq().contains(token@));
                    assert forall|b: u32| #[trigger] self.resolves(b) == (old(self).resolves(b)
                        || key_cells(old(self).key_spec(token@)).contains(b)) by {
                        if key_cells(old(self).key_spec(token@)).contains(b) {
                            assert(key_cells(old(self).key_spec(token@))[0] == b);
                            assert(token_bit(self.tokens@[i as int]@) == b);
                        }
                    }
                }
                return;
            }
            i = i + 1;
        }
        let ghost old_tokens = self.tokens@;
        proof {
            assert(!views(old_tokens).contains(token@));
            lemma_bit_of_hash_in_range(h);
        }
        let bit = hash_to_bit(h);
        self.tokens.push(token);
        self.hashes.push(h);
        self.occupied.set(bit as usize, true);
        proof {
            let t = old_tokens.last();
            assert(views(self.tokens@) =~= views(old_tokens).push(token@));
            assert forall|j: int| 0 <= j < self.tokens@.len() implies #[trigger] self.hashes@[j]
                == content_address(self.tokens@[j]@) by {
                if j < old_tokens.len() {
                    assert(self.tokens@[j] == old_tokens[j]);
                }
            }
            assert(views(self.tokens@).no_duplicates()) by {
                assert forall|a: int, b: int|
                    0 <= a < b < views(self.tokens@).len() implies views(self.tokens@)[a]
                    != views(self.tokens@)[b] by {
                    if b == old_tokens.len() {
                        assert(views(old_tokens)[a] == views(self.tokens@)[a]);
                    } else {
                        assert(views(old_tokens)[a] == views(self.tokens@)[a]);
                        assert(views(old_tokens)[b] == views(self.tokens@)[b]);
                    }
                }
            }
            assert forall|b: u32| #[trigger] self.resolves(b) == (old(self).resolves(b)
                || key_cells(old(self).key_spec(token@)).contains(b)) by {
                if old(self).resolves(b) {
                    let k = choose|k: int|
                        0 <= k < old_tokens.len() && token_bit(#[trigger] old_tokens[k]@) == b;
                    assert(self.tokens@[k] == old_tokens[k]);
                }
                if key_cells(old(self).key_spec(token@)).contains(b) {
                    assert(key_cells(old(self).key_spec(token@))[0] == b);
                    assert(token_bit(self.tokens@[old_tokens.len() as int]@) == b);
                }
                if self.resolves(b) {
                    let k = choose|k: int|
                        0 <= k < self.tokens@.len() && token_bit(#[trigger] self.tokens@[k]@)
                            == b;
                    if k < old_tokens.len() {
                        assert(self.tokens@[k] == old_tokens[k]);
                    } else {
                        assert(key_cells(old(self).key_spec(token@)) =~= seq![b]);
                    }
                }
            }
        }
    }

    fn candidates(&self, h: &HLLSet) -> (r: Vec<Vec<u8>>) {
        let ghost p = |t: Seq<u8>| key_present(self.key_spec(t), h@);
        let mut r: Vec<Vec<u8>> = Vec::new();
        let mut i: usize = 0;
        while i < self.tokens.len()
            invariant
                self.wf(),
                h.wf(),
                p == (|t: Seq<u8>| key_present(self.key_spec(t), h@)),
                i <= self.tokens@.len(),
                views(r@) == views(self.tokens@).take(i as int).filter(p),
            decreases self.tokens@.len() - i,
        {
            let k = self.key_of(self.tokens[i].as_slice());
            let present = k.present_in(h);
            proof {
                assert(views(self.tokens@).take(i + 1) =~= views(self.tokens@).take(
                    i as int,
                ).push(self.tokens@[i as int]@));
                views(self.tokens@).take(i as int).lemma_filter_push(self.tokens@[i as int]@, p);
            }
            if present {
                let c = clone_bytes(&self.tokens[i]);
                let ghost r0 = r@;
                r.push(c);
                proof {
                    assert(views(r@) =~= views(r0).push(c@));
                }
            }
            i = i + 1;
        }
        proof {
            assert(views(self.tokens@).take(i as int) =~= views(self.tokens@));
        }
        r
    }

    fn resolve(&self, hash: u64) -> (r: Option<Vec<u8>>) {
        let mut i: usize = 0;
        while i < self.tokens.len()
            invariant
                self.wf(),
                i <= self.tokens@.len(),
                forall|j: int|
                    0 <= j < i ==> content_address(#[trigger] self.token_seq()[j]) != hash,
            decreases self.tokens@.len() - i,
        {
            assert(self.token_seq()[i as int] == self.tokens@[i as int]@);
            if self.hashes[i] == hash {
                let t = clone_bytes(&self.tokens[i]);
                return Some(t);
            }
            i = i + 1;
        }
        None
    }

    fn coverage_counts(&self, h: &HLLSet) -> (r: (u64, u64)) {
        let ghost pred = |b: u32| self.resolves(b);
        let r = count_resolved(h, &self.occupied, Ghost(pred));
        proof {
            assert(h@.filter(pred) =~= h@.filter(|b: u32| self.resolves(b)));
        }
        r
    }
}

impl TokenLutStorage {
    /// An empty LUT.
    pub fn new() -> (r: TokenLutStorage)
        ensures
            r.wf(),
            r.token_seq() == Seq::<Seq<u8>>::empty(),
    {
        let mut occupied: Vec<bool> = Vec::new();
        let mut i: usize = 0;
        while i < TOTAL_CELLS
            invariant
                i <= TOTAL_CELLS,
                occupied@.len() == i,
                forall|k: int| 0 <= k < i ==> !#[trigger] occupied@[k],
            decreases TOTAL_CELLS - i,
        {
            occupied.push(false);
            i = i + 1;
        }
        let r = TokenLutStorage { tokens: Vec::new(), hashes: Vec::new(), occupied };
        proof {
            assert(views(r.tokens@) =~= Seq::<Seq<u8>>::empty());
        }
        r
    }

    /// A LUT holding `tokens` (registered in order, duplicates once).
    pub fn from_tokens(tokens: &Vec<Vec<u8>>) -> (r: TokenLutStorage)
        ensures
            r.wf(),
            r.token_seq().to_set() == views(tokens@).to_set(),
            r.token_seq().no_duplicates(),
    {
        let mut s = TokenLutStorage::new();
        let mut i: usize = 0;
        proof {
            assert(s.token_seq().to_set() =~= views(tokens@).take(0).to_set());
        }
        while i < tokens.len()
            invariant
                s.wf(),
                i <= tokens@.len(),
                s.token_seq().to_set() == views(tokens@).take(i as int).to_set(),
            decreases tokens@.len() - i,
        {
            let t = clone_bytes(&tokens[i]);
            let ghost before = s.token_seq();
            s.register(t);
            proof {
                assert(views(tokens@).take(i + 1) =~= views(tokens@).take(i as int).push(
                    tokens@[i as int]@,
                ));
                crate::bytes_order::lemma_push_to_set(
                    views(tokens@).take(i as int),
                    tokens@[i as int]@,
                );
                if !before.contains(tokens@[i as int]@) {
                    crate::bytes_order::lemma_push_to_set(before, tokens@[i as int]@);
                } else {
                    assert(before.to_set().insert(tokens@[i as int]@) =~= before.to_set());
                }
            }
            i = i + 1;
        }
        proof {
            assert(views(tokens@).take(i as int) =~= views(tokens@));
            s.lemma_wf_no_dup();
        }
        s
    }

    /// A cell resolves exactly when some registered token lands on it.
    pub proof fn lemma_resolves(&self, b: u32)
        requires
            self.wf(),
        ensures
            self.resolves(b) <==> exists|t: Seq<u8>| #[trigger] self.token_seq().to_set().contains(t) && token_bit(t) == b,
    {
        if self.resolves(b) {
            let i = choose|i: int| 0 <= i < self.tokens@.len() && token_bit(#[trigger] self.tokens@[i]@) == b;
            assert(self.token_seq()[i] == self.tokens@[i]@);
            assert(self.token_seq().contains(self.tokens@[i]@));
            assert(self.token_seq().to_set().contains(self.tokens@[i]@));
        }
        if exists|t: Seq<u8>| #[trigger] self.token_seq().to_set().contains(t) && token_bit(t) == b {
            let t = choose|t: Seq<u8>| #[trigger] self.token_seq().to_set().contains(t) && token_bit(t) == b;
            let i = choose|i: int| 0 <= i < self.token_seq().len() && self.token_seq()[i] == t;
            assert(self.tokens@[i]@ == t);
            assert(token_bit(self.tokens@[i]@) == b);
        }
    }

    /// The registered tokens are distinct.
    pub proof fn lemma_wf_no_dup(&self)
        requires
            self.wf(),
        ensures
            self.token_seq().no_duplicates(),
    {
    }

    /// Number of registered tokens.
    pub fn len(&self) -> (r: usize)
        requires
            self.wf(),
        ensures
            r == self.token_seq().len(),
    {
        self.tokens.len()
    }

    /// The collision group of cell `bit`: the registered tokens whose cell
    /// it is, in registration order.
    pub fn group(&self, bit: u32) -> (r: Vec<Vec<u8>>)
        requires
            self.wf(),
        ensures
            views(r@) == self.token_seq().filter(|t: Seq<u8>| token_bit(t) == bit),
    {
        let ghost p = |t: Seq<u8>| token_bit(t) == bit;
        let mut r: Vec<Vec<u8>> = Vec::new();
        let mut i: usize = 0;
        while i < self.tokens.len()
            invariant
                self.wf(),
                p == (|t: Seq<u8>| token_bit(t) == bit),
                i <= self.tokens@.len(),
                views(r@) == views(self.tokens@).take(i as int).filter(p),
            decreases self.tokens@.len() - i,
        {
            proof {
                assert(views(self.tokens@).take(i + 1) =~= views(self.tokens@).take(i as int).push(
                    self.tokens@[i as int]@,
                ));
                views(self.tokens@).take(i as int).lemma_filter_push(self.tokens@[i as int]@, p);
            }
            if hash_to_bit(self.hashes[i]) == bit {
                let c = clone_bytes(&self.tokens[i]);
                let ghost r0 = r@;
                r.push(c);
                proof {
                    assert(views(r@) =~= views(r0).push(c@));
                }
            }
            i = i + 1;
        }
        proof {
            assert(views(self.tokens@).take(i as int) =~= views(self.tokens@));
        }
        r
    }
}

/// Seeds of the tier-2 LUT.
pub const CATALOG_SEEDS: u64 = 3;

/// Quorum of the tier-2 LUT.
pub const CATALOG_QUORUM: usize = 2;

/// The three cells of a value under seeds 0, 1, 2.
pub open spec fn catalog_cells(t: Seq<u8>) -> Seq<u32> {
    seq![seeded_bit(t, 0), seeded_bit(t, 1), seeded_bit(t, 2)]
}

/// Tier-2 K-storage: the multi-seed catalog LUT. A value's key is its three
/// seeded cells with a 2-of-3 quorum.
#[derive(Clone, Debug)]
pub struct CatalogLutStorage {
    values: Vec<Vec<u8>>,
    hashes: Vec<u64>,
    occupied: Vec<bool>,
}

fn catalog_cells_of(t: &[u8]) -> (r: Vec<u32>)
    ensures
        r@ == catalog_cells(t@),
        forall|k: int| 0 <= k < r@.len() ==> (#[trigger] r@[k] as int) < TOTAL_CELLS,
{
    let mut r: Vec<u32> = Vec::new();
    r.push(seeded_token_bit(t, 0));
    r.push(seeded_token_bit(t, 1));
    r.push(seeded_token_bit(t, 2));
    proof {
        assert(r@ =~= catalog_cells(t@));
    }
    r
}

impl KStorage for CatalogLutStorage {
    closed spec fn wf(&self) -> bool {
        &&& self.values@.len() == self.hashes@.len()
        &&& self.occupied@.len() == TOTAL_CELLS
        &&& views(self.values@).no_duplicates()
        &&& forall|i: int|
            0 <= i < self.values@.len() ==> #[trigger] self.hashes@[i] == content_address(
                self.values@[i]@,
            )
        &&& forall|b: u32|
            (b as int) < TOTAL_CELLS ==> (self.occupied@[b as int] <==> self.resolves(b))
    }

    closed spec fn token_seq(&self) -> Seq<Seq<u8>> {
        views(self.values@)
    }

    open spec fn key_spec(&self, token: Seq<u8>) -> KeySpec {
        KeySpec::Cells(catalog_cells(token), CATALOG_QUORUM as nat)
    }

    closed spec fn resolves(&self, bit: u32) -> bool {
        exists|i: int|
            0 <= i < self.values@.len() && catalog_cells(#[trigger] self.values@[i]@).contains(bit)
    }

    fn key_of(&self, token: &[u8]) -> (r: KeyRef) {
        KeyRef::Cells(catalog_cells_of(token), CATALOG_QUORUM)
    }

    fn register(&mut self, token: Vec<u8>) {
        let h = murmur3_hash(token.as_slice());
        let mut i: usize = 0;
        while i < self.values.len()
            invariant
                self == old(self),
                self.wf(),
                h == content_address(token@),
                i <= self.values@.len(),
                forall|j: int| 0 <= j < i ==> self.values@[j]@ != token@,
            decreases self.values@.len() - i,
        {
            if self.hashes[i] == h && bytes_eq(self.values[i].as_slice(), token.as_slice()) {
                proof {
                    assert(views(self.values@)[i as int] == token@);
                    assert(self.token_seq().contains(token@));
                    assert forall|b: u32| #[trigger] self.resolves(b) == (old(self).resolves(b)
                        || key_cells(old(self).key_spec(token@)).contains(b)) by {
                        if key_cells(old(self).key_spec(token@)).contains(b) {
                            assert(catalog_cells(self.values@[i as int]@).contains(b));
                        }
                    }
                }
                return;
            }
            i = i + 1;
        }
        let ghost old_values = self.values@;
        let cells = catalog_cells_of(token.as_slice());
        self.values.push(token);
        self.hashes.push(h);
        self.occupied.set(cells[0] as usize, true);
        self.occupied.set(cells[1] as usize, true);
        self.occupied.set(cells[2] as usize, true);
        proof {
            assert(!views(old_values).contains(token@));
            assert(views(self.values@) =~= views(old_values).push(token@));
            assert forall|j: int| 0 <= j < self.values@.len() implies #[trigger] self.hashes@[j]
                == content_address(self.values@[j]@) by {
                if j < old_values.len() {
                    assert(self.values@[j] == old_values[j]);
                }
            }
            assert(views(self.values@).no_duplicates()) by {
                assert forall|a: int, b: int|
                    0 <= a < b < views(self.values@).len() implies views(self.values@)[a]
                    != views(self.values@)[b] by {
                    if b == old_values.len() {
                        assert(views(old_values)[a] == views(self.values@)[a]);
                    } else {
                        assert(views(old_values)[a] == views(self.values@)[a]);
                        assert(views(old_values)[b] == views(self.values@)[b]);
                    }
                }
            }
            assert forall|b: u32| #[trigger] self.resolves(b) == (old(self).resolves(b)
                || key_cells(old(self).key_spec(token@)).contains(b)) by {
                if old(self).resolves(b) {
                    let k = choose|k: int|
                        0 <= k < old_values.len() && catalog_cells(#[trigger] old_values[k]@)
                            .contains(b);
                    assert(self.values@[k] == old_values[k]);
                }
                if key_cells(old(self).key_spec(token@)).contains(b) {
                    assert(catalog_cells(self.values@[old_values.len() as int]@).contains(b));
                }
                if self.resolves(b) {
                    let k = choose|k: int|
                        0 <= k < self.values@.len() && catalog_cells(
                            #[trigger] self.values@[k]@,
                        ).contains(b);
                    if k < old_values.len() {
                        assert(self.values@[k] == old_values[k]);
                    }
                }
            }
            assert forall|b: u32| (b as int) < TOTAL_CELLS implies (self.occupied@[b as int]
                <==> self.resolves(b)) by {
                if b == cells@[0] || b == cells@[1] || b == cells@[2] {
                    assert(catalog_cells(token@)[0] == cells@[0]);
                    assert(key_cells(old(self).key_spec(token@)).contains(b));
                }
            }
        }
    }

    fn candidates(&self, h: &HLLSet) -> (r: Vec<Vec<u8>>) {
        let ghost p = |t: Seq<u8>| key_present(self.key_spec(t), h@);
        let mut r: Vec<Vec<u8>> = Vec::new();
        let mut i: usize = 0;
        while i < self.values.len()
            invariant
                self.wf(),
                h.wf(),
                p == (|t: Seq<u8>| key_present(self.key_spec(t), h@)),
                i <= self.values@.len(),
                views(r@) == views(self.values@).take(i as int).filter(p),
            decreases self.values@.len() - i,
        {
            let k = self.key_of(self.values[i].as_slice());
            let present = k.present_in(h);
            proof {
                assert(views(self.values@).take(i + 1) =~= views(self.values@).take(
                    i as int,
                ).push(self.values@[i as int]@));
                views(self.values@).take(i as int).lemma_filter_push(self.values@[i as int]@, p);
            }
            if present {
                let c = clone_bytes(&self.values[i]);
                let ghost r0 = r@;
                r.push(c);
                proof {
                    assert(views(r@) =~= views(r0).push(c@));
                }
            }
            i = i + 1;
        }
        proof {
            assert(views(self.values@).take(i as int) =~= views(self.values@));
        }
        r
    }

    fn resolve(&self, hash: u64) -> (r: Option<Vec<u8>>) {
        let mut i: usize = 0;
        while i < self.values.len()
            invariant
                self.wf(),
                i <= self.values@.len(),
                forall|j: int|
                    0 <= j < i ==> content_address(#[trigger] self.token_seq()[j]) != hash,
            decreases self.values@.len() - i,
        {
            assert(self.token_seq()[i as int] == self.values@[i as int]@);
            if self.hashes[i] == hash {
                let t = clone_bytes(&self.values[i]);
                return Some(t);
            }
            i = i + 1;
        }
        None
    }

    fn coverage_counts(&self, h: &HLLSet) -> (r: (u64, u64)) {
        let ghost pred = |b: u32| self.resolves(b);
        let r = count_resolved(h, &self.occupied, Ghost(pred));
        proof {
            assert(h@.filter(pred) =~= h@.filter(|b: u32| self.resolves(b)));
        }
        r
    }
}

impl CatalogLutStorage {
    /// An empty catalog.
    pub fn new() -> (r: CatalogLutStorage)
        ensures
            r.wf(),
            r.token_seq() == Seq::<Seq<u8>>::empty(),
    {
        let mut occupied: Vec<bool> = Vec::new();
        let mut i: usize = 0;
        while i < TOTAL_CELLS
            invariant
                i <= TOTAL_CELLS,
                occupied@.len() == i,
                forall|k: int| 0 <= k < i ==> !#[trigger] occupied@[k],
            decreases TOTAL_CELLS - i,
        {
            occupied.push(false);
            i = i + 1;
        }
        let r = CatalogLutStorage { values: Vec::new(), hashes: Vec::new(), occupied };
        proof {
            assert(views(r.values@) =~= Seq::<Seq<u8>>::empty());
        }
        r
    }

    /// A catalog holding `values` (registered in order, duplicates once).
    pub fn from_values(values: &Vec<Vec<u8>>) -> (r: CatalogLutStorage)
        ensures
            r.wf(),
            r.token_seq().to_set() == views(values@).to_set(),
    {
        let mut s = CatalogLutStorage::new();
        let mut i: usize = 0;
        proof {
            assert(s.token_seq().to_set() =~= views(values@).take(0).to_set());
        }
        while i < values.len()
            invariant
                s.wf(),
                i <= values@.len(),
                s.token_seq().to_set() == views(values@).take(i as int).to_set(),
            decreases values@.len() - i,
        {
            let t = clone_bytes(&values[i]);
            let ghost before = s.token_seq();
            s.register(t);
            proof {
                assert(views(values@).take(i + 1) =~= views(values@).take(i as int).push(
                    values@[i as int]@,
                ));
                crate::bytes_order::lemma_push_to_set(
                    views(values@).take(i as int),
                    values@[i as int]@,
                );
                if !before.contains(values@[i as int]@) {
                    crate::bytes_order::lemma_push_to_set(before, values@[i as int]@);
                } else {
                    assert(before.to_set().insert(values@[i as int]@) =~= before.to_set());
                }
            }
            i = i + 1;
        }
        proof {
            assert(views(values@).take(i as int) =~= views(values@));
        }
        s
    }

    /// Number of registered values.
    pub fn len(&self) -> (r: usize)
        requires
            self.wf(),
        ensures
            r == self.token_seq().len(),
    {
        self.values.len()
    }

    /// The three cells of a registered value, `None` for an unknown value.
    pub fn positions_of(&self, value: &[u8]) -> (r: Option<Vec<u32>>)
        requires
            self.wf(),
        ensures
            match r {
                Some(cs) => self.token_seq().contains(value@) && cs@ == catalog_cells(value@),
                None => !self.token_seq().contains(value@),
            },
    {
        let mut i: usize = 0;
        while i < self.values.len()
            invariant
                self.wf(),
                i <= self.values@.len(),
                forall|j: int| 0 <= j < i ==> self.token_seq()[j] != value@,
            decreases self.values@.len() - i,
        {
            assert(self.token_seq()[i as int] == self.values@[i as int]@);
            if bytes_eq(self.values[i].as_slice(), value) {
                return Some(catalog_cells_of(value));
            }
            i = i + 1;
        }
        None
    }
}

/// The catalog's tokens are distinct.
pub proof fn lemma_catalog_no_dup(s: &CatalogLutStorage)
    requires
        s.wf(),
    ensures
        s.token_seq().no_duplicates(),
{
}

/// The tier-2 quorum is two of three: a value's key is present in `bits`
/// exactly when at least two of its three seeded cells (seeds 0, 1, 2) are
/// set, so a registered value with any two of its cells present is among the
/// candidates of `bits`, and one with at most one cell present is not.
pub proof fn lemma_catalog_quorum(s: CatalogLutStorage, v: Seq<u8>, bits: Set<u32>)
    ensures
        key_present(s.key_spec(v), bits) <==> (bits.contains(seeded_bit(v, 0)) && bits.contains(seeded_bit(v, 1)))
            || (bits.contains(seeded_bit(v, 0)) && bits.contains(seeded_bit(v, 2))) || (bits.contains(
            seeded_bit(v, 1),
        ) && bits.contains(seeded_bit(v, 2))),
        s.token_seq().contains(v) ==> (s.token_seq().filter(|t: Seq<u8>| key_present(s.key_spec(t), bits)).contains(v)
            <==> key_present(s.key_spec(v), bits)),
{
    let cs = catalog_cells(v);
    let p = |c: u32| bits.contains(c);
    reveal_with_fuel(Seq::<u32>::filter, 4);
    assert(cs.drop_last().drop_last().drop_last() =~= Seq::<u32>::empty());
    assert(cs.drop_last().drop_last() =~= seq![seeded_bit(v, 0)]);
    assert(cs.drop_last() =~= seq![seeded_bit(v, 0), seeded_bit(v, 1)]);
    let n = cs.filter(p).len();
    assert(n == (if p(seeded_bit(v, 0)) { 1int } else { 0int }) + (if p(seeded_bit(v, 1)) { 1int } else { 0int }) + (
    if p(seeded_bit(v, 2)) {
        1int
    } else {
        0int
    }));
    if s.token_seq().contains(v) {
        let q = |t: Seq<u8>| key_present(s.key_spec(t), bits);
        crate::bytes_order::lemma_filter_mem(s.token_seq(), q, v);
    }
}

} // verus!
