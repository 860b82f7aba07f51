//! Phase 1 — K-storage attach.
//!
//! Attaches the tier-1 LUT to the corpus vocabulary and measures the two
//! exit criteria as exact counts:
//!
//! 1. coverage: every corpus cell resolves through the LUT;
//! 2. collisions: the colliding token pairs of the partition, against the
//!    theory `C(n,2) / 3072` expected pairs.

use vstd::prelude::*;
use crate::bytes_order::views;
use crate::data::CharDataset;
use crate::encoding::{decimal_bytes, push_decimal};
use crate::galois::{ingest_set, lemma_covers_own_tokens, lemma_full_coverage_iff, lemma_ingest_seq_set, registered};
use crate::hashing::{content_address, lemma_bit_of_hash_in_range, token_bit, TOTAL_CELLS};
use crate::hllset::{ingest, HLLSet};
use crate::kstorage::{KStorage, KeyRef, TokenLutStorage};
use crate::phase2::char_tokens;
use vstd::utf8::encode_utf8;

verus! {

broadcast use {vstd::seq_lib::group_seq_properties, vstd::seq_lib::seq_to_set_is_finite};

/// Size of the synthetic vocabulary `w0, w1, ..., w4999`.
pub const SYNTHETIC_VOCAB: usize = 5000;

/// The pairwise collision probability of the partition is `1 / 3072`.
pub const PAIRWISE_DENOMINATOR: u64 = 3072;

/// Occurrences of cell `b` in `cells`.
pub open spec fn cell_count(cells: Seq<u32>, b: u32) -> nat
    decreases cells.len(),
{
    if cells.len() == 0 {
        0
    } else {
        cell_count(cells.drop_last(), b) + if cells.last() == b { 1nat } else { 0nat }
    }
}

/// Colliding pairs: the pairs `i < j` with `cells[i] == cells[j]`, that is
/// `Σ C(group_size, 2)` over the occupied cells.
pub open spec fn colliding_pairs(cells: Seq<u32>) -> nat
    decreases cells.len(),
{
    if cells.len() == 0 {
        0
    } else {
        colliding_pairs(cells.drop_last()) + cell_count(cells.drop_last(), cells.last())
    }
}

/// The cell of each token.
pub open spec fn token_cells(tokens: Seq<Seq<u8>>) -> Seq<u32> {
    tokens.map_values(|t: Seq<u8>| token_bit(t))
}

/// `C(n, 2)`.
pub open spec fn choose2(n: nat) -> nat {
    if n == 0 { 0 } else { (n * (n - 1) / 2) as nat }
}

/// Collision statistics of a token vocabulary under the partition.
#[derive(Clone, Copy, Debug, PartialEq, Eq)]
pub struct CollisionCounts {
    /// Number of tokens measured.
    pub vocab_size: usize,
    /// Number of occupied cells.
    pub occupied_cells: usize,
    /// Largest collision group (tokens sharing one cell).
    pub max_group_size: usize,
    /// Colliding token pairs `Σ C(group_size, 2)`.
    pub observed_pairs: u64,
}

/// `c` holds the statistics of `cells`.
pub open spec fn counts_of(c: CollisionCounts, cells: Seq<u32>) -> bool {
    &&& c.vocab_size == cells.len()
    &&& c.occupied_cells == cells.to_set().len()
    &&& c.observed_pairs == colliding_pairs(cells)
    &&& forall|b: u32| #[trigger] cell_count(cells, b) <= c.max_group_size
    &&& cells.len() == 0 ==> c.max_group_size == 0
    &&& cells.len() > 0 ==> exists|b: u32| #[trigger] cell_count(cells, b) == c.max_group_size
}

/// A cell occurs exactly when its count is positive.
pub proof fn lemma_cell_count_contains(cells: Seq<u32>, b: u32)
    ensures
        cell_count(cells, b) > 0 <==> cells.contains(b),
        cell_count(cells, b) <= cells.len(),
    decreases cells.len(),
{
    if cells.len() > 0 {
        let p = cells.drop_last();
        lemma_cell_count_contains(p, b);
        assert(cells =~= p.push(cells.last()));
        if p.contains(b) {
            let k = choose|k: int| 0 <= k < p.len() && p[k] == b;
            assert(cells[k] == b);
        }
        if cells.contains(b) {
            let k = choose|k: int| 0 <= k < cells.len() && cells[k] == b;
            if k < p.len() {
                assert(p[k] == b);
            }
        }
    }
}

/// Pushing a cell: counts and pairs grow as their definitions say.
proof fn lemma_push_counts(cells: Seq<u32>, x: u32)
    ensures
        forall|b: u32| #[trigger] cell_count(cells.push(x), b) == cell_count(cells, b) + if x == b { 1nat } else { 0nat },
        colliding_pairs(cells.push(x)) == colliding_pairs(cells) + cell_count(cells, x),
{
    assert(cells.push(x).drop_last() =~= cells);
}

/// The collision statistics of `tokens` under the LUT's partition.
pub fn collision_stats(storage: &TokenLutStorage, tokens: &[Vec<u8>]) -> (r: CollisionCounts)
    requires
        tokens@.len() <= u32::MAX,
    ensures
        counts_of(r, token_cells(views(tokens@))),
{
    let ghost cells = token_cells(views(tokens@));
    let mut counts: Vec<usize> = Vec::new();
    let mut z: usize = 0;
    while z < TOTAL_CELLS
        invariant
            z <= TOTAL_CELLS,
            counts@.len() == z,
            forall|k: int| 0 <= k < z ==> #[trigger] counts@[k] == 0,
        decreases TOTAL_CELLS - z,
    {
        counts.push(0);
        z = z + 1;
    }
    let mut occupied: usize = 0;
    let mut max_group: usize = 0;
    let mut pairs: u64 = 0;
    let mut i: usize = 0;
    proof {
        assert(cells.take(0).to_set() =~= Set::<u32>::empty());
    }
    while i < tokens.len()
        invariant
            tokens@.len() <= u32::MAX,
            cells == token_cells(views(tokens@)),
            i <= tokens@.len(),
            counts@.len() == TOTAL_CELLS,
            forall|k: int| 0 <= k < i ==> (#[trigger] cells[k] as int) < TOTAL_CELLS,
            forall|b: u32| (b as int) < TOTAL_CELLS ==> counts@[b as int] == cell_count(cells.take(i as int), b),
            occupied == cells.take(i as int).to_set().len(),
            occupied <= i,
            pairs == colliding_pairs(cells.take(i as int)),
            pairs <= i * 4294967295,
            forall|b: u32| #[trigger] cell_count(cells.take(i as int), b) <= max_group,
            i == 0 ==> max_group == 0,
            i > 0 ==> exists|b: u32| #[trigger] cell_count(cells.take(i as int), b) == max_group,
        decreases tokens@.len() - i,
    {
        let ghost prefix = cells.take(i as int);
        let key = storage.key_of(tokens[i].as_slice());
        proof {
            lemma_bit_of_hash_in_range(content_address(tokens@[i as int]@));
            assert(cells[i as int] == token_bit(tokens@[i as int]@));
        }
        let b = match key {
            KeyRef::Cell(b) => b,
            KeyRef::Cells(..) => {
                proof {
                    assert(false);
                }
                0
            },
        };
        proof {
            assert(cells.take(i + 1) =~= prefix.push(b));
            lemma_push_counts(prefix, b);
            lemma_cell_count_contains(prefix, b);
            crate::bytes_order::lemma_push_to_set(prefix, b);
            assert forall|x: u32| (x as int) >= TOTAL_CELLS implies cell_count(prefix, x) == 0 by {
                lemma_cell_count_contains(prefix, x);
                if prefix.contains(x) {
                    let k = choose|k: int| 0 <= k < prefix.len() && prefix[k] == x;
                    assert(cells[k] == x);
                }
            }
        }
        let c = counts[b as usize];
        let ghost c0 = counts@;
        let ghost m0 = max_group;
        pairs = pairs + c as u64;
        if c == 0 {
            occupied = occupied + 1;
        }
        counts.set(b as usize, c + 1);
        if c + 1 > max_group {
            max_group = c + 1;
        }
        proof {
            let next = cells.take(i + 1);
            assert(counts@ == c0.update(b as int, (c + 1) as usize));
            assert forall|x: u32| (x as int) < TOTAL_CELLS implies counts@[x as int] == cell_count(next, x) by {
                if x != b {
                    assert(counts@[x as int] == c0[x as int]);
                }
            }
            assert forall|x: u32| #[trigger] cell_count(next, x) <= max_group by {
                if x != b {
                    assert(cell_count(prefix, x) <= m0);
                }
            }
            if c + 1 > m0 {
                assert(cell_count(next, b) == max_group);
            } else {
                assert(i > 0);
                let w = choose|w: u32| #[trigger] cell_count(prefix, w) == m0;
                assert(cell_count(next, w) == max_group);
            }
            if !prefix.contains(b) {
                assert(c == 0);
            } else {
                assert(prefix.to_set().insert(b) =~= prefix.to_set());
            }
        }
        i = i + 1;
    }
    proof {
        assert(cells.take(i as int) =~= cells);
    }
    CollisionCounts {
        vocab_size: tokens.len(),
        occupied_cells: occupied,
        max_group_size: max_group,
        observed_pairs: pairs,
    }
}

/// Whether an observed pair count matches the theory for `n` tokens: within
/// 15% of the expected `C(n,2) / 3072`, or at most one pair when fewer than
/// one is expected.
pub open spec fn within_theory(observed: nat, n: nat) -> bool {
    let c = choose2(n) as int;
    let d = observed * 3072 - c;
    (-15 * c <= 100 * d && 100 * d <= 15 * c) || (c < 3072 && observed <= 1)
}

/// Compare an observed pair count with the theory (exact rational
/// arithmetic; see [`within_theory`]).
pub fn matches_theory(observed_pairs: u64, n: u64) -> (r: bool)
    requires
        n <= u32::MAX,
    ensures
        r == within_theory(observed_pairs as nat, n as nat),
{
    let nn = n as u128;
    let c: u128 = if n == 0 {
        0
    } else {
        assert(nn * (nn - 1) <= 0x1_0000_0000 * 0x1_0000_0000) by (nonlinear_arith)
            requires
                1 <= nn <= 0x1_0000_0000,
        ;
        nn * (nn - 1) / 2
    };
    assert(c == choose2(n as nat));
    let o = observed_pairs as u128 * 3072;
    let within = if o >= c {
        (o - c) * 100 <= 15 * c
    } else {
        (c - o) * 100 <= 15 * c
    };
    within || (c < 3072 && observed_pairs <= 1)
}

/// The synthetic token `w{i}`.
pub open spec fn synthetic_token(i: nat) -> Seq<u8> {
    seq![119u8] + decimal_bytes(i)
}

/// The synthetic vocabulary `w0, ..., w{n-1}`.
pub open spec fn synthetic_tokens(n: nat) -> Seq<Seq<u8>> {
    Seq::new(n, |i: int| synthetic_token(i as nat))
}

fn synthetic_vocabulary(n: usize) -> (r: Vec<Vec<u8>>)
    ensures
        views(r@) == synthetic_tokens(n as nat),
{
    let mut out: Vec<Vec<u8>> = Vec::new();
    let mut i: usize = 0;
    while i < n
        invariant
            i <= n,
            views(out@) == synthetic_tokens(i as nat),
        decreases n - i,
    {
        let mut t: Vec<u8> = Vec::new();
        t.push(119u8);
        push_decimal(i as u64, &mut t);
        let ghost o0 = out@;
        out.push(t);
        proof {
            assert(t@ =~= synthetic_token(i as nat));
            assert(views(out@) =~= views(o0).push(t@));
            assert(views(out@) =~= synthetic_tokens((i + 1) as nat));
        }
        i = i + 1;
    }
    out
}

/// The token of each vocabulary character.
pub open spec fn char_token_seq(chars: Seq<char>) -> Seq<Seq<u8>> {
    Seq::new(chars.len(), |k: int| encode_utf8(seq![chars[k]]))
}

/// A strictly ascending character sequence has at most `0x110000` entries.
pub proof fn lemma_ascending_len(s: Seq<char>)
    requires
        crate::data::chars_ascending(s),
    ensures
        s.len() <= 0x110000,
{
    if s.len() > 0 {
        lemma_ascending_index(s, s.len() - 1);
        let last = s[s.len() - 1];
        assert((last as u32) <= 0x10FFFF) by {
            vstd::utf8::char_is_scalar(last);
        }
    }
}

proof fn lemma_ascending_index(s: Seq<char>, k: int)
    requires
        crate::data::chars_ascending(s),
        0 <= k < s.len(),
    ensures
        (s[k] as u32) >= k,
    decreases k,
{
    if k > 0 {
        lemma_ascending_index(s, k - 1);
        assert((s[k - 1] as u32) < (s[k] as u32));
    }
}

/// Result of the Phase 1 attach over a character dataset.
#[derive(Clone, Copy, Debug)]
pub struct Phase1Counts {
    /// Corpus vocabulary size (distinct characters).
    pub vocab_size: usize,
    /// Corpus cells that resolve through the LUT (coverage numerator).
    pub resolved_bits: u64,
    /// Cells set by the corpus vocabulary (coverage denominator).
    pub corpus_bits: u64,
    /// Collision statistics of the corpus vocabulary.
    pub corpus: CollisionCounts,
    /// Collision statistics of the synthetic vocabulary.
    pub synthetic: CollisionCounts,
    /// Whether the synthetic measurement matches the theory.
    pub synthetic_matches_theory: bool,
}

/// Run the Phase 1 attach: build the LUT over the corpus vocabulary, ingest
/// every token, and measure coverage and collision statistics, also over a
/// synthetic 5000-token vocabulary. Coverage is always full.
pub fn attach(dataset: &CharDataset) -> (r: Phase1Counts)
    requires
        dataset.wf(),
    ensures
        r.vocab_size == dataset.chars_spec().len(),
        r.corpus_bits == ingest(char_token_seq(dataset.chars_spec())).len(),
        r.resolved_bits == r.corpus_bits,
        counts_of(r.corpus, token_cells(char_token_seq(dataset.chars_spec()))),
        counts_of(r.synthetic, token_cells(synthetic_tokens(SYNTHETIC_VOCAB as nat))),
        r.synthetic_matches_theory == within_theory(
            r.synthetic.observed_pairs as nat,
            SYNTHETIC_VOCAB as nat,
        ),
{
    let chars = dataset.chars();
    let tokens = char_tokens(chars);
    proof {
        dataset.lemma_wf();
        lemma_ascending_len(dataset.chars_spec());
        assert(views(tokens@) =~= char_token_seq(chars@));
    }
    let storage = TokenLutStorage::from_tokens(&tokens);
    let corpus_hllset = HLLSet::from_tokens(tokens.as_slice());
    let corpus = collision_stats(&storage, tokens.as_slice());
    let synthetic_vocab = synthetic_vocabulary(SYNTHETIC_VOCAB);
    let synthetic_storage = TokenLutStorage::from_tokens(&synthetic_vocab);
    assert(synthetic_vocab@.len() == views(synthetic_vocab@).len());
    let synthetic = collision_stats(&synthetic_storage, synthetic_vocab.as_slice());
    let matches = matches_theory(synthetic.observed_pairs, SYNTHETIC_VOCAB as u64);
    let counts = storage.coverage_counts(&corpus_hllset);
    proof {
        let s = views(tokens@).to_set();
        let h = corpus_hllset@;
        corpus_hllset.lemma_wf();
        lemma_ingest_seq_set(views(tokens@));
        assert forall|b: u32| #[trigger] h.contains(b) implies storage.resolves(b) by {
            lemma_covers_own_tokens(&storage, s, b);
        }
        lemma_full_coverage_iff(&storage, h);
    }
    Phase1Counts {
        vocab_size: dataset.vocab_size(),
        resolved_bits: counts.0,
        corpus_bits: counts.1,
        corpus,
        synthetic,
        synthetic_matches_theory: matches,
    }
}

} // verus!
