//! Ingest — the forward morphism, tokens to HLLSets, in one streaming pass.
//!
//! Each token is fully processed before the next: the multi-seed catalog
//! LUT is updated (deduplicated), the working HLLSet of every seed channel
//! gets the token's cell, and the token's TF grows. When the pass ends the
//! bit-TF vector counts one touch per set cell of every channel, and each
//! channel is reported with its content address to an [`IngestSink`].

use vstd::prelude::*;
use crate::byte_map::{count_of, occurrences, ByteMap};
use crate::bytes_order::{clone_bytes, views};
use crate::hashing::{seeded_bit, seeded_token_bit, sha1_hex, TOTAL_CELLS};
use crate::hllset::HLLSet;
use crate::kstorage::{CatalogLutStorage, KStorage};
use crate::lut::lemma_occurrences_le;
use crate::moe::cid_spec;

verus! {

broadcast use vstd::seq_lib::group_seq_properties;

/// Receiver of the original HLLSets produced by a pass (the HLLSet-LUT
/// registers each original with its content address).
pub trait IngestSink {
    /// Whether the sink keeps a record of what it receives; a sink that does
    /// not say keeps none.
    closed spec fn records(&self) -> bool {
        false
    }

    /// The originals received so far, each as its cells and its address.
    closed spec fn received(&self) -> Seq<(Set<u32>, Seq<char>)> {
        Seq::empty()
    }

    /// An original HLLSet of the finished pass, with its SHA-1 hex address.
    /// A recording sink appends it to what it has received.
    fn on_original(&mut self, hllset: &HLLSet, sha1: String)
        ensures
            final(self).records() == old(self).records(),
            old(self).records() ==> final(self).received() == old(self).received().push((hllset@, sha1@)),
    ;
}

/// A sink that ignores the originals.
#[derive(Clone, Copy, Debug)]
pub struct NoopSink;

impl IngestSink for NoopSink {
    fn on_original(&mut self, hllset: &HLLSet, sha1: String) {
    }
}

/// What a pass reports to its sink: each channel with its content address,
/// in seed order.
pub open spec fn reported(channels: Seq<HLLSet>) -> Seq<(Set<u32>, Seq<char>)> {
    Seq::new(channels.len(), |c: int| (channels[c]@, cid_spec(&channels[c])))
}

/// Per-pass statistics.
#[derive(Clone, Copy, Debug, PartialEq, Eq)]
pub struct IngestStats {
    /// Tokens seen in this pass.
    pub tokens: u64,
    /// Tokens that were new to the catalog.
    pub new_lut_entries: u64,
    /// Number of seed channels.
    pub channels: usize,
    /// Largest channel popcount of the pass.
    pub active_bits: u64,
}

/// The result of one pass: statistics and the final channel HLLSets.
#[derive(Debug)]
pub struct IngestOutput {
    pub stats: IngestStats,
    /// One HLLSet per seed channel.
    pub channels: Vec<HLLSet>,
}

/// The cells of a token sequence under one seed.
pub open spec fn channel_cells(tokens: Seq<Seq<u8>>, seed: u64) -> Set<u32> {
    tokens.map_values(|t: Seq<u8>| seeded_bit(t, seed)).to_set()
}

/// The channel sets of a token sequence, one per seed.
pub open spec fn channel_sets(tokens: Seq<Seq<u8>>, seeds: Seq<u64>) -> Seq<Set<u32>> {
    seeds.map_values(|s: u64| channel_cells(tokens, s))
}

/// Number of channels holding cell `b`.
pub open spec fn touches(chs: Seq<Set<u32>>, b: u32) -> nat
    decreases chs.len(),
{
    if chs.len() == 0 {
        0
    } else {
        touches(chs.drop_last(), b) + if chs.last().contains(b) { 1nat } else { 0nat }
    }
}

/// Total number of set cells over the channels.
pub open spec fn total_cells(chs: Seq<Set<u32>>) -> nat
    decreases chs.len(),
{
    if chs.len() == 0 {
        0
    } else {
        total_cells(chs.drop_last()) + chs.last().len()
    }
}

/// The largest channel size (0 without channels).
pub open spec fn max_cells(chs: Seq<Set<u32>>) -> nat
    decreases chs.len(),
{
    if chs.len() == 0 {
        0
    } else {
        let m = max_cells(chs.drop_last());
        if chs.last().len() > m { chs.last().len() } else { m }
    }
}

/// Sum of a counter vector.
pub open spec fn seq_sum(s: Seq<u64>) -> nat
    decreases s.len(),
{
    if s.len() == 0 {
        0
    } else {
        seq_sum(s.drop_last()) + s.last() as nat
    }
}

/// Updating one counter changes the sum by the difference.
proof fn lemma_sum_update(s: Seq<u64>, i: int, v: u64)
    requires
        0 <= i < s.len(),
    ensures
        seq_sum(s.update(i, v)) + s[i] == seq_sum(s) + v,
        s[i] <= seq_sum(s),
    decreases s.len(),
{
    let u = s.update(i, v);
    if i == s.len() - 1 {
        assert(u.drop_last() =~= s.drop_last());
    } else {
        assert(u.drop_last() =~= s.drop_last().update(i, v));
        lemma_sum_update(s.drop_last(), i, v);
    }
}

/// Adding a token to a channel adds its seeded cell.
proof fn lemma_channel_push(tokens: Seq<Seq<u8>>, t: Seq<u8>, seed: u64)
    ensures
        channel_cells(tokens.push(t), seed) == channel_cells(tokens, seed).insert(seeded_bit(t, seed)),
{
    let f = |u: Seq<u8>| seeded_bit(u, seed);
    assert(tokens.push(t).map_values(f) =~= tokens.map_values(f).push(seeded_bit(t, seed)));
    crate::bytes_order::lemma_push_to_set(tokens.map_values(f), seeded_bit(t, seed));
}

/// Add the cell of `t` under each seed to that seed's channel.
fn fold_token(working: &mut Vec<HLLSet>, seeds: &Vec<u64>, t: &[u8])
    requires
        old(working)@.len() == seeds@.len(),
        forall|c: int| 0 <= c < old(working)@.len() ==> (#[trigger] old(working)@[c]).wf(),
    ensures
        final(working)@.len() == seeds@.len(),
        forall|c: int| 0 <= c < seeds@.len() ==> (#[trigger] final(working)@[c]).wf()
            && final(working)@[c]@ == old(working)@[c]@.insert(seeded_bit(t@, seeds@[c])),
{
    let ghost w0 = working@;
    let mut j: usize = 0;
    while j < seeds.len()
        invariant
            w0.len() == seeds@.len(),
            working@.len() == seeds@.len(),
            j <= seeds@.len(),
            forall|c: int| 0 <= c < working@.len() ==> (#[trigger] working@[c]).wf(),
            forall|c: int| 0 <= c < j ==> (#[trigger] working@[c])@ == w0[c]@.insert(seeded_bit(t@, seeds@[c])),
            forall|c: int| j <= c < seeds@.len() ==> (#[trigger] working@[c])@ == w0[c]@,
        decreases seeds@.len() - j,
    {
        let ghost before = working@;
        let mut h = working.remove(j);
        let bit = seeded_token_bit(t, seeds[j]);
        h.insert_bit(bit);
        working.insert(j, h);
        proof {
            assert(working@ =~= before.update(j as int, h));
        }
        j = j + 1;
    }
}

/// Count one touch for every set cell of `h`.
fn touch_bits(bit_tf: &mut Vec<u64>, total: &mut u64, h: &HLLSet)
    requires
        h.wf(),
        old(bit_tf)@.len() == TOTAL_CELLS,
        *old(total) == seq_sum(old(bit_tf)@),
        *old(total) + TOTAL_CELLS <= u64::MAX,
    ensures
        final(bit_tf)@.len() == TOTAL_CELLS,
        *final(total) == seq_sum(final(bit_tf)@),
        *final(total) == *old(total) + h@.len(),
        forall|b: u32|
            (b as int) < TOTAL_CELLS ==> #[trigger] final(bit_tf)@[b as int] == old(bit_tf)@[b as int] + if h@.contains(b) {
                1int
            } else {
                0int
            },
{
    let ghost b0 = bit_tf@;
    let ghost t0 = *total;
    let pos = h.positions();
    proof {
        h.lemma_wf();
    }
    let mut k: usize = 0;
    while k < pos.len()
        invariant
            h.wf(),
            pos@.len() == h@.len(),
            pos@.to_set() == h@,
            pos@.len() <= TOTAL_CELLS,
            forall|i: int, j: int| 0 <= i < j < pos@.len() ==> #[trigger] pos@[i] < #[trigger] pos@[j],
            forall|i: int| 0 <= i < pos@.len() ==> (#[trigger] pos@[i] as int) < TOTAL_CELLS,
            b0.len() == TOTAL_CELLS,
            t0 + TOTAL_CELLS <= u64::MAX,
            k <= pos@.len(),
            bit_tf@.len() == TOTAL_CELLS,
            *total == seq_sum(bit_tf@),
            *total == t0 + k,
            forall|b: u32|
                (b as int) < TOTAL_CELLS ==> #[trigger] bit_tf@[b as int] == b0[b as int] + if pos@.take(k as int).contains(b) {
                    1int
                } else {
                    0int
                },
        decreases pos@.len() - k,
    {
        let p = pos[k];
        let v = bit_tf[p as usize];
        proof {
            lemma_sum_update(bit_tf@, p as int, (v + 1) as u64);
            assert(pos@.take(k + 1) =~= pos@.take(k as int).push(p));
            assert(!pos@.take(k as int).contains(p)) by {
                if pos@.take(k as int).contains(p) {
                    let m = choose|m: int| 0 <= m < k && pos@.take(k as int)[m] == p;
                    assert(pos@[m] < pos@[k as int]);
                }
            }
        }
        bit_tf.set(p as usize, v + 1);
        *total = *total + 1;
        k = k + 1;
    }
    proof {
        assert(pos@.take(k as int) =~= pos@);
    }
}

/// The streaming ingestor.
#[derive(Clone, Debug)]
pub struct Ingestor {
    seeds: Vec<u64>,
    catalog: CatalogLutStorage,
    token_tf: ByteMap,
    bit_tf: Vec<u64>,
    bit_total: u64,
    total_tokens: u64,
    total_new_entries: u64,
}

impl Ingestor {
    /// Internal consistency.
    pub closed spec fn wf(&self) -> bool {
        &&& self.seeds@.len() >= 2
        &&& self.catalog.wf()
        &&& self.token_tf.wf()
        &&& self.bit_tf@.len() == TOTAL_CELLS
        &&& self.bit_total == seq_sum(self.bit_tf@)
        &&& self.token_tf@.dom() == self.catalog.token_seq().to_set()
        &&& forall|t: Seq<u8>| #[trigger] count_of(self.token_tf@, t) <= self.total_tokens
        &&& self.total_new_entries == self.catalog.token_seq().len()
    }

    /// The seeds of the channels.
    pub closed spec fn seeds_spec(&self) -> Seq<u64> {
        self.seeds@
    }

    /// The tokens of the catalog, in first-seen order.
    pub closed spec fn catalog_tokens(&self) -> Seq<Seq<u8>> {
        self.catalog.token_seq()
    }

    /// Per-token TF.
    pub closed spec fn tf_spec(&self) -> Map<Seq<u8>, nat> {
        self.token_tf@
    }

    /// The bit-TF counters, one per cell.
    pub closed spec fn bit_tf_spec(&self) -> Seq<u64> {
        self.bit_tf@
    }

    /// Total tokens ingested over all passes.
    pub closed spec fn total_tokens_spec(&self) -> u64 {
        self.total_tokens
    }

    /// Total new catalog entries over all passes.
    pub closed spec fn total_new_spec(&self) -> u64 {
        self.total_new_entries
    }

    /// Facts every well-formed ingestor has.
    pub proof fn lemma_wf(&self)
        requires
            self.wf(),
        ensures
            self.seeds_spec().len() >= 2,
            self.bit_tf_spec().len() == TOTAL_CELLS,
            self.tf_spec().dom() == self.catalog_tokens().to_set(),
            self.total_new_spec() == self.catalog_tokens().len(),
            forall|t: Seq<u8>| #[trigger] count_of(self.tf_spec(), t) <= self.total_tokens_spec(),
    {
    }

    /// An ingestor over the given seeds (at least two, for consensus).
    pub fn new(seeds: &[u64]) -> (r: Ingestor)
        requires
            seeds@.len() >= 2,
        ensures
            r.wf(),
            r.seeds_spec() == seeds@,
            r.catalog_tokens() == Seq::<Seq<u8>>::empty(),
            r.tf_spec() == Map::<Seq<u8>, nat>::empty(),
            forall|b: int| 0 <= b < TOTAL_CELLS ==> #[trigger] r.bit_tf_spec()[b] == 0,
            r.total_tokens_spec() == 0,
            r.total_new_spec() == 0,
    {
        let mut s: Vec<u64> = Vec::new();
        let mut i: usize = 0;
        while i < seeds.len()
            invariant
                i <= seeds@.len(),
                s@ == seeds@.take(i as int),
            decreases seeds@.len() - i,
        {
            s.push(seeds[i]);
            proof {
                assert(seeds@.take(i + 1) =~= seeds@.take(i as int).push(seeds@[i as int]));
            }
            i = i + 1;
        }
        proof {
            assert(seeds@.take(i as int) =~= seeds@);
        }
        let mut bit_tf: Vec<u64> = Vec::new();
        let mut b: usize = 0;
        while b < TOTAL_CELLS
            invariant
                b <= TOTAL_CELLS,
                bit_tf@.len() == b,
                forall|k: int| 0 <= k < b ==> #[trigger] bit_tf@[k] == 0,
                seq_sum(bit_tf@) == 0,
            decreases TOTAL_CELLS - b,
        {
            let ghost b0 = bit_tf@;
            bit_tf.push(0);
            proof {
                assert(bit_tf@.drop_last() =~= b0);
            }
            b = b + 1;
        }
        let r = Ingestor {
            seeds: s,
            catalog: CatalogLutStorage::new(),
            token_tf: ByteMap::new(),
            bit_tf,
            bit_total: 0,
            total_tokens: 0,
            total_new_entries: 0,
        };
        proof {
            assert(r.token_tf@.dom() =~= r.catalog.token_seq().to_set());
        }
        r
    }

    /// The multi-seed catalog LUT.
    pub fn catalog(&self) -> (r: &CatalogLutStorage)
        requires
            self.wf(),
        ensures
            r.wf(),
            r.token_seq() == self.catalog_tokens(),
    {
        &self.catalog
    }

    /// Per-token TF (0 if never seen).
    pub fn token_tf(&self, token: &[u8]) -> (r: u64)
        requires
            self.wf(),
        ensures
            r == count_of(self.tf_spec(), token@),
    {
        match self.token_tf.get(token) {
            Some(v) => v,
            None => 0,
        }
    }

    /// The cumulative bit-TF counters, one per cell.
    pub fn bit_tf(&self) -> (r: &[u64])
        requires
            self.wf(),
        ensures
            r@ == self.bit_tf_spec(),
    {
        self.bit_tf.as_slice()
    }

    /// The total of the bit-TF counters.
    pub fn bit_tf_total(&self) -> (r: u64)
        requires
            self.wf(),
        ensures
            r == seq_sum(self.bit_tf_spec()),
    {
        self.bit_total
    }

    /// The token loop of a pass: catalog, channels and TF for each token.
    fn stream_tokens(&mut self, tokens: &[Vec<u8>], working: &mut Vec<HLLSet>) -> (new_entries: u64)
        requires
            old(self).wf(),
            old(self).total_tokens + tokens@.len() <= u64::MAX,
            old(working)@.len() == old(self).seeds@.len(),
            forall|k: int| 0 <= k < old(self).seeds@.len() ==> (#[trigger] old(working)@[k]).wf()
                && old(working)@[k]@ == channel_cells(Seq::empty(), old(self).seeds@[k]),
        ensures
            final(self).seeds == old(self).seeds,
            final(self).bit_tf == old(self).bit_tf,
            final(self).bit_total == old(self).bit_total,
            final(self).total_tokens == old(self).total_tokens,
            final(self).total_new_entries == old(self).total_new_entries,
            final(self).catalog.wf(),
            final(self).token_tf.wf(),
            final(self).catalog.token_seq().len() == old(self).catalog.token_seq().len() + new_entries,
            final(self).catalog.token_seq().take(old(self).catalog.token_seq().len() as int) == old(self).catalog.token_seq(),
            final(self).catalog.token_seq().to_set() == old(self).catalog.token_seq().to_set().union(views(tokens@).to_set()),
            final(self).token_tf@.dom() == final(self).catalog.token_seq().to_set(),
            forall|t: Seq<u8>| #[trigger] count_of(final(self).token_tf@, t) == count_of(old(self).token_tf@, t) + occurrences(views(tokens@), t),
            final(working)@.len() == old(self).seeds@.len(),
            forall|k: int| 0 <= k < old(self).seeds@.len() ==> (#[trigger] final(working)@[k]).wf()
                && final(working)@[k]@ == channel_cells(views(tokens@), old(self).seeds@[k]),
    {
        let ghost toks = views(tokens@);
        let ghost seeds = self.seeds@;
        let ghost cat0 = self.catalog.token_seq();
        let ghost tf0 = self.token_tf@;
        let mut new_entries: u64 = 0;
        let mut i: usize = 0;
        proof {
            assert(cat0.take(cat0.len() as int) =~= cat0);
            assert(cat0.to_set().union(toks.take(0).to_set()) =~= cat0.to_set());
            assert(toks.take(0) =~= Seq::<Seq<u8>>::empty());
        }
        while i < tokens.len()
            invariant
                toks == views(tokens@),
                seeds == self.seeds@,
                old(self).wf(),
                self.seeds == old(self).seeds,
                self.bit_tf == old(self).bit_tf,
                self.bit_total == old(self).bit_total,
                self.total_tokens == old(self).total_tokens,
                self.total_new_entries == old(self).total_new_entries,
                cat0 == old(self).catalog.token_seq(),
                tf0 == old(self).token_tf@,
                old(self).total_tokens + tokens@.len() <= u64::MAX,
                i <= tokens@.len(),
                self.catalog.wf(),
                self.token_tf.wf(),
                self.catalog.token_seq().len() == cat0.len() + new_entries,
                self.catalog.token_seq().take(cat0.len() as int) == cat0,
                self.catalog.token_seq().to_set() == cat0.to_set().union(toks.take(i as int).to_set()),
                self.token_tf@.dom() == self.catalog.token_seq().to_set(),
                forall|t: Seq<u8>| #[trigger] count_of(self.token_tf@, t) == count_of(tf0, t) + occurrences(toks.take(i as int), t),
                new_entries <= i,
                working@.len() == seeds.len(),
                forall|k: int| 0 <= k < seeds.len() ==> (#[trigger] working@[k]).wf() && working@[k]@ == channel_cells(toks.take(i as int), seeds[k]),
            decreases tokens@.len() - i,
        {
            let t = tokens[i].as_slice();
            let ghost tv = toks[i as int];
            proof {
                assert(t@ == tv);
                assert(toks.take(i + 1) =~= toks.take(i as int).push(tv));
                crate::bytes_order::lemma_push_to_set(toks.take(i as int), tv);
            }
            // 1. the catalog LUT (deduplicated)
            let known = self.catalog.positions_of(t);
            if known.is_none() {
                let ghost before = self.catalog.token_seq();
                self.catalog.register(clone_bytes(&tokens[i]));
                new_entries = new_entries + 1;
                proof {
                    crate::bytes_order::lemma_push_to_set(before, tv);
                    assert(self.catalog.token_seq().take(cat0.len() as int) =~= before.take(cat0.len() as int));
                }
            } else {
                proof {
                    assert(self.catalog.token_seq().to_set().insert(tv) =~= self.catalog.token_seq().to_set());
                }
            }
            // 2. the working channels
            let ghost w0 = working@;
            fold_token(working, &self.seeds, t);
            proof {
                assert forall|k: int| 0 <= k < seeds.len() implies (#[trigger] working@[k]).wf() && working@[k]@ == channel_cells(toks.take(i + 1), seeds[k]) by {
                    lemma_channel_push(toks.take(i as int), tv, seeds[k]);
                    assert(w0[k]@ == channel_cells(toks.take(i as int), seeds[k]));
                }
            }
            // 3. the token TF
            proof {
                lemma_occurrences_le(toks.take(i as int), tv);
                assert(count_of(tf0, tv) <= old(self).total_tokens);
            }
            let ghost tf_before = self.token_tf@;
            self.token_tf.add(t, 1);
            proof {
                assert forall|u: Seq<u8>| #[trigger] count_of(self.token_tf@, u) == count_of(tf0, u) + occurrences(toks.take(i + 1), u) by {
                    assert(toks.take(i + 1).drop_last() =~= toks.take(i as int));
                    assert(toks.take(i + 1).last() == tv);
                    assert(count_of(tf_before, u) == count_of(tf0, u) + occurrences(toks.take(i as int), u));
                    assert(occurrences(toks.take(i + 1), u) == occurrences(toks.take(i as int), u) + if tv == u { 1nat } else { 0nat });
                }
                assert(self.token_tf@.dom() =~= self.catalog.token_seq().to_set());
            }
            i = i + 1;
        }
        proof {
            assert(toks.take(i as int) =~= toks);
        }
        new_entries
    }

    /// Count one touch per set cell of every channel.
    fn touch_channels(&mut self, working: &Vec<HLLSet>, Ghost(chs): Ghost<Seq<Set<u32>>>)
        requires
            old(self).bit_tf@.len() == TOTAL_CELLS,
            old(self).bit_total == seq_sum(old(self).bit_tf@),
            old(self).bit_total + working@.len() * TOTAL_CELLS <= u64::MAX,
            chs.len() == working@.len(),
            forall|k: int| 0 <= k < working@.len() ==> (#[trigger] working@[k]).wf() && working@[k]@ == chs[k],
        ensures
            final(self).seeds == old(self).seeds,
            final(self).catalog == old(self).catalog,
            final(self).token_tf == old(self).token_tf,
            final(self).total_tokens == old(self).total_tokens,
            final(self).total_new_entries == old(self).total_new_entries,
            final(self).bit_tf@.len() == TOTAL_CELLS,
            final(self).bit_total == seq_sum(final(self).bit_tf@),
            final(self).bit_total == old(self).bit_total + total_cells(chs),
            forall|b: u32|
                (b as int) < TOTAL_CELLS ==> #[trigger] final(self).bit_tf@[b as int] == old(self).bit_tf@[b as int] + touches(chs, b),
    {
        let mut c: usize = 0;
        proof {
            assert(chs.take(0) =~= Seq::<Set<u32>>::empty());
        }
        while c < working.len()
            invariant
                chs.len() == working@.len(),
                forall|k: int| 0 <= k < working@.len() ==> (#[trigger] working@[k]).wf() && working@[k]@ == chs[k],
                c <= working@.len(),
                self.seeds == old(self).seeds,
                self.catalog == old(self).catalog,
                self.token_tf == old(self).token_tf,
                self.total_tokens == old(self).total_tokens,
                self.total_new_entries == old(self).total_new_entries,
                old(self).bit_tf@.len() == TOTAL_CELLS,
                self.bit_tf@.len() == TOTAL_CELLS,
                old(self).bit_total + working@.len() * TOTAL_CELLS <= u64::MAX,
                self.bit_total == seq_sum(self.bit_tf@),
                self.bit_total == old(self).bit_total + total_cells(chs.take(c as int)),
                total_cells(chs.take(c as int)) <= c * TOTAL_CELLS,
                forall|b: u32|
                    (b as int) < TOTAL_CELLS ==> #[trigger] self.bit_tf@[b as int] == old(self).bit_tf@[b as int] + touches(chs.take(c as int), b),
            decreases working@.len() - c,
        {
            proof {
                working@[c as int].lemma_wf();
                assert(chs.take(c + 1).drop_last() =~= chs.take(c as int));
                assert(c * TOTAL_CELLS + TOTAL_CELLS <= working@.len() * TOTAL_CELLS) by (nonlinear_arith)
                    requires
                        c < working@.len(),
                ;
            }
            touch_bits(&mut self.bit_tf, &mut self.bit_total, &working[c]);
            c = c + 1;
        }
        proof {
            assert(chs.take(c as int) =~= chs);
        }
    }

    /// One streaming pass over the tokens: each token updates the catalog
    /// (once per new token), every channel and its TF before the next is
    /// read; at the end the bit-TF counts one touch per set cell of every
    /// channel, and each channel is reported to `sink` with its content
    /// address.
    pub fn ingest_stream<S: IngestSink>(&mut self, tokens: &[Vec<u8>], sink: &mut S) -> (r: IngestOutput)
        requires
            old(self).wf(),
            old(self).total_tokens_spec() + tokens@.len() <= u64::MAX,
            seq_sum(old(self).bit_tf_spec()) + old(self).seeds_spec().len() * TOTAL_CELLS <= u64::MAX,
        ensures
            final(self).wf(),
            final(self).seeds_spec() == old(self).seeds_spec(),
            final(self).catalog_tokens().len() >= old(self).catalog_tokens().len(),
            final(self).catalog_tokens().take(old(self).catalog_tokens().len() as int) == old(self).catalog_tokens(),
            final(self).catalog_tokens().to_set() == old(self).catalog_tokens().to_set().union(
                views(tokens@).to_set(),
            ),
            r.stats.new_lut_entries == final(self).catalog_tokens().len() - old(self).catalog_tokens().len(),
            forall|t: Seq<u8>|
                #[trigger] count_of(final(self).tf_spec(), t) == count_of(old(self).tf_spec(), t)
                    + occurrences(views(tokens@), t),
            forall|b: u32|
                (b as int) < TOTAL_CELLS ==> #[trigger] final(self).bit_tf_spec()[b as int]
                    == old(self).bit_tf_spec()[b as int] + touches(
                    channel_sets(views(tokens@), old(self).seeds_spec()),
                    b,
                ),
            seq_sum(final(self).bit_tf_spec()) == seq_sum(old(self).bit_tf_spec()) + total_cells(
                channel_sets(views(tokens@), old(self).seeds_spec()),
            ),
            final(self).total_tokens_spec() == old(self).total_tokens_spec() + tokens@.len(),
            final(self).total_new_spec() == old(self).total_new_spec() + r.stats.new_lut_entries,
            r.stats.tokens == tokens@.len(),
            r.stats.channels == old(self).seeds_spec().len(),
            r.channels@.len() == old(self).seeds_spec().len(),
            forall|c: int|
                0 <= c < r.channels@.len() ==> (#[trigger] r.channels@[c]).wf() && r.channels@[c]@
                    == channel_sets(views(tokens@), old(self).seeds_spec())[c],
            r.stats.active_bits == max_cells(channel_sets(views(tokens@), old(self).seeds_spec())),
            final(sink).records() == old(sink).records(),
            old(sink).records() ==> final(sink).received() == old(sink).received() + reported(r.channels@),
    {
        let ghost toks = views(tokens@);
        let ghost seeds = self.seeds@;
        let ghost chs = channel_sets(toks, seeds);
        // working channels, internal to the pass
        let mut working: Vec<HLLSet> = Vec::new();
        let mut c: usize = 0;
        while c < self.seeds.len()
            invariant
                seeds == self.seeds@,
                c <= seeds.len(),
                working@.len() == c,
                forall|k: int| 0 <= k < c ==> (#[trigger] working@[k]).wf() && working@[k]@ == channel_cells(Seq::empty(), seeds[k]),
            decreases seeds.len() - c,
        {
            let h = HLLSet::new();
            proof {
                assert(Seq::<Seq<u8>>::empty().map_values(|t: Seq<u8>| seeded_bit(t, seeds[c as int])).to_set() =~= Set::<u32>::empty());
            }
            working.push(h);
            c = c + 1;
        }
        let new_entries = self.stream_tokens(tokens, &mut working);
        proof {
            assert forall|k: int| 0 <= k < working@.len() implies (#[trigger] working@[k]).wf() && working@[k]@ == chs[k] by {
            }
        }
        self.touch_channels(&working, Ghost(chs));
        // report each original with its content address
        let mut c: usize = 0;
        proof {
            assert(old(sink).received() + reported(working@.take(0)) =~= old(sink).received());
        }
        while c < working.len()
            invariant
                forall|k: int| 0 <= k < working@.len() ==> (#[trigger] working@[k]).wf(),
                c <= working@.len(),
                sink.records() == old(sink).records(),
                old(sink).records() ==> sink.received() == old(sink).received() + reported(working@.take(c as int)),
            decreases working@.len() - c,
        {
            let bytes = working[c].to_bytes();
            let cid = sha1_hex(bytes.as_slice());
            let ghost before = sink.received();
            sink.on_original(&working[c], cid);
            proof {
                assert(reported(working@.take(c + 1)) =~= reported(working@.take(c as int)).push(
                    (working@[c as int]@, cid_spec(&working@[c as int])),
                ));
                if old(sink).records() {
                    assert(sink.received() =~= old(sink).received() + reported(working@.take(c + 1)));
                }
            }
            c = c + 1;
        }
        proof {
            assert(working@.take(c as int) =~= working@);
        }
        // the largest channel
        let mut active: u64 = 0;
        let mut c: usize = 0;
        proof {
            assert(chs.take(0) =~= Seq::<Set<u32>>::empty());
        }
        while c < working.len()
            invariant
                chs.len() == working@.len(),
                forall|k: int| 0 <= k < working@.len() ==> (#[trigger] working@[k]).wf() && working@[k]@ == chs[k],
                c <= working@.len(),
                active == max_cells(chs.take(c as int)),
            decreases working@.len() - c,
        {
            let pc = working[c].popcount();
            proof {
                assert(chs.take(c + 1).drop_last() =~= chs.take(c as int));
            }
            if pc > active {
                active = pc;
            }
            c = c + 1;
        }
        proof {
            assert(chs.take(c as int) =~= chs);
        }
        let pass_tokens = tokens.len() as u64;
        let catalog_len = self.catalog.len();
        assert(self.total_new_entries + new_entries == catalog_len);
        self.total_tokens = self.total_tokens + pass_tokens;
        self.total_new_entries = self.total_new_entries + new_entries;
        proof {
            assert forall|t: Seq<u8>| #[trigger] count_of(self.token_tf@, t) <= self.total_tokens by {
                lemma_occurrences_le(toks, t);
                assert(count_of(old(self).token_tf@, t) <= old(self).total_tokens);
            }
        }
        let stats = IngestStats {
            tokens: pass_tokens,
            new_lut_entries: new_entries,
            channels: self.seeds.len(),
            active_bits: active,
        };
        IngestOutput { stats, channels: working }
    }

    /// Total tokens ingested across all passes.
    pub fn total_tokens(&self) -> (r: u64)
        ensures
            r == self.total_tokens_spec(),
    {
        self.total_tokens
    }

    /// Total new catalog entries across all passes.
    pub fn total_new_entries(&self) -> (r: u64)
        ensures
            r == self.total_new_spec(),
    {
        self.total_new_entries
    }
}

} // verus!
