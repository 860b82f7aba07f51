//! Phase 3 — set-key attention via the MoE-ETT resolution.
//!
//! 1. observations = sentence HLLSets (unordered by time);
//! 2. MoE = convolution after the SHA-1 IICA shuffle;
//! 3. ETT / EL by BSS coverage of the recent observation;
//! 4. resolution A: `F(t) = EL ∪ { E_k : ρ_k ≥ τ_min }`;
//! 5. resolution B: materialize `F(t)` and rank its tokens by their
//!    frequency in the source sentences of the included experts.
//!
//! The threshold `τ_min` is the ratio `tau_num / tau_den`.

use vstd::prelude::*;
use crate::byte_map::{count_of, occurrences};
use crate::bytes_order::{clone_bytes, views};
use crate::hashing::token_bit;
use crate::hllset::{ingest, HLLSet};
use crate::lut::{ranked_before, tf_ranked, TfLut};
use crate::moe::{
    cid_spec, frame_count, frame_of, obs_keys, overlaps, ranked_order, resolve_from, same_expert, sets_of, shuffled,
    union_of, MoE,
};
use crate::text::{chars_of, split_words, word_bytes};

verus! {

broadcast use vstd::seq_lib::group_seq_properties;

/// The sentence of a line: its words, or nothing for a blank line.
pub open spec fn keep_line(line: Seq<char>) -> Seq<Seq<Seq<u8>>> {
    if word_bytes(line).len() > 0 {
        seq![word_bytes(line)]
    } else {
        Seq::empty()
    }
}

/// Sentences of `s` (lines split at `'\n'`, blank lines skipped), the
/// current partial line being `cur`.
pub open spec fn sentences_from(s: Seq<char>, cur: Seq<char>) -> Seq<Seq<Seq<u8>>>
    decreases s.len(),
{
    if s.len() == 0 {
        keep_line(cur)
    } else if s[0] == '\n' {
        keep_line(cur) + sentences_from(s.drop_first(), Seq::empty())
    } else {
        sentences_from(s.drop_first(), cur.push(s[0]))
    }
}

/// The sentences of a text: the whitespace-separated words of each
/// non-blank line.
pub open spec fn sentences_spec(text: Seq<char>) -> Seq<Seq<Seq<u8>>> {
    sentences_from(text, Seq::empty())
}

/// The byte-string view of each sentence.
pub open spec fn nested_views(s: Seq<Vec<Vec<u8>>>) -> Seq<Seq<Seq<u8>>> {
    s.map_values(|v: Vec<Vec<u8>>| views(v@))
}

/// Split a text into sentence token lists (whitespace tokenization of each
/// non-blank line).
pub fn sentence_tokens(text: &str) -> (r: Vec<Vec<Vec<u8>>>)
    ensures
        nested_views(r@) == sentences_spec(text@),
{
    let cs = chars_of(text);
    let ghost total = sentences_spec(text@);
    let mut out: Vec<Vec<Vec<u8>>> = Vec::new();
    let mut line: Vec<char> = Vec::new();
    let mut i: usize = 0;
    proof {
        assert(cs@.skip(0) =~= cs@);
        assert(nested_views(out@) + sentences_from(cs@.skip(0), line@) =~= total);
    }
    while i < cs.len()
        invariant
            cs@ == text@,
            total == sentences_spec(text@),
            i <= cs@.len(),
            nested_views(out@) + sentences_from(cs@.skip(i as int), line@) == total,
        decreases cs@.len() - i,
    {
        let c = cs[i];
        let ghost rest = cs@.skip(i as int);
        proof {
            assert(rest[0] == c);
            assert(rest.drop_first() =~= cs@.skip(i + 1));
        }
        if c == '\n' {
            let ws = split_words(line.as_slice());
            let ghost o0 = out@;
            if ws.len() > 0 {
                out.push(ws);
                proof {
                    assert(nested_views(out@) =~= nested_views(o0).push(word_bytes(line@)));
                }
            }
            proof {
                assert(views(ws@).len() == ws@.len());
                assert(nested_views(out@) + sentences_from(cs@.skip(i + 1), Seq::empty()) =~= nested_views(o0)
                    + sentences_from(rest, line@));
            }
            line = Vec::new();
        } else {
            proof {
                assert(sentences_from(rest, line@) == sentences_from(cs@.skip(i + 1), line@.push(c)));
            }
            line.push(c);
        }
        i = i + 1;
    }
    let ws = split_words(line.as_slice());
    let ghost o0 = out@;
    proof {
        assert(cs@.skip(i as int) =~= Seq::<char>::empty());
        assert(views(ws@).len() == ws@.len());
    }
    if ws.len() > 0 {
        out.push(ws);
        proof {
            assert(nested_views(out@) =~= nested_views(o0).push(word_bytes(line@)));
        }
    }
    proof {
        assert(nested_views(out@) =~= total);
    }
    out
}

/// All tokens of the sentences, in order.
pub open spec fn all_tokens(ss: Seq<Seq<Seq<u8>>>) -> Seq<Seq<u8>>
    decreases ss.len(),
{
    if ss.len() == 0 {
        Seq::empty()
    } else {
        all_tokens(ss.drop_last()) + ss.last()
    }
}

/// The cells of each sentence (the observations).
pub open spec fn sentence_sets(ss: Seq<Seq<Seq<u8>>>) -> Seq<Set<u32>> {
    ss.map_values(|s: Seq<Seq<u8>>| ingest(s))
}

/// Union of `sets[start..]`.
pub open spec fn union_from(sets: Seq<Set<u32>>, start: int) -> Set<u32>
    decreases sets.len(),
{
    if sets.len() == 0 || sets.len() <= start {
        Set::empty()
    } else {
        union_from(sets.drop_last(), start).union(sets.last())
    }
}

/// Start of the recent window of `window` observations out of `n`.
pub open spec fn recent_start(n: nat, window: nat) -> nat {
    if n > window { (n - window) as nat } else { 0 }
}

/// Whether an overlap reaches `τ = num / den` against `|R| = rb`; the
/// relevance against an empty recent observation is 0.
pub open spec fn reaches_tau(ov: nat, rb: nat, num: nat, den: nat) -> bool {
    if rb == 0 {
        num == 0
    } else {
        ov * den >= num * rb
    }
}

proof fn lemma_ceil_div(x: int, d: int, q: int, ov: int)
    requires
        d > 0,
        x >= 0,
        ov >= 0,
        q == (x + d - 1) / d,
    ensures
        ov >= q <==> ov * d >= x,
{
    vstd::arithmetic::div_mod::lemma_fundamental_div_mod(x + d - 1, d);
    vstd::arithmetic::div_mod::lemma_mod_bound(x + d - 1, d);
    let r = (x + d - 1) % d;
    if ov >= q {
        assert(ov * d >= q * d) by (nonlinear_arith)
            requires
                ov >= q,
                d > 0,
        ;
    } else {
        assert(ov * d <= (q - 1) * d) by (nonlinear_arith)
            requires
                ov <= q - 1,
                d > 0,
        ;
        assert((q - 1) * d == q * d - d) by (nonlinear_arith);
    }
}

/// The least overlap whose relevance reaches `τ = num / den`.
pub fn min_overlap_for(num: u64, den: u64, rb: u64) -> (m: u64)
    requires
        den > 0,
        rb <= 32768,
    ensures
        forall|ov: u64|
            ov <= rb ==> (ov >= m <==> #[trigger] reaches_tau(ov as nat, rb as nat, num as nat, den as nat)),
{
    if num == 0 {
        0
    } else if rb == 0 {
        1
    } else {
        assert(num as u128 * rb as u128 <= 0xffff_ffff_ffff_ffff * 32768) by (nonlinear_arith)
            requires
                num <= 0xffff_ffff_ffff_ffffu64,
                rb <= 32768,
        ;
        let x: u128 = num as u128 * rb as u128;
        let d: u128 = den as u128;
        let q: u128 = (x + d - 1) / d;
        proof {
            assert forall|ov: u64| ov <= rb implies (ov as int >= q as int <==> #[trigger] reaches_tau(
                ov as nat,
                rb as nat,
                num as nat,
                den as nat,
            )) by {
                lemma_ceil_div(x as int, d as int, q as int, ov as int);
            }
        }
        if q > rb as u128 {
            rb + 1
        } else {
            q as u64
        }
    }
}

/// A token of sentence `i` is a token of the corpus.
pub proof fn lemma_all_tokens_contains(ss: Seq<Seq<Seq<u8>>>, i: int, k: int)
    requires
        0 <= i < ss.len(),
        0 <= k < ss[i].len(),
    ensures
        all_tokens(ss).contains(ss[i][k]),
    decreases ss.len(),
{
    let p = ss.drop_last();
    if i == ss.len() - 1 {
        assert(all_tokens(ss)[all_tokens(p).len() + k] == ss[i][k]);
    } else {
        lemma_all_tokens_contains(p, i, k);
        let m = choose|m: int| 0 <= m < all_tokens(p).len() && all_tokens(p)[m] == ss[i][k];
        assert(all_tokens(ss)[m] == ss[i][k]);
    }
}

/// Each observation lies within the cells of the corpus.
proof fn lemma_sentence_within(ss: Seq<Seq<Seq<u8>>>, i: int)
    requires
        0 <= i < ss.len(),
    ensures
        ingest(ss[i]).subset_of(ingest(all_tokens(ss))),
{
    let f = |t: Seq<u8>| token_bit(t);
    assert forall|b: u32| ingest(ss[i]).contains(b) implies ingest(all_tokens(ss)).contains(b) by {
        let k = choose|k: int| 0 <= k < ss[i].map_values(f).len() && ss[i].map_values(f)[k] == b;
        lemma_all_tokens_contains(ss, i, k);
        let m = choose|m: int| 0 <= m < all_tokens(ss).len() && all_tokens(ss)[m] == ss[i][k];
        assert(all_tokens(ss).map_values(f)[m] == b);
    }
}

/// A union of sets within `u` stays within `u`.
proof fn lemma_union_of_within(sets: Seq<Set<u32>>, idx: Seq<usize>, u: Set<u32>)
    requires
        forall|j: int| 0 <= j < idx.len() ==> (#[trigger] idx[j] as int) < sets.len(),
        forall|i: int| 0 <= i < sets.len() ==> (#[trigger] sets[i]).subset_of(u),
    ensures
        union_of(sets, idx).subset_of(u),
    decreases idx.len(),
{
    if idx.len() > 0 {
        let p = idx.drop_last();
        assert forall|j: int| 0 <= j < p.len() implies (#[trigger] p[j] as int) < sets.len() by {
            assert(p[j] == idx[j]);
        }
        lemma_union_of_within(sets, p, u);
        assert(sets[idx.last() as int].subset_of(u));
    }
}

/// Resolution over sets within `u` stays within `u`.
proof fn lemma_resolve_within(sets: Seq<Set<u32>>, ovs: Seq<u64>, min: u64, k: int, acc: Set<u32>, u: Set<u32>)
    requires
        acc.subset_of(u),
        forall|i: int| 0 <= i < sets.len() ==> (#[trigger] sets[i]).subset_of(u),
    ensures
        resolve_from(sets, ovs, min, k, acc).subset_of(u),
    decreases sets.len() - k,
{
    if 0 <= k < sets.len() && (k == 0 || ovs[k] >= min) {
        assert(sets[k].subset_of(u));
        lemma_resolve_within(sets, ovs, min, k + 1, acc.union(sets[k]), u);
    }
}

/// Whether `top` holds, in tf-rank order, the first `min(10, |cands|)`
/// candidates ranked by their occurrences in `batch` (higher first, ties in
/// byte order).
pub open spec fn top_ranked(top: Seq<(Vec<u8>, u64)>, cands: Set<Seq<u8>>, batch: Seq<Seq<u8>>) -> bool {
    &&& top.len() == if cands.len() < 10 { cands.len() } else { 10 }
    &&& forall|k: int|
        0 <= k < top.len() ==> cands.contains((#[trigger] top[k]).0@) && top[k].1 == occurrences(
            batch,
            top[k].0@,
        )
    &&& forall|i: int, j: int|
        0 <= i < j < top.len() ==> ranked_before(
            (#[trigger] top[i]).1 as nat,
            top[i].0@,
            (#[trigger] top[j]).1 as nat,
            top[j].0@,
        )
    &&& forall|t: Seq<u8>, k: int|
        #![trigger cands.contains(t), top[k]]
        cands.contains(t) && 0 <= k < top.len() && !(exists|m: int| 0 <= m < top.len() && top[m].0@ == t)
            ==> ranked_before(top[k].1 as nat, top[k].0@, occurrences(batch, t), t)
}

/// Result of the Phase 3 pipeline.
#[derive(Debug)]
pub struct Phase3Counts {
    /// Number of observations (sentences).
    pub observations: usize,
    /// Number of experts.
    pub experts: usize,
    /// Content address of the expert leader.
    pub leader_cid: String,
    /// Overlap of the leader with the recent observation; its relevance is
    /// `leader_overlap / recent_bits`.
    pub leader_overlap: u64,
    /// Cells of the recent observation.
    pub recent_bits: u64,
    /// Cells of the resolution `F(t)`.
    pub resolved_bits: u64,
    /// Tokens materialized from `F(t)`.
    pub resolved_tokens: usize,
    /// Up to ten tf-ranked tokens from `F(t)` with their frequencies.
    pub top_tokens: Vec<(Vec<u8>, u64)>,
    /// Cells of `F(t)` that resolve through the LUT (coverage numerator).
    pub covered_bits: u64,
}

/// The sentence indices of the experts that resolution A takes, from
/// ranked position `k`: the leader's frame always, then the frame of each
/// later expert while `keep` holds of its overlap.
pub open spec fn taken_frames(frames: Seq<Seq<usize>>, ovs: Seq<u64>, keep: spec_fn(u64) -> bool, k: int) -> Seq<usize>
    decreases frames.len() - k,
{
    if k < 0 || k >= frames.len() {
        Seq::empty()
    } else if k == 0 || keep(ovs[k]) {
        frames[k] + taken_frames(frames, ovs, keep, k + 1)
    } else {
        Seq::empty()
    }
}

/// The tokens of the sentences at the given indices, in order.
pub open spec fn frame_tokens(ss: Seq<Seq<Seq<u8>>>, idx: Seq<usize>) -> Seq<Seq<u8>>
    decreases idx.len(),
{
    if idx.len() == 0 {
        Seq::empty()
    } else {
        frame_tokens(ss, idx.drop_last()) + if (idx.last() as int) < ss.len() {
            ss[idx.last() as int]
        } else {
            Seq::empty()
        }
    }
}

/// Two keep tests that agree on the overlaps take the same frames.
proof fn lemma_taken_frames_keep(frames: Seq<Seq<usize>>, ovs: Seq<u64>, k1: spec_fn(u64) -> bool, k2: spec_fn(u64) -> bool, k: int)
    requires
        frames.len() == ovs.len(),
        forall|j: int| 0 <= j < ovs.len() ==> k1(#[trigger] ovs[j]) == k2(ovs[j]),
    ensures
        taken_frames(frames, ovs, k1, k) == taken_frames(frames, ovs, k2, k),
    decreases frames.len() - k,
{
    if 0 <= k < frames.len() {
        assert(k1(ovs[k]) == k2(ovs[k]));
        lemma_taken_frames_keep(frames, ovs, k1, k2, k + 1);
    }
}

/// The tf batch of resolution B: the tokens of the sentences in the frames
/// of the experts that resolution A takes, in ranked order.
pub open spec fn phase3_batch(
    ss: Seq<Seq<Seq<u8>>>,
    params: (nat, nat, nat, nat, nat),
    batch: Seq<Seq<u8>>,
    es: Seq<Set<u32>>,
    p: Seq<usize>,
    order: Seq<usize>,
) -> bool {
    let (width, stride, window, num, den) = params;
    let recent = union_from(sentence_sets(ss), recent_start(ss.len(), window) as int);
    let ovs = set_overlaps(es, recent);
    batch == frame_tokens(
        ss,
        taken_frames(
            Seq::new(p.len(), |j: int| frame_of(order, width, stride, p[j] as nat)),
            Seq::new(p.len(), |j: int| ovs[p[j] as int]),
            |ov: u64| reaches_tau(ov as nat, recent.len(), num, den),
            0,
        ),
    )
}

/// What the pipeline produces for a resolution `f` and a tf batch `batch`
/// (the tokens of the sentences of the included experts).
pub open spec fn phase3_outcome(r: &Phase3Counts, ss: Seq<Seq<Seq<u8>>>, f: Set<u32>, batch: Seq<Seq<u8>>) -> bool {
    let cands = all_tokens(ss).to_set().filter(|t: Seq<u8>| f.contains(token_bit(t)));
    &&& f.subset_of(ingest(all_tokens(ss)))
    &&& r.resolved_bits == f.len()
    &&& batch.to_set().subset_of(all_tokens(ss).to_set())
    &&& r.resolved_tokens == cands.len()
    &&& top_ranked(r.top_tokens@, cands, batch)
}

/// Overlap of each set with the recent observation.
pub open spec fn set_overlaps(es: Seq<Set<u32>>, recent: Set<u32>) -> Seq<u64> {
    Seq::new(es.len(), |k: int| es[k].intersect(recent).len() as u64)
}

/// Resolution A at threshold `τ = num / den`: over the ranked sets, the
/// leader is always taken, a later set while its relevance reaches `τ`,
/// and the first below stops the union.
pub open spec fn resolve_tau(
    sets: Seq<Set<u32>>,
    ovs: Seq<u64>,
    rb: nat,
    num: nat,
    den: nat,
    k: int,
    acc: Set<u32>,
) -> Set<u32>
    decreases sets.len() - k,
{
    if k < 0 || k >= sets.len() {
        acc
    } else if k == 0 || reaches_tau(ovs[k] as nat, rb, num, den) {
        resolve_tau(sets, ovs, rb, num, den, k + 1, acc.union(sets[k]))
    } else {
        acc
    }
}

/// With `m` the least overlap reaching `τ`, resolving at minimal overlap
/// `m` is resolving at `τ`.
proof fn lemma_resolve_tau(sets: Seq<Set<u32>>, ovs: Seq<u64>, m: u64, rb: u64, num: nat, den: nat, k: int, acc: Set<u32>)
    requires
        sets.len() == ovs.len(),
        forall|j: int| 0 <= j < ovs.len() ==> #[trigger] ovs[j] <= rb,
        forall|ov: u64| ov <= rb ==> (ov >= m <==> #[trigger] reaches_tau(ov as nat, rb as nat, num, den)),
    ensures
        resolve_from(sets, ovs, m, k, acc) == resolve_tau(sets, ovs, rb as nat, num, den, k, acc),
    decreases sets.len() - k,
{
    if 0 <= k < sets.len() {
        assert(ovs[k] <= rb);
        assert(ovs[k] >= m <==> reaches_tau(ovs[k] as nat, rb as nat, num, den));
        lemma_resolve_tau(sets, ovs, m, rb, num, den, k + 1, acc.union(sets[k]));
    }
}

/// The MoE side of the pipeline: the expert sets `es` (within the corpus
/// cells), their ranking `p` by overlap with the recent observation, the
/// leader's overlap the largest, and `f` the resolution at `τ`.
pub open spec fn phase3_resolution(
    r: &Phase3Counts,
    ss: Seq<Seq<Seq<u8>>>,
    window: nat,
    num: nat,
    den: nat,
    f: Set<u32>,
    es: Seq<Set<u32>>,
    p: Seq<usize>,
) -> bool {
    let recent = union_from(sentence_sets(ss), recent_start(ss.len(), window) as int);
    let ovs = set_overlaps(es, recent);
    &&& es.len() == r.experts
    &&& forall|k: int| 0 <= k < es.len() ==> (#[trigger] es[k]).subset_of(ingest(all_tokens(ss)))
    &&& ranked_order(ovs, p)
    &&& forall|k: int| 0 <= k < es.len() ==> #[trigger] ovs[k] <= r.leader_overlap
    &&& exists|k: int| #![trigger ovs[k]]
        {
            &&& 0 <= k < es.len()
            &&& ovs[k] == r.leader_overlap
            &&& forall|j: int| 0 <= j < k ==> #[trigger] ovs[j] < r.leader_overlap
            &&& exists|h: HLLSet| #[trigger] h.wf() && h@ == es[k] && r.leader_cid@ == cid_spec(&h)
        }
    &&& f == resolve_tau(
        Seq::new(p.len(), |j: int| es[p[j] as int]),
        Seq::new(p.len(), |j: int| ovs[p[j] as int]),
        recent.len(),
        num,
        den,
        0,
        Set::empty(),
    )
}

/// The experts are the unions of the convolution frames of the shuffle:
/// `order` sorts the observations `obs` (the sentence HLLSets) by content
/// address, and expert `k` unions frame `k`.
pub open spec fn phase3_experts(
    ss: Seq<Seq<Seq<u8>>>,
    width: nat,
    stride: nat,
    es: Seq<Set<u32>>,
    obs: Seq<HLLSet>,
    order: Seq<usize>,
) -> bool {
    &&& obs.len() == ss.len()
    &&& forall|i: int| 0 <= i < obs.len() ==> (#[trigger] obs[i]).wf() && obs[i]@ == sentence_sets(ss)[i]
    &&& shuffled(obs_keys(obs, Seq::empty()), order)
    &&& es.len() == frame_count(ss.len(), stride)
    &&& forall|k: int| 0 <= k < es.len() ==> #[trigger] es[k] == union_of(sentence_sets(ss), frame_of(order, width, stride, k as nat))
}

/// Both sides of the outcome.
pub open spec fn phase3_witness(
    r: &Phase3Counts,
    ss: Seq<Seq<Seq<u8>>>,
    params: (nat, nat, nat, nat, nat),
    f: Set<u32>,
    batch: Seq<Seq<u8>>,
    es: Seq<Set<u32>>,
    p: Seq<usize>,
    obs: Seq<HLLSet>,
    order: Seq<usize>,
) -> bool {
    let (width, stride, window, num, den) = params;
    &&& phase3_outcome(r, ss, f, batch)
    &&& phase3_resolution(r, ss, window, num, den, f, es, p)
    &&& phase3_experts(ss, width, stride, es, obs, order)
    &&& phase3_batch(ss, params, batch, es, p, order)
}

/// The tokens of all sentences, flattened.
fn flatten_sentences(sentences: &Vec<Vec<Vec<u8>>>) -> (r: Vec<Vec<u8>>)
    ensures
        views(r@) == all_tokens(nested_views(sentences@)),
{
    let ghost ss = nested_views(sentences@);
    let mut out: Vec<Vec<u8>> = Vec::new();
    let mut i: usize = 0;
    while i < sentences.len()
        invariant
            ss == nested_views(sentences@),
            i <= sentences@.len(),
            views(out@) == all_tokens(ss.take(i as int)),
        decreases sentences@.len() - i,
    {
        let mut j: usize = 0;
        let ghost base = views(out@);
        proof {
            assert(ss[i as int] == views(sentences@[i as int]@));
        }
        while j < sentences[i].len()
            invariant
                ss == nested_views(sentences@),
                i < sentences@.len(),
                j <= sentences@[i as int]@.len(),
                views(out@) == base + ss[i as int].take(j as int),
            decreases sentences@[i as int]@.len() - j,
        {
            let t = clone_bytes(&sentences[i][j]);
            let ghost o0 = out@;
            out.push(t);
            proof {
                assert(views(out@) =~= views(o0).push(t@));
                assert(ss[i as int].take(j + 1) =~= ss[i as int].take(j as int).push(ss[i as int][j as int]));
            }
            j = j + 1;
        }
        proof {
            assert(ss[i as int].take(j as int) =~= ss[i as int]);
            assert(ss.take(i + 1).drop_last() =~= ss.take(i as int));
        }
        i = i + 1;
    }
    proof {
        assert(ss.take(i as int) =~= ss);
    }
    out
}

/// Run the MoE-ETT pipeline over the corpus sentences with threshold
/// `τ_min = tau_num / tau_den`, the recent observation being the union of
/// the last `recent_window` sentences. Coverage of `F(t)` is always full.
pub fn run_phase3(
    corpus: &str,
    width: usize,
    stride: usize,
    tau_num: u64,
    tau_den: u64,
    recent_window: usize,
) -> (r: Phase3Counts)
    requires
        width > 0,
        stride > 0,
        tau_den > 0,
        sentences_spec(corpus@).len() >= 3,
        sentences_spec(corpus@).len() + width <= usize::MAX,
        sentences_spec(corpus@).len() + stride <= usize::MAX,
    ensures
        r.observations == sentences_spec(corpus@).len(),
        r.experts == frame_count(sentences_spec(corpus@).len(), stride as nat),
        r.recent_bits == union_from(
            sentence_sets(sentences_spec(corpus@)),
            recent_start(sentences_spec(corpus@).len(), recent_window as nat) as int,
        ).len(),
        r.leader_overlap <= r.recent_bits,
        r.covered_bits == r.resolved_bits,
        exists|f: Set<u32>, batch: Seq<Seq<u8>>, es: Seq<Set<u32>>, p: Seq<usize>, obs: Seq<HLLSet>, order: Seq<usize>|
            #[trigger] phase3_witness(
            &r,
            sentences_spec(corpus@),
            (width as nat, stride as nat, recent_window as nat, tau_num as nat, tau_den as nat),
            f,
            batch,
            es,
            p,
            obs,
            order,
        ),
{
    let sentences = sentence_tokens(corpus);
    let ghost ss = sentences_spec(corpus@);
    let n = sentences.len();
    proof {
        assert(nested_views(sentences@).len() == sentences@.len());
    }
    // observations
    let mut observations: Vec<HLLSet> = Vec::new();
    let mut i: usize = 0;
    while i < n
        invariant
            n == sentences@.len(),
            nested_views(sentences@) == ss,
            i <= n,
            observations@.len() == i,
            forall|j: int| 0 <= j < i ==> (#[trigger] observations@[j]).wf() && observations@[j]@ == ingest(ss[j]),
        decreases n - i,
    {
        let o = HLLSet::from_tokens(sentences[i].as_slice());
        proof {
            assert(ss[i as int] == views(sentences@[i as int]@));
        }
        observations.push(o);
        i = i + 1;
    }
    let ghost sets = sentence_sets(ss);
    proof {
        assert(sets_of(observations@) =~= sets);
    }
    // recent observation: the union of the last `recent_window`
    let start = if n > recent_window { n - recent_window } else { 0 };
    let mut recent = HLLSet::new();
    let mut j: usize = start;
    proof {
        assert(union_from(sets.take(start as int), start as int) =~= Set::<u32>::empty());
    }
    while j < n
        invariant
            n == observations@.len(),
            n == ss.len(),
            sets == sentence_sets(ss),
            sets_of(observations@) == sets,
            forall|jj: int| 0 <= jj < n ==> (#[trigger] observations@[jj]).wf(),
            start <= j <= n,
            recent.wf(),
            recent@ == union_from(sets.take(j as int), start as int),
        decreases n - j,
    {
        recent.merge(&observations[j]);
        proof {
            assert(sets.take(j + 1).drop_last() =~= sets.take(j as int));
            assert(sets_of(observations@)[j as int] == observations@[j as int]@);
        }
        j = j + 1;
    }
    proof {
        assert(sets.take(n as int) =~= sets);
    }
    let rb = recent.popcount();
    proof {
        recent.lemma_wf();
    }
    // MoE, ETT, EL, resolution A
    let moe = MoE::from_observations(observations.as_slice(), width, stride, None);
    let ett = moe.think_tank(&recent);
    proof {
        assert(frame_count(n as nat, stride as nat) >= 1);
    }
    let m = min_overlap_for(tau_num, tau_den, rb);
    let resolved = moe.resolve(&recent, m);
    // resolution B: the frames of the included experts
    let ghost frames = Seq::new(ett@.len(), |j: int| ett@[j].expert.frame@);
    let ghost eovs = Seq::new(ett@.len(), |j: int| ett@[j].overlap);
    let ghost keep_m = |ov: u64| ov >= m;
    let mut included: Vec<usize> = Vec::new();
    let mut k: usize = 0;
    proof {
        assert(included@ + taken_frames(frames, eovs, keep_m, 0) =~= taken_frames(frames, eovs, keep_m, 0));
    }
    while k < ett.len()
        invariant_except_break
            included@ + taken_frames(frames, eovs, keep_m, k as int) == taken_frames(frames, eovs, keep_m, 0),
        invariant
            k <= ett@.len(),
            frames == Seq::new(ett@.len(), |j: int| ett@[j].expert.frame@),
            eovs == Seq::new(ett@.len(), |j: int| ett@[j].overlap),
            keep_m == (|ov: u64| ov >= m),
        ensures
            included@ == taken_frames(frames, eovs, keep_m, 0),
        decreases ett@.len() - k,
    {
        if k == 0 || ett[k].overlap >= m {
            let frame = &ett[k].expert.frame;
            let ghost i0 = included@;
            let mut q: usize = 0;
            while q < frame.len()
                invariant
                    q <= frame@.len(),
                    included@ == i0 + frame@.take(q as int),
                decreases frame@.len() - q,
            {
                included.push(frame[q]);
                proof {
                    assert(frame@.take(q + 1) =~= frame@.take(q as int).push(frame@[q as int]));
                }
                q = q + 1;
            }
            proof {
                assert(frame@.take(q as int) =~= frame@);
                assert(frames[k as int] == frame@);
                assert(i0 + taken_frames(frames, eovs, keep_m, k as int) =~= included@ + taken_frames(
                    frames,
                    eovs,
                    keep_m,
                    k + 1,
                ));
            }
        } else {
            proof {
                assert(taken_frames(frames, eovs, keep_m, k as int) =~= Seq::<usize>::empty());
                assert(included@ + Seq::<usize>::empty() =~= included@);
            }
            break;
        }
        k = k + 1;
    }
    proof {
        if k >= ett.len() {
            assert(included@ + Seq::<usize>::empty() =~= included@);
        }
    }
    // the tokens of the included sentences
    let mut batch: Vec<Vec<u8>> = Vec::new();
    let mut b: usize = 0;
    proof {
        assert(included@.take(0) =~= Seq::<usize>::empty());
        assert(views(batch@) =~= frame_tokens(ss, included@.take(0)));
    }
    while b < included.len()
        invariant
            n == sentences@.len(),
            nested_views(sentences@) == ss,
            b <= included@.len(),
            views(batch@).to_set().subset_of(all_tokens(ss).to_set()),
            views(batch@) == frame_tokens(ss, included@.take(b as int)),
        decreases included@.len() - b,
    {
        let idx = included[b];
        let ghost b00 = views(batch@);
        proof {
            assert(included@.take(b + 1).drop_last() =~= included@.take(b as int));
            assert(included@.take(b + 1).last() == idx);
        }
        if idx < n {
            let mut q: usize = 0;
            proof {
                assert(ss[idx as int] == views(sentences@[idx as int]@));
                assert(views(batch@) =~= b00 + ss[idx as int].take(0));
            }
            while q < sentences[idx].len()
                invariant
                    n == sentences@.len(),
                    nested_views(sentences@) == ss,
                    (idx as int) < n,
                    q <= sentences@[idx as int]@.len(),
                    ss[idx as int] == views(sentences@[idx as int]@),
                    views(batch@).to_set().subset_of(all_tokens(ss).to_set()),
                    views(batch@) == b00 + ss[idx as int].take(q as int),
                decreases sentences@[idx as int]@.len() - q,
            {
                let t = clone_bytes(&sentences[idx][q]);
                let ghost b0 = views(batch@);
                batch.push(t);
                proof {
                    lemma_all_tokens_contains(ss, idx as int, q as int);
                    assert(views(batch@) =~= b0.push(t@));
                    crate::bytes_order::lemma_push_to_set(b0, t@);
                    assert(ss[idx as int].take(q + 1) =~= ss[idx as int].take(q as int).push(ss[idx as int][q as int]));
                    assert(views(batch@) =~= b00 + ss[idx as int].take(q + 1));
                }
                q = q + 1;
            }
            proof {
                assert(ss[idx as int].take(q as int) =~= ss[idx as int]);
            }
        } else {
            proof {
                assert(b00 + Seq::<Seq<u8>>::empty() =~= b00);
            }
        }
        b = b + 1;
    }
    proof {
        assert(included@.take(b as int) =~= included@);
    }
    // the LUT over all corpus tokens, with TF from the batch
    let flat = flatten_sentences(&sentences);
    let mut lut = TfLut::new();
    let mut f: usize = 0;
    while f < flat.len()
        invariant
            f <= flat@.len(),
            lut.wf(),
            lut.tf_spec().dom() == views(flat@).take(f as int).to_set(),
            forall|t: Seq<u8>| #[trigger] count_of(lut.tf_spec(), t) == 0,
        decreases flat@.len() - f,
    {
        let t = clone_bytes(&flat[f]);
        let ghost tv = t@;
        let ghost before = lut.tf_spec();
        lut.register(t);
        proof {
            assert forall|u: Seq<u8>| #[trigger] count_of(lut.tf_spec(), u) == 0 by {
                assert(count_of(before, u) == 0);
                if u == tv && !before.contains_key(tv) {
                    assert(lut.tf_spec()[u] == 0);
                }
            }
            assert(views(flat@).take(f + 1) =~= views(flat@).take(f as int).push(flat@[f as int]@));
            crate::bytes_order::lemma_push_to_set(views(flat@).take(f as int), flat@[f as int]@);
        }
        f = f + 1;
    }
    proof {
        assert(views(flat@).take(f as int) =~= views(flat@));
        assert(views(flat@) == all_tokens(ss));
    }
    proof {
        assert forall|t: Seq<u8>| #[trigger] lut.tf_spec().contains_key(t) implies lut.tf_spec()[t]
            + batch@.len() <= u64::MAX by {
            assert(count_of(lut.tf_spec(), t) == 0);
            assert(batch@.len() == batch.len());
        }
    }
    let ghost tf0 = lut.tf_spec();
    lut.observe(batch.as_slice());
    proof {
        assert(lut.tf_spec().dom() =~= all_tokens(ss).to_set());
    }
    let ranked = lut.materialize(&resolved);
    let cov = lut.coverage_counts(&resolved);
    // the first ten of the ranking
    let limit = if ranked.len() < 10 { ranked.len() } else { 10 };
    let mut top: Vec<(Vec<u8>, u64)> = Vec::new();
    let mut q: usize = 0;
    while q < limit
        invariant
            limit <= ranked@.len(),
            lut.wf(),
            q <= limit,
            top@.len() == q,
            forall|kk: int| 0 <= kk < q ==> (#[trigger] top@[kk]).0@ == ranked@[kk]@ && top@[kk].1 == count_of(lut.tf_spec(), ranked@[kk]@),
        decreases limit - q,
    {
        let t = clone_bytes(&ranked[q]);
        let c = lut.tf(ranked[q].as_slice());
        top.push((t, c));
        q = q + 1;
    }
    let r = Phase3Counts {
        observations: n,
        experts: moe.experts.len(),
        leader_cid: ett[0].expert.cid.clone(),
        leader_overlap: ett[0].overlap,
        recent_bits: rb,
        resolved_bits: resolved.popcount(),
        resolved_tokens: ranked.len(),
        top_tokens: top,
        covered_bits: cov.0,
    };
    proof {
        let ghost_ovs = overlaps(moe.experts@, recent@);
        // the leader's overlap is that of some expert, within the recent cells
        let p = choose|p: Seq<usize>| {
            &&& #[trigger] ranked_order(ghost_ovs, p)
            &&& ett@.len() == p.len()
            &&& forall|jj: int| 0 <= jj < ett@.len() ==> {
                &&& same_expert(&(#[trigger] ett@[jj]).expert, &moe.experts@[p[jj] as int])
                &&& ett@[jj].overlap == ghost_ovs[p[jj] as int]
                &&& ett@[jj].recent_bits == recent@.len()
            }
        };
        assert(p.to_set().contains(p[0]));
        let e0 = p[0] as int;
        vstd::set_lib::lemma_len_subset(moe.experts@[e0].hllset@.intersect(recent@), recent@);
        assert(ett@[0].overlap == ghost_ovs[e0]);
        // F(t) lies within the corpus cells
        let u = ingest(all_tokens(ss));
        assert forall|ii: int| 0 <= ii < sets_of(observations@).len() implies (#[trigger] sets_of(observations@)[ii]).subset_of(u) by {
            lemma_sentence_within(ss, ii);
        }
        assert forall|kk: int| 0 <= kk < moe.experts@.len() implies (#[trigger] moe.experts@[kk]).hllset@.subset_of(u) by {
            lemma_union_of_within(sets_of(observations@), moe.experts@[kk].frame@, u);
        }
        let pr = choose|pr: Seq<usize>| {
            &&& #[trigger] ranked_order(overlaps(moe.experts@, recent@), pr)
            &&& resolved@ == resolve_from(
                Seq::new(pr.len(), |j: int| moe.experts@[pr[j] as int].hllset@),
                Seq::new(pr.len(), |j: int| overlaps(moe.experts@, recent@)[pr[j] as int]),
                m,
                0,
                Set::empty(),
            )
        };
        let rs = Seq::new(pr.len(), |j: int| moe.experts@[pr[j] as int].hllset@);
        assert forall|ii: int| 0 <= ii < rs.len() implies (#[trigger] rs[ii]).subset_of(u) by {
            assert(pr.to_set().contains(pr[ii]));
        }
        lemma_resolve_within(
            rs,
            Seq::new(pr.len(), |j: int| overlaps(moe.experts@, recent@)[pr[j] as int]),
            m,
            0,
            Set::empty(),
            u,
        );
        // every cell of F(t) resolves
        let dom = lut.tf_spec().dom();
        assert(dom =~= all_tokens(ss).to_set());
        let tok = |t: Seq<u8>| token_bit(t);
        let pred = |b: u32| exists|t: Seq<u8>| #[trigger] lut.tf_spec().contains_key(t) && token_bit(t) == b;
        assert forall|bb: u32| resolved@.contains(bb) implies pred(bb) by {
            assert(u.contains(bb));
            let kk = choose|kk: int| 0 <= kk < all_tokens(ss).map_values(tok).len() && all_tokens(ss).map_values(tok)[kk] == bb;
            assert(all_tokens(ss).to_set().contains(all_tokens(ss)[kk]));
            assert(lut.tf_spec().contains_key(all_tokens(ss)[kk]));
        }
        assert(resolved@.filter(pred) =~= resolved@);
        // the outcome
        let bt = views(batch@);
        let cands = all_tokens(ss).to_set().filter(|t: Seq<u8>| resolved@.contains(token_bit(t)));
        let rr = views(ranked@);
        assert(rr.to_set() =~= cands);
        rr.unique_seq_to_set();
        assert(rr.len() == ranked@.len());
        assert forall|t: Seq<u8>| #[trigger] count_of(lut.tf_spec(), t) == occurrences(bt, t) by {
            assert(count_of(tf0, t) == 0);
        }
        assert forall|kk: int| 0 <= kk < r.top_tokens@.len() implies cands.contains((#[trigger] r.top_tokens@[kk]).0@)
            && r.top_tokens@[kk].1 == occurrences(bt, r.top_tokens@[kk].0@) by {
            assert(rr[kk] == ranked@[kk]@);
            assert(rr.to_set().contains(rr[kk]));
        }
        assert forall|i1: int, j1: int| 0 <= i1 < j1 < r.top_tokens@.len() implies ranked_before(
            (#[trigger] r.top_tokens@[i1]).1 as nat,
            r.top_tokens@[i1].0@,
            (#[trigger] r.top_tokens@[j1]).1 as nat,
            r.top_tokens@[j1].0@,
        ) by {
            assert(rr[i1] == ranked@[i1]@);
            assert(rr[j1] == ranked@[j1]@);
        }
        assert forall|t: Seq<u8>, kk: int|
            #![trigger cands.contains(t), r.top_tokens@[kk]]
            cands.contains(t) && 0 <= kk < r.top_tokens@.len() && !(exists|mm: int| 0 <= mm < r.top_tokens@.len() && r.top_tokens@[mm].0@ == t)
            implies ranked_before(r.top_tokens@[kk].1 as nat, r.top_tokens@[kk].0@, occurrences(bt, t), t) by {
            assert(rr.to_set().contains(t));
            let mm = choose|mm: int| 0 <= mm < rr.len() && rr[mm] == t;
            assert(rr[mm] == ranked@[mm]@);
            if mm < r.top_tokens@.len() {
                assert(r.top_tokens@[mm].0@ == t);
            }
            assert(rr[kk] == ranked@[kk]@);
        }
        assert(top_ranked(r.top_tokens@, cands, bt));
        assert(phase3_outcome(&r, ss, resolved@, bt));
        // the MoE side
        let es = Seq::new(moe.experts@.len(), |k: int| moe.experts@[k].hllset@);
        let rs_ov = Seq::new(pr.len(), |j: int| overlaps(moe.experts@, recent@)[pr[j] as int]);
        assert(set_overlaps(es, recent@) =~= ghost_ovs);
        assert(recent@ == union_from(sentence_sets(ss), recent_start(ss.len(), recent_window as nat) as int));
        assert forall|k: int| 0 <= k < es.len() implies (#[trigger] es[k]).subset_of(u) by {
            assert(es[k] == moe.experts@[k].hllset@);
        }
        assert forall|k: int| 0 <= k < es.len() implies #[trigger] ghost_ovs[k] <= r.leader_overlap by {
            assert(p.to_set().contains(k as usize));
            let a = choose|a: int| 0 <= a < p.len() && p[a] == k as usize;
            if a > 0 {
                assert(ghost_ovs[p[0] as int] > ghost_ovs[p[a] as int] || ghost_ovs[p[0] as int] == ghost_ovs[p[a] as int]);
            }
        }
        assert(ghost_ovs[e0] == r.leader_overlap);
        // the leader is the first expert of largest overlap, under its own address
        assert forall|j: int| 0 <= j < e0 implies #[trigger] ghost_ovs[j] < r.leader_overlap by {
            assert(p.to_set().contains(j as usize));
            let a = choose|a: int| 0 <= a < p.len() && p[a] == j as usize;
            assert(a != 0);
        }
        assert(crate::moe::expert_ok(&moe.experts@[e0]));
        assert(r.leader_cid@ == moe.experts@[e0].cid@);
        assert(moe.experts@[e0].hllset.wf() && moe.experts@[e0].hllset@ == es[e0]);
        assert forall|j: int| 0 <= j < rs_ov.len() implies #[trigger] rs_ov[j] <= rb by {
            assert(pr.to_set().contains(pr[j]));
            let kk = pr[j] as int;
            vstd::set_lib::lemma_len_subset(moe.experts@[kk].hllset@.intersect(recent@), recent@);
        }
        lemma_resolve_tau(rs, rs_ov, m, rb, tau_num as nat, tau_den as nat, 0, Set::empty());
        let es_ranked = Seq::new(pr.len(), |j: int| es[pr[j] as int]);
        assert forall|j: int| 0 <= j < pr.len() implies #[trigger] es_ranked[j] == rs[j] by {
            assert(pr.to_set().contains(pr[j]));
        }
        assert(es_ranked =~= rs);
        assert(phase3_resolution(&r, ss, recent_window as nat, tau_num as nat, tau_den as nat, resolved@, es, pr));
        let order = choose|order: Seq<usize>| {
            &&& #[trigger] shuffled(obs_keys(observations@, crate::moe::salt_bytes(None)), order)
            &&& moe.experts@.len() == frame_count(observations@.len() as nat, stride as nat)
            &&& forall|k: int| 0 <= k < moe.experts@.len() ==> {
                &&& (#[trigger] moe.experts@[k]).frame@ == frame_of(order, width as nat, stride as nat, k as nat)
                &&& moe.experts@[k].hllset@ == union_of(sets_of(observations@), moe.experts@[k].frame@)
                &&& crate::moe::expert_ok(&moe.experts@[k])
            }
        };
        assert(crate::moe::salt_bytes(None) =~= Seq::<u8>::empty());
        assert forall|k: int| 0 <= k < es.len() implies #[trigger] es[k] == union_of(sentence_sets(ss), frame_of(order, width as nat, stride as nat, k as nat)) by {
            assert(es[k] == moe.experts@[k].hllset@);
        }
        assert forall|i: int| 0 <= i < observations@.len() implies (#[trigger] observations@[i]).wf() && observations@[i]@ == sentence_sets(ss)[i] by {
            assert(sets_of(observations@)[i] == observations@[i]@);
        }
        assert(phase3_experts(ss, width as nat, stride as nat, es, observations@, order));
        // resolution B: the batch holds the sentences of the taken frames
        crate::moe::lemma_ranked_unique(ghost_ovs, p, pr);
        let keep_tau = |ov: u64| reaches_tau(ov as nat, recent@.len(), tau_num as nat, tau_den as nat);
        let wframes = Seq::new(pr.len(), |j: int| frame_of(order, width as nat, stride as nat, pr[j] as nat));
        let wovs = Seq::new(pr.len(), |j: int| set_overlaps(es, recent@)[pr[j] as int]);
        assert forall|j: int| 0 <= j < frames.len() implies #[trigger] frames[j] == wframes[j] by {
            assert(pr.to_set().contains(pr[j]));
            assert(same_expert(&ett@[j].expert, &moe.experts@[pr[j] as int]));
        }
        assert(frames =~= wframes);
        assert forall|j: int| 0 <= j < eovs.len() implies #[trigger] eovs[j] == wovs[j] by {
            assert(pr.to_set().contains(pr[j]));
        }
        assert(eovs =~= wovs);
        assert forall|j: int| 0 <= j < wovs.len() implies keep_m(#[trigger] wovs[j]) == keep_tau(wovs[j]) by {
            assert(pr.to_set().contains(pr[j]));
            let kk = pr[j] as int;
            vstd::set_lib::lemma_len_subset(moe.experts@[kk].hllset@.intersect(recent@), recent@);
            assert(wovs[j] <= rb);
            assert(wovs[j] >= m <==> reaches_tau(wovs[j] as nat, rb as nat, tau_num as nat, tau_den as nat));
        }
        lemma_taken_frames_keep(wframes, wovs, keep_m, keep_tau, 0);
        assert(phase3_batch(ss, (width as nat, stride as nat, recent_window as nat, tau_num as nat, tau_den as nat), bt, es, pr, order));
        assert(phase3_witness(&r, ss, (width as nat, stride as nat, recent_window as nat, tau_num as nat, tau_den as nat), resolved@, bt, es, pr, observations@, order));
    }
    r
}

/// The pipeline is deterministic: two outcomes of the same corpus and
/// parameters have the same experts, the same leader (overlap and content
/// address) and the same resolution `F(t)`.
pub proof fn lemma_phase3_deterministic(
    r1: Phase3Counts,
    r2: Phase3Counts,
    ss: Seq<Seq<Seq<u8>>>,
    params: (nat, nat, nat, nat, nat),
    f1: Set<u32>,
    f2: Set<u32>,
    b1: Seq<Seq<u8>>,
    b2: Seq<Seq<u8>>,
    es1: Seq<Set<u32>>,
    es2: Seq<Set<u32>>,
    p1: Seq<usize>,
    p2: Seq<usize>,
    obs1: Seq<HLLSet>,
    obs2: Seq<HLLSet>,
    o1: Seq<usize>,
    o2: Seq<usize>,
)
    requires
        phase3_witness(&r1, ss, params, f1, b1, es1, p1, obs1, o1),
        phase3_witness(&r2, ss, params, f2, b2, es2, p2, obs2, o2),
    ensures
        r1.experts == r2.experts,
        r1.leader_overlap == r2.leader_overlap,
        r1.leader_cid@ == r2.leader_cid@,
        f1 == f2,
        r1.resolved_bits == r2.resolved_bits,
        b1 == b2,
{
    let (width, stride, window, num, den) = params;
    // equal observations give equal shuffle keys, hence the same shuffle
    let k1 = obs_keys(obs1, Seq::empty());
    let k2 = obs_keys(obs2, Seq::empty());
    assert forall|i: int| 0 <= i < k1.len() implies #[trigger] k1[i] == k2[i] by {
        HLLSet::lemma_positions_determined(&obs1[i], &obs2[i]);
    }
    assert(k1 =~= k2);
    crate::moe::lemma_shuffle_unique(k1, o1, o2);
    // hence the same experts
    assert forall|k: int| 0 <= k < es1.len() implies #[trigger] es1[k] == es2[k] by {
    }
    assert(es1 =~= es2);
    let recent = union_from(sentence_sets(ss), recent_start(ss.len(), window) as int);
    let ovs = set_overlaps(es1, recent);
    crate::moe::lemma_ranked_unique(ovs, p1, p2);
    // the leader: the largest overlap, first among equals
    let i1 = choose|k: int| #![trigger ovs[k]]
        {
            &&& 0 <= k < es1.len()
            &&& ovs[k] == r1.leader_overlap
            &&& forall|j: int| 0 <= j < k ==> #[trigger] ovs[j] < r1.leader_overlap
            &&& exists|h: HLLSet| #[trigger] h.wf() && h@ == es1[k] && r1.leader_cid@ == cid_spec(&h)
        };
    let i2 = choose|k: int| #![trigger ovs[k]]
        {
            &&& 0 <= k < es2.len()
            &&& ovs[k] == r2.leader_overlap
            &&& forall|j: int| 0 <= j < k ==> #[trigger] ovs[j] < r2.leader_overlap
            &&& exists|h: HLLSet| #[trigger] h.wf() && h@ == es2[k] && r2.leader_cid@ == cid_spec(&h)
        };
    assert(ovs[i1] <= r2.leader_overlap && ovs[i2] <= r1.leader_overlap);
    assert(r1.leader_overlap == r2.leader_overlap);
    if i1 < i2 {
        assert(ovs[i1] < r2.leader_overlap);
    }
    if i2 < i1 {
        assert(ovs[i2] < r1.leader_overlap);
    }
    assert(i1 == i2);
    let h1 = choose|h: HLLSet| #[trigger] h.wf() && h@ == es1[i1] && r1.leader_cid@ == cid_spec(&h);
    let h2 = choose|h: HLLSet| #[trigger] h.wf() && h@ == es2[i2] && r2.leader_cid@ == cid_spec(&h);
    HLLSet::lemma_positions_determined(&h1, &h2);
}

} // verus!
