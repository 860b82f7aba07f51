//! MoE / Expert Think Tank.
//!
//! ```text
//! π    = sort_by_sha1( { S_i } )            // IICA shuffle by content address
//! F_k  = { S_π(i) : i ∈ [k·s, k·s + w) }     // convolution frame
//! E_k  = ∪ F_k                               // expert
//! ρ(E) = |E ∩ R(t)| / |R(t)|                 // relevance to the recent observation
//! ETT  = experts sorted by ρ descending (stable)
//! EL   = the first of ETT
//! F(t) = EL ∪ { E_k : ρ_k ≥ τ_min }          // resolution A
//! ```
//!
//! All experts share the denominator `|R(t)|`, so relevance is carried as
//! the overlap `|E ∩ R(t)|` together with `|R(t)|`, and thresholds as a
//! minimal overlap.

use vstd::prelude::*;
use crate::bytes_order::{bytes_of, compare_bytes, lemma_lex_irrefl, lemma_lex_trans, lemma_lex_trichotomy, lex_lt};
use crate::hashing::{sha1_hex, sha1_hex_ascii, sha1_hex_ascii_spec, sha1_hex_spec};
use crate::hllset::{roaring_serialized, HLLSet};
use vstd::string::StringSliceAdditionalSpecFns;

verus! {

broadcast use vstd::seq_lib::group_seq_properties;

/// Content identifier of an HLLSet: SHA-1 hex of its serialized form.
pub open spec fn cid_spec(h: &HLLSet) -> Seq<char> {
    sha1_hex_spec(roaring_serialized(h.positions_spec()))
}

/// Shuffle key of an observation: SHA-1 hex (ASCII) of its serialized form
/// followed by the salt.
pub open spec fn shuffle_key(h: &HLLSet, salt: Seq<u8>) -> Seq<u8> {
    sha1_hex_ascii_spec(roaring_serialized(h.positions_spec()) + salt)
}

/// The shuffle keys of the observations.
pub open spec fn obs_keys(obs: Seq<HLLSet>, salt: Seq<u8>) -> Seq<Seq<u8>> {
    Seq::new(obs.len(), |i: int| shuffle_key(&obs[i], salt))
}

/// The salt bytes (empty without salt).
pub open spec fn salt_bytes(salt: Option<&str>) -> Seq<u8> {
    match salt {
        Some(s) => s.spec_bytes(),
        None => Seq::empty(),
    }
}

/// `order` sorts the indices `0..keys.len()` by key, ties by index.
pub open spec fn shuffled(keys: Seq<Seq<u8>>, order: Seq<usize>) -> bool {
    &&& order.len() == keys.len()
    &&& order.no_duplicates()
    &&& order.to_set() == Set::new(|k: usize| (k as int) < keys.len())
    &&& forall|i: int| 0 <= i < order.len() ==> (#[trigger] order[i] as int) < keys.len()
    &&& forall|a: int, b: int|
        0 <= a < b < order.len() ==> lex_lt(keys[#[trigger] order[a] as int], keys[#[trigger] order[b] as int])
            || (keys[order[a] as int] == keys[order[b] as int] && order[a] < order[b])
}

/// Number of frames: the starts `0, s, 2s, ...` below `n`.
pub open spec fn frame_count(n: nat, stride: nat) -> nat {
    if n == 0 || stride == 0 {
        0
    } else {
        ((n - 1) / (stride as int) + 1) as nat
    }
}

/// Frame `k` of the shuffled order.
pub open spec fn frame_of(order: Seq<usize>, width: nat, stride: nat, k: nat) -> Seq<usize> {
    let s: int = (k * stride) as int;
    let e: int = if s + width < order.len() { s + width } else { order.len() as int };
    order.subrange(s, e)
}

/// Union of the sets at the given indices.
pub open spec fn union_of(sets: Seq<Set<u32>>, idx: Seq<usize>) -> Set<u32>
    decreases idx.len(),
{
    if idx.len() == 0 {
        Set::empty()
    } else {
        union_of(sets, idx.drop_last()).union(sets[idx.last() as int])
    }
}

/// The cells of each observation.
pub open spec fn sets_of(obs: Seq<HLLSet>) -> Seq<Set<u32>> {
    obs.map_values(|h: HLLSet| h@)
}

/// One original observation with its content address.
#[derive(Debug)]
pub struct Observation {
    pub hllset: HLLSet,
    /// SHA-1 hex of the serialized HLLSet.
    pub cid: String,
}

impl Observation {
    /// Wrap an observation and compute its content address.
    pub fn new(hllset: HLLSet) -> (r: Observation)
        requires
            hllset.wf(),
        ensures
            r.hllset == hllset,
            r.cid@ == cid_spec(&hllset),
    {
        let bytes = hllset.to_bytes();
        let cid = sha1_hex(bytes.as_slice());
        Observation { hllset, cid }
    }
}

/// One expert: the union of a convolution frame.
#[derive(Debug)]
pub struct Expert {
    pub hllset: HLLSet,
    /// Content address of the expert union.
    pub cid: String,
    /// Original observation indices of the frame, in shuffled order.
    pub frame: Vec<usize>,
}

/// A well-formed expert: its content address is that of its union.
pub open spec fn expert_ok(e: &Expert) -> bool {
    e.hllset.wf() && e.cid@ == cid_spec(&e.hllset)
}

impl Expert {
    /// A copy of the expert.
    pub fn duplicate(&self) -> (r: Expert)
        requires
            self.hllset.wf(),
        ensures
            r.hllset.wf(),
            r.hllset@ == self.hllset@,
            r.cid@ == self.cid@,
            r.frame@ == self.frame@,
    {
        let cid = self.cid.clone();
        let frame = self.frame.clone();
        proof {
            assert(frame@ =~= self.frame@);
        }
        Expert { hllset: self.hllset.duplicate(), cid, frame }
    }
}

/// An expert with its overlap with the recent observation; the relevance
/// is `overlap / recent_bits`.
#[derive(Debug)]
pub struct RankedExpert {
    pub expert: Expert,
    /// `|E ∩ R(t)|`.
    pub overlap: u64,
    /// `|R(t)|`.
    pub recent_bits: u64,
}

/// Mixture of Experts: the convolution over a candidate collection.
#[derive(Debug)]
pub struct MoE {
    pub experts: Vec<Expert>,
}

/// Insert index `i` (larger than all indices present) into the shuffled
/// order, after every index with a key not above its key.
fn insert_by_key(order: &mut Vec<usize>, keys: &Vec<Vec<u8>>, i: usize)
    requires
        (i as int) < keys@.len(),
        forall|m: int| 0 <= m < old(order)@.len() ==> (#[trigger] old(order)@[m] as int) < i,
        shuffled_prefix(keys_view(keys@), old(order)@),
    ensures
        shuffled_prefix(keys_view(keys@), final(order)@),
        forall|m: int| 0 <= m < final(order)@.len() ==> (#[trigger] final(order)@[m] as int) <= i,
        final(order)@.to_set() == old(order)@.to_set().insert(i),
        final(order)@.len() == old(order)@.len() + 1,
{
    let ghost ks = keys_view(keys@);
    let mut k: usize = 0;
    while k < order.len()
        invariant
            ks == keys_view(keys@),
            (i as int) < keys@.len(),
            k <= order@.len(),
            shuffled_prefix(ks, order@),
            forall|m: int| 0 <= m < order@.len() ==> (#[trigger] order@[m] as int) < i,
            forall|m: int| 0 <= m < k ==> !lex_lt(ks[i as int], ks[#[trigger] order@[m] as int]),
        ensures
            k <= order@.len(),
            k < order@.len() ==> lex_lt(ks[i as int], ks[order@[k as int] as int]),
            forall|m: int| 0 <= m < k ==> !lex_lt(ks[i as int], ks[#[trigger] order@[m] as int]),
        decreases order@.len() - k,
    {
        let c = compare_bytes(keys[i].as_slice(), keys[order[k]].as_slice());
        if c == -1 {
            break;
        }
        k = k + 1;
    }
    let ghost o0 = order@;
    order.insert(k, i);
    proof {
        let o1 = order@;
        assert(o1 =~= o0.insert(k as int, i));
        assert forall|a: int, b: int| 0 <= a < b < o1.len() implies lex_lt(ks[#[trigger] o1[a] as int], ks[#[trigger] o1[b] as int])
            || (ks[o1[a] as int] == ks[o1[b] as int] && o1[a] < o1[b]) by {
            if b == k {
                lemma_lex_trichotomy(ks[i as int], ks[o0[a] as int]);
            } else if a == k {
                let bb = b - 1;
                if bb > k {
                    assert(lex_lt(ks[o0[k as int] as int], ks[o0[bb] as int]) || ks[o0[k as int] as int] == ks[o0[bb] as int]);
                    if lex_lt(ks[o0[k as int] as int], ks[o0[bb] as int]) {
                        lemma_lex_trans(ks[i as int], ks[o0[k as int] as int], ks[o0[bb] as int]);
                    }
                }
            } else if a < k && b > k {
                lemma_lex_trichotomy(ks[i as int], ks[o0[a] as int]);
                let bb = b - 1;
                assert(lex_lt(ks[i as int], ks[o0[k as int] as int]));
                if bb > k {
                    assert(lex_lt(ks[o0[k as int] as int], ks[o0[bb] as int]) || ks[o0[k as int] as int] == ks[o0[bb] as int]);
                    if lex_lt(ks[o0[k as int] as int], ks[o0[bb] as int]) {
                        lemma_lex_trans(ks[i as int], ks[o0[k as int] as int], ks[o0[bb] as int]);
                    }
                }
                // ks[o0[a]] <= ks[i] < ks[o1[b]]
                if lex_lt(ks[o0[a] as int], ks[i as int]) {
                    lemma_lex_trans(ks[o0[a] as int], ks[i as int], ks[o1[b] as int]);
                }
            } else if a > k {
                assert(o1[a] == o0[a - 1]);
                assert(o1[b] == o0[b - 1]);
            } else {
                assert(o1[a] == o0[a]);
                assert(o1[b] == o0[b]);
            }
        }
        assert(o1.no_duplicates()) by {
            assert forall|a: int, b: int| 0 <= a < o1.len() && 0 <= b < o1.len() && a != b implies o1[a] != o1[b] by {
                if a == k {
                    if b < k { assert(o1[b] == o0[b]); } else { assert(o1[b] == o0[b - 1]); }
                } else if b == k {
                    if a < k { assert(o1[a] == o0[a]); } else { assert(o1[a] == o0[a - 1]); }
                } else {
                    let aa = if a < k { a } else { a - 1 };
                    let bb = if b < k { b } else { b - 1 };
                    assert(o1[a] == o0[aa]);
                    assert(o1[b] == o0[bb]);
                }
            }
        }
        assert forall|y: usize| o1.to_set().contains(y) <==> o0.to_set().insert(i).contains(y) by {
            if o1.contains(y) {
                let m = choose|m: int| 0 <= m < o1.len() && o1[m] == y;
                if m < k { assert(o0[m] == y); } else if m > k { assert(o0[m - 1] == y); }
            }
            if o0.contains(y) {
                let m = choose|m: int| 0 <= m < o0.len() && o0[m] == y;
                if m < k { assert(o1[m] == y); } else { assert(o1[m + 1] == y); }
            }
            if y == i { assert(o1[k as int] == y); }
        }
        assert(o1.to_set() =~= o0.to_set().insert(i));
        assert forall|m: int| 0 <= m < o1.len() implies (#[trigger] o1[m] as int) <= i by {
            if m < k { assert(o1[m] == o0[m]); } else if m > k { assert(o1[m] == o0[m - 1]); }
        }
        assert forall|m: int| 0 <= m < o1.len() implies (#[trigger] o1[m] as int) < ks.len() by {
            if m < k { assert(o1[m] == o0[m]); } else if m > k { assert(o1[m] == o0[m - 1]); }
        }
    }
}

/// The keys as byte strings.
pub open spec fn keys_view(keys: Seq<Vec<u8>>) -> Seq<Seq<u8>> {
    keys.map_values(|k: Vec<u8>| k@)
}

/// A partial shuffled order: sorted by key, ties by index, no duplicates,
/// indices in range.
pub open spec fn shuffled_prefix(keys: Seq<Seq<u8>>, order: Seq<usize>) -> bool {
    &&& order.no_duplicates()
    &&& forall|i: int| 0 <= i < order.len() ==> (#[trigger] order[i] as int) < keys.len()
    &&& forall|a: int, b: int|
        0 <= a < b < order.len() ==> lex_lt(keys[#[trigger] order[a] as int], keys[#[trigger] order[b] as int])
            || (keys[order[a] as int] == keys[order[b] as int] && order[a] < order[b])
}

proof fn lemma_frame_count(n: nat, stride: nat, k: nat)
    requires
        stride > 0,
        k * stride >= n,
        k == 0 || (k - 1) * stride < n,
    ensures
        k == frame_count(n, stride),
{
    if k > 0 {
        let q = (k - 1) as int;
        assert(k * stride == q * stride + stride) by (nonlinear_arith)
            requires q == k - 1;
        assert(n >= 1) by (nonlinear_arith)
            requires q >= 0, stride > 0, q * stride < n;
        let rr = (n - 1) - q * stride;
        assert(0 <= rr < stride);
        vstd::arithmetic::div_mod::lemma_fundamental_div_mod_converse((n - 1) as int, stride as int, q, rr);
    }
}

impl MoE {
    /// Convolve the observations after the shuffle by content address.
    /// `salt` gives independent shuffles. Frame `k` holds the shuffled
    /// observations `[k·stride, k·stride + width)`.
    pub fn from_observations(
        observations: &[HLLSet],
        width: usize,
        stride: usize,
        salt: Option<&str>,
    ) -> (r: MoE)
        requires
            width > 0,
            stride > 0,
            observations@.len() + width <= usize::MAX,
            observations@.len() + stride <= usize::MAX,
            forall|i: int| 0 <= i < observations@.len() ==> (#[trigger] observations@[i]).wf(),
        ensures
            exists|order: Seq<usize>| {
                &&& #[trigger] shuffled(obs_keys(observations@, salt_bytes(salt)), order)
                &&& r.experts@.len() == frame_count(observations@.len() as nat, stride as nat)
                &&& forall|k: int| 0 <= k < r.experts@.len() ==> {
                    &&& (#[trigger] r.experts@[k]).frame@ == frame_of(order, width as nat, stride as nat, k as nat)
                    &&& r.experts@[k].hllset@ == union_of(sets_of(observations@), r.experts@[k].frame@)
                    &&& expert_ok(&r.experts@[k])
                }
            },
            forall|k: int, j: int|
                0 <= k < r.experts@.len() && 0 <= j < r.experts@[k].frame@.len() ==> (
                #[trigger] r.experts@[k].frame@[j] as int) < observations@.len(),
            forall|k: int|
                0 <= k < r.experts@.len() ==> (#[trigger] r.experts@[k]).hllset@ == union_of(
                    sets_of(observations@),
                    r.experts@[k].frame@,
                ),
    {
        let n = observations.len();
        let ghost sb = salt_bytes(salt);
        // shuffle keys
        let mut keys: Vec<Vec<u8>> = Vec::new();
        let mut i: usize = 0;
        while i < n
            invariant
                n == observations@.len(),
                forall|j: int| 0 <= j < n ==> (#[trigger] observations@[j]).wf(),
                sb == salt_bytes(salt),
                i <= n,
                keys@.len() == i,
                forall|j: int| 0 <= j < i ==> #[trigger] keys_view(keys@)[j] == shuffle_key(&observations@[j], sb),
            decreases n - i,
        {
            let mut bytes = observations[i].to_bytes();
            match salt {
                Some(s) => {
                    let sbytes = s.as_bytes();
                    let mut j: usize = 0;
                    let ghost b0 = bytes@;
                    while j < sbytes.len()
                        invariant
                            j <= sbytes@.len(),
                            bytes@ == b0 + sbytes@.take(j as int),
                        decreases sbytes@.len() - j,
                    {
                        bytes.push(sbytes[j]);
                        proof {
                            assert(sbytes@.take(j + 1) =~= sbytes@.take(j as int).push(sbytes@[j as int]));
                        }
                        j = j + 1;
                    }
                    proof {
                        assert(sbytes@.take(j as int) =~= sbytes@);
                    }
                },
                None => {
                    proof {
                        assert(bytes@ =~= bytes@ + Seq::<u8>::empty());
                    }
                },
            }
            let key = sha1_hex_ascii(bytes.as_slice());
            let ghost k0 = keys@;
            keys.push(key);
            proof {
                assert forall|j: int| 0 <= j < i + 1 implies #[trigger] keys_view(keys@)[j] == shuffle_key(&observations@[j], sb) by {
                    if j < i {
                        assert(keys@[j] == k0[j]);
                        assert(keys_view(k0)[j] == k0[j]@);
                    }
                }
            }
            i = i + 1;
        }
        let ghost ks = keys_view(keys@);
        proof {
            assert(ks =~= obs_keys(observations@, sb));
        }
        // stable sort of the indices by key
        let mut order: Vec<usize> = Vec::new();
        let mut i: usize = 0;
        proof {
            assert(order@.to_set() =~= Set::new(|k: usize| (k as int) < 0));
        }
        while i < n
            invariant
                n == keys@.len(),
                ks == keys_view(keys@),
                i <= n,
                shuffled_prefix(ks, order@),
                forall|m: int| 0 <= m < order@.len() ==> (#[trigger] order@[m] as int) < i,
                order@.len() == i,
                order@.to_set() == Set::new(|k: usize| (k as int) < i),
            decreases n - i,
        {
            let ghost before = order@.to_set();
            insert_by_key(&mut order, &keys, i);
            proof {
                assert forall|m: int| 0 <= m < order@.len() implies (#[trigger] order@[m] as int) < i + 1 by {
                }
                assert(order@.to_set() =~= Set::new(|k: usize| (k as int) < i + 1));
            }
            i = i + 1;
        }
        proof {
            assert(shuffled(obs_keys(observations@, salt_bytes(salt)), order@));
        }
        // frames
        let mut experts: Vec<Expert> = Vec::new();
        let mut start: usize = 0;
        let mut k: usize = 0;
        let ghost obs_sets = sets_of(observations@);
        while start < n
            invariant_except_break
                start == k * stride,
                k == 0 || (k - 1) * stride < n,
                experts@.len() == k,
                n <= start ==> k == frame_count(n as nat, stride as nat),
            invariant
                n == observations@.len(),
                n == order@.len(),
                n + width <= usize::MAX,
                n + stride <= usize::MAX,
                width > 0,
                stride > 0,
                obs_sets == sets_of(observations@),
                forall|j: int| 0 <= j < n ==> (#[trigger] observations@[j]).wf(),
                forall|m: int| 0 <= m < order@.len() ==> (#[trigger] order@[m] as int) < n,
                shuffled(obs_keys(observations@, salt_bytes(salt)), order@),
                forall|kk: int| 0 <= kk < experts@.len() ==> {
                    &&& (#[trigger] experts@[kk]).frame@ == frame_of(order@, width as nat, stride as nat, kk as nat)
                    &&& experts@[kk].hllset@ == union_of(obs_sets, experts@[kk].frame@)
                    &&& expert_ok(&experts@[kk])
                },
                forall|kk: int, jj: int|
                    0 <= kk < experts@.len() && 0 <= jj < experts@[kk].frame@.len() ==> (
                    #[trigger] experts@[kk].frame@[jj] as int) < n,
            ensures
                experts@.len() == frame_count(n as nat, stride as nat),
                forall|kk: int| 0 <= kk < experts@.len() ==> {
                    &&& (#[trigger] experts@[kk]).frame@ == frame_of(order@, width as nat, stride as nat, kk as nat)
                    &&& experts@[kk].hllset@ == union_of(obs_sets, experts@[kk].frame@)
                    &&& expert_ok(&experts@[kk])
                },
                forall|kk: int, jj: int|
                    0 <= kk < experts@.len() && 0 <= jj < experts@[kk].frame@.len() ==> (
                    #[trigger] experts@[kk].frame@[jj] as int) < n,
            decreases n - start,
        {
            let end = if start + width < n { start + width } else { n };
            let mut union = HLLSet::new();
            let mut frame: Vec<usize> = Vec::new();
            let mut j: usize = start;
            proof {
                assert(frame@ =~= order@.subrange(start as int, start as int));
            }
            while j < end
                invariant
                    start <= j <= end,
                    end <= n,
                    n == order@.len(),
                    n == observations@.len(),
                    obs_sets == sets_of(observations@),
                    forall|jj: int| 0 <= jj < n ==> (#[trigger] observations@[jj]).wf(),
                    forall|m: int| 0 <= m < order@.len() ==> (#[trigger] order@[m] as int) < n,
                    union.wf(),
                    frame@ == order@.subrange(start as int, j as int),
                    union@ == union_of(obs_sets, frame@),
                decreases end - j,
            {
                let idx = order[j];
                union.merge(&observations[idx]);
                let ghost f0 = frame@;
                frame.push(idx);
                proof {
                    assert(frame@ =~= order@.subrange(start as int, j + 1));
                    assert(frame@.drop_last() =~= f0);
                    assert(obs_sets[idx as int] == observations@[idx as int]@);
                }
                j = j + 1;
            }
            let bytes = union.to_bytes();
            let cid = sha1_hex(bytes.as_slice());
            let ghost e0 = experts@;
            proof {
                assert(frame@ == frame_of(order@, width as nat, stride as nat, k as nat));
            }
            experts.push(Expert { hllset: union, cid, frame });
            proof {
                assert forall|kk: int| 0 <= kk < experts@.len() implies {
                    &&& (#[trigger] experts@[kk]).frame@ == frame_of(order@, width as nat, stride as nat, kk as nat)
                    &&& experts@[kk].hllset@ == union_of(obs_sets, experts@[kk].frame@)
                    &&& expert_ok(&experts@[kk])
                } by {
                    if kk < k {
                        assert(experts@[kk] == e0[kk]);
                    }
                }
                assert forall|kk: int, jj: int|
                    0 <= kk < experts@.len() && 0 <= jj < experts@[kk].frame@.len() implies (
                    #[trigger] experts@[kk].frame@[jj] as int) < n by {
                    if kk < k {
                        assert(experts@[kk] == e0[kk]);
                    } else {
                        assert(experts@[kk].frame@[jj] == order@[start + jj]);
                    }
                }
                assert((k + 1) * stride == k * stride + stride) by (nonlinear_arith);
            }
            proof {
                assert(k <= k * stride) by (nonlinear_arith)
                    requires stride >= 1;
            }
            k = k + 1;
            if n - start <= stride {
                proof {
                    lemma_frame_count(n as nat, stride as nat, k as nat);
                }
                break;
            }
            start = start + stride;
        }
        proof {
            assert(shuffled(obs_keys(observations@, salt_bytes(salt)), order@));
        }
        MoE { experts }
    }
}

/// `p` orders the indices `0..ovs.len()` by overlap, descending; ties keep
/// the original order.
pub open spec fn ranked_order(ovs: Seq<u64>, p: Seq<usize>) -> bool {
    &&& p.len() == ovs.len()
    &&& p.no_duplicates()
    &&& p.to_set() == Set::new(|k: usize| (k as int) < ovs.len())
    &&& forall|a: int, b: int|
        0 <= a < b < p.len() ==> ovs[#[trigger] p[a] as int] > ovs[#[trigger] p[b] as int] || (ovs[p[a] as int]
            == ovs[p[b] as int] && p[a] < p[b])
}

/// Two experts hold the same union, address and frame.
pub open spec fn same_expert(a: &Expert, b: &Expert) -> bool {
    a.hllset@ == b.hllset@ && a.cid@ == b.cid@ && a.frame@ == b.frame@ && a.hllset.wf()
}

/// Overlap of each expert with the recent observation.
pub open spec fn overlaps(experts: Seq<Expert>, recent: Set<u32>) -> Seq<u64> {
    Seq::new(experts.len(), |k: int| experts[k].hllset@.intersect(recent).len() as u64)
}

/// Resolution A over the ranked experts, from position `k` with the union
/// `acc` so far: the leader (position 0) is always taken; a later expert is
/// taken while its overlap reaches `min`, and the first below stops the
/// union (the ranking is descending, so all later ones are below too).
pub open spec fn resolve_from(sets: Seq<Set<u32>>, ovs: Seq<u64>, min: u64, k: int, acc: Set<u32>) -> Set<u32>
    decreases sets.len() - k,
{
    if k < 0 || k >= sets.len() {
        acc
    } else if k == 0 || ovs[k] >= min {
        resolve_from(sets, ovs, min, k + 1, acc.union(sets[k]))
    } else {
        acc
    }
}

/// Stable ranking of indices by overlap, descending.
fn rank_order(ovs: &Vec<u64>) -> (p: Vec<usize>)
    ensures
        ranked_order(ovs@, p@),
{
    let mut p: Vec<usize> = Vec::new();
    let mut i: usize = 0;
    proof {
        assert(p@.to_set() =~= Set::new(|k: usize| (k as int) < 0));
    }
    while i < ovs.len()
        invariant
            i <= ovs@.len(),
            p@.len() == i,
            p@.no_duplicates(),
            p@.to_set() == Set::new(|k: usize| (k as int) < i),
            forall|m: int| 0 <= m < p@.len() ==> (#[trigger] p@[m] as int) < i,
            forall|a: int, b: int|
                0 <= a < b < p@.len() ==> ovs@[#[trigger] p@[a] as int] > ovs@[#[trigger] p@[b] as int] || (ovs@[p@[a] as int]
                    == ovs@[p@[b] as int] && p@[a] < p@[b]),
        decreases ovs@.len() - i,
    {
        let mut j: usize = 0;
        while j < p.len()
            invariant
                j <= p@.len(),
                (i as int) < ovs@.len(),
                forall|m: int| 0 <= m < p@.len() ==> (#[trigger] p@[m] as int) < i,
                forall|m: int| 0 <= m < j ==> ovs@[#[trigger] p@[m] as int] >= ovs@[i as int],
            ensures
                j <= p@.len(),
                j < p@.len() ==> ovs@[p@[j as int] as int] < ovs@[i as int],
                forall|m: int| 0 <= m < j ==> ovs@[#[trigger] p@[m] as int] >= ovs@[i as int],
            decreases p@.len() - j,
        {
            if ovs[p[j]] < ovs[i] {
                break;
            }
            j = j + 1;
        }
        let ghost p0 = p@;
        p.insert(j, i);
        proof {
            let p1 = p@;
            assert(p1 =~= p0.insert(j as int, i));
            assert forall|a: int, b: int| 0 <= a < b < p1.len() implies ovs@[#[trigger] p1[a] as int] > ovs@[#[trigger] p1[b] as int]
                || (ovs@[p1[a] as int] == ovs@[p1[b] as int] && p1[a] < p1[b]) by {
                if a < j && b == j {
                } else if a < j && b > j {
                    assert(p1[b] == p0[b - 1]);
                    if b - 1 > j {
                        assert(ovs@[p0[j as int] as int] >= ovs@[p0[b - 1] as int]);
                    }
                } else if a == j {
                    assert(p1[b] == p0[b - 1]);
                    if b - 1 > j {
                        assert(ovs@[p0[j as int] as int] >= ovs@[p0[b - 1] as int]);
                    }
                } else if a > j {
                    assert(p1[a] == p0[a - 1]);
                    assert(p1[b] == p0[b - 1]);
                } else {
                    assert(p1[a] == p0[a]);
                    assert(p1[b] == p0[b]);
                }
            }
            assert(p1.no_duplicates()) by {
                assert forall|a: int, b: int| 0 <= a < p1.len() && 0 <= b < p1.len() && a != b implies p1[a] != p1[b] by {
                    if a == j {
                        if b < j { assert(p1[b] == p0[b]); } else { assert(p1[b] == p0[b - 1]); }
                    } else if b == j {
                        if a < j { assert(p1[a] == p0[a]); } else { assert(p1[a] == p0[a - 1]); }
                    } else {
                        let aa = if a < j { a } else { a - 1 };
                        let bb = if b < j { b } else { b - 1 };
                        assert(p1[a] == p0[aa]);
                        assert(p1[b] == p0[bb]);
                    }
                }
            }
            assert forall|y: usize| p1.to_set().contains(y) <==> ((y as int) < i + 1) by {
                if p1.contains(y) {
                    let m = choose|m: int| 0 <= m < p1.len() && p1[m] == y;
                    if m < j { assert(p0[m] == y); } else if m > j { assert(p0[m - 1] == y); }
                }
                if (y as int) < i {
                    assert(p0.to_set().contains(y));
                    let m = choose|m: int| 0 <= m < p0.len() && p0[m] == y;
                    if m < j { assert(p1[m] == y); } else { assert(p1[m + 1] == y); }
                }
                if y == i { assert(p1[j as int] == y); }
            }
            assert(p1.to_set() =~= Set::new(|k: usize| (k as int) < i + 1));
            assert forall|m: int| 0 <= m < p1.len() implies (#[trigger] p1[m] as int) < i + 1 by {
                if m < j { assert(p1[m] == p0[m]); } else if m > j { assert(p1[m] == p0[m - 1]); }
            }
        }
        i = i + 1;
    }
    p
}

impl MoE {
    /// Well-formed experts.
    pub open spec fn wf(&self) -> bool {
        forall|k: int| 0 <= k < self.experts@.len() ==> expert_ok(&#[trigger] self.experts@[k])
    }

    fn overlap_vec(&self, recent: &HLLSet) -> (r: Vec<u64>)
        requires
            self.wf(),
            recent.wf(),
        ensures
            r@ == overlaps(self.experts@, recent@),
    {
        let mut r: Vec<u64> = Vec::new();
        let mut k: usize = 0;
        while k < self.experts.len()
            invariant
                self.wf(),
                recent.wf(),
                k <= self.experts@.len(),
                r@ == overlaps(self.experts@, recent@).take(k as int),
            decreases self.experts@.len() - k,
        {
            let ov = crate::setkey::overlap(&self.experts[k].hllset, recent);
            r.push(ov);
            proof {
                assert(r@ =~= overlaps(self.experts@, recent@).take(k + 1));
            }
            k = k + 1;
        }
        proof {
            assert(r@ =~= overlaps(self.experts@, recent@));
        }
        r
    }

    /// Expert Think Tank: the experts ranked by overlap with the recent
    /// observation, descending; ties keep frame order.
    pub fn think_tank(&self, recent: &HLLSet) -> (r: Vec<RankedExpert>)
        requires
            self.wf(),
            recent.wf(),
        ensures
            exists|p: Seq<usize>| {
                &&& #[trigger] ranked_order(overlaps(self.experts@, recent@), p)
                &&& r@.len() == p.len()
                &&& forall|j: int| 0 <= j < r@.len() ==> {
                    &&& same_expert(&(#[trigger] r@[j]).expert, &self.experts@[p[j] as int])
                    &&& r@[j].overlap == overlaps(self.experts@, recent@)[p[j] as int]
                    &&& r@[j].recent_bits == recent@.len()
                }
            },
    {
        let ovs = self.overlap_vec(recent);
        let p = rank_order(&ovs);
        let rb = recent.popcount();
        let mut r: Vec<RankedExpert> = Vec::new();
        let mut j: usize = 0;
        while j < p.len()
            invariant
                self.wf(),
                recent.wf(),
                ovs@ == overlaps(self.experts@, recent@),
                ranked_order(ovs@, p@),
                rb == recent@.len(),
                j <= p@.len(),
                r@.len() == j,
                forall|jj: int| 0 <= jj < j ==> {
                    &&& same_expert(&(#[trigger] r@[jj]).expert, &self.experts@[p@[jj] as int])
                    &&& r@[jj].overlap == ovs@[p@[jj] as int]
                    &&& r@[jj].recent_bits == recent@.len()
                },
            decreases p@.len() - j,
        {
            let k = p[j];
            proof {
                assert(p@.to_set().contains(k));
            }
            let e = self.experts[k].duplicate();
            let ghost r0 = r@;
            r.push(RankedExpert { expert: e, overlap: ovs[k], recent_bits: rb });
            proof {
                assert forall|jj: int| 0 <= jj < j + 1 implies {
                    &&& same_expert(&(#[trigger] r@[jj]).expert, &self.experts@[p@[jj] as int])
                    &&& r@[jj].overlap == ovs@[p@[jj] as int]
                    &&& r@[jj].recent_bits == recent@.len()
                } by {
                    if jj < j {
                        assert(r@[jj] == r0[jj]);
                    }
                }
            }
            j = j + 1;
        }
        r
    }

    /// Expert Leader: the first expert of the think tank (`None` without
    /// experts). Its overlap is the largest of all experts.
    pub fn expert_leader(&self, recent: &HLLSet) -> (r: Option<Expert>)
        requires
            self.wf(),
            recent.wf(),
        ensures
            self.experts@.len() == 0 <==> r is None,
            r matches Some(e) ==> exists|k: int| 0 <= k < self.experts@.len() && same_expert(&e, &self.experts@[k])
                && forall|j: int| 0 <= j < self.experts@.len() ==> #[trigger] overlaps(self.experts@, recent@)[j]
                    <= overlaps(self.experts@, recent@)[k] && (overlaps(self.experts@, recent@)[j]
                    == overlaps(self.experts@, recent@)[k] ==> k <= j),
    {
        let mut ranked = self.think_tank(recent);
        if ranked.len() == 0 {
            None
        } else {
            let ghost ovs = overlaps(self.experts@, recent@);
            let ghost p = choose|p: Seq<usize>| {
                &&& #[trigger] ranked_order(ovs, p)
                &&& ranked@.len() == p.len()
                &&& forall|j: int| 0 <= j < ranked@.len() ==> {
                    &&& same_expert(&(#[trigger] ranked@[j]).expert, &self.experts@[p[j] as int])
                    &&& ranked@[j].overlap == ovs[p[j] as int]
                    &&& ranked@[j].recent_bits == recent@.len()
                }
            };
            let first = ranked.remove(0);
            proof {
                let k = p[0] as int;
                assert(p.to_set().contains(p[0]));
                assert forall|j: int| 0 <= j < self.experts@.len() implies #[trigger] ovs[j] <= ovs[k] && (ovs[j] == ovs[k] ==> k <= j) by {
                    let ju = j as usize;
                    assert(p.to_set().contains(ju));
                    let a = choose|a: int| 0 <= a < p.len() && p[a] == ju;
                    if a > 0 {
                        assert(ovs[p[0] as int] > ovs[p[a] as int] || (ovs[p[0] as int] == ovs[p[a] as int] && p[0] < p[a]));
                    }
                }
            }
            Some(first.expert)
        }
    }

    /// Resolution A: `F(t) = EL ∪ { E_k : overlap_k ≥ min_overlap }` over the
    /// ranked experts; the leader is always taken, and a later expert joins
    /// while its overlap reaches `min_overlap`; the first expert below stops
    /// the union.
    pub fn resolve(&self, recent: &HLLSet, min_overlap: u64) -> (r: HLLSet)
        requires
            self.wf(),
            recent.wf(),
        ensures
            r.wf(),
            exists|p: Seq<usize>| {
                &&& #[trigger] ranked_order(overlaps(self.experts@, recent@), p)
                &&& r@ == resolve_from(
                    Seq::new(p.len(), |j: int| self.experts@[p[j] as int].hllset@),
                    Seq::new(p.len(), |j: int| overlaps(self.experts@, recent@)[p[j] as int]),
                    min_overlap,
                    0,
                    Set::empty(),
                )
            },
    {
        let ranked = self.think_tank(recent);
        let ghost ovs = overlaps(self.experts@, recent@);
        let ghost p = choose|p: Seq<usize>| {
            &&& #[trigger] ranked_order(ovs, p)
            &&& ranked@.len() == p.len()
            &&& forall|j: int| 0 <= j < ranked@.len() ==> {
                &&& same_expert(&(#[trigger] ranked@[j]).expert, &self.experts@[p[j] as int])
                &&& ranked@[j].overlap == ovs[p[j] as int]
                &&& ranked@[j].recent_bits == recent@.len()
            }
        };
        let ghost sets = Seq::new(p.len(), |j: int| self.experts@[p[j] as int].hllset@);
        let ghost ov = Seq::new(p.len(), |j: int| ovs[p[j] as int]);
        let mut f = HLLSet::new();
        let mut j: usize = 0;
        while j < ranked.len()
            invariant_except_break
                resolve_from(sets, ov, min_overlap, j as int, f@) == resolve_from(sets, ov, min_overlap, 0, Set::empty()),
            invariant
                f.wf(),
                j <= ranked@.len(),
                ranked@.len() == p.len(),
                sets == Seq::new(p.len(), |j: int| self.experts@[p[j] as int].hllset@),
                ov == Seq::new(p.len(), |j: int| ovs[p[j] as int]),
                sets.len() == p.len(),
                ov.len() == p.len(),
                forall|jj: int| 0 <= jj < ranked@.len() ==> {
                    &&& same_expert(&(#[trigger] ranked@[jj]).expert, &self.experts@[p[jj] as int])
                    &&& ranked@[jj].overlap == ovs[p[jj] as int]
                },
            ensures
                f.wf(),
                f@ == resolve_from(sets, ov, min_overlap, 0, Set::empty()),
            decreases ranked@.len() - j,
        {
            proof {
                assert(ranked@[j as int].overlap == ov[j as int]);
                assert(ranked@[j as int].expert.hllset@ == sets[j as int]);
            }
            if j == 0 || ranked[j].overlap >= min_overlap {
                f.merge(&ranked[j].expert.hllset);
            } else {
                break;
            }
            j = j + 1;
        }
        f
    }
}

/// Resolution only grows the union taken so far.
pub proof fn lemma_resolve_grows(sets: Seq<Set<u32>>, ovs: Seq<u64>, min: u64, k: int, acc: Set<u32>)
    ensures
        acc.subset_of(resolve_from(sets, ovs, min, k, acc)),
    decreases sets.len() - k,
{
    if 0 <= k < sets.len() && (k == 0 || ovs[k] >= min) {
        lemma_resolve_grows(sets, ovs, min, k + 1, acc.union(sets[k]));
    }
}

/// The leader is always part of the resolution: `EL ⊆ F(t)`.
pub proof fn lemma_leader_in_resolution(sets: Seq<Set<u32>>, ovs: Seq<u64>, min: u64)
    requires
        sets.len() > 0,
    ensures
        sets[0].subset_of(resolve_from(sets, ovs, min, 0, Set::empty())),
{
    assert(Set::<u32>::empty().union(sets[0]) =~= sets[0]);
    lemma_resolve_grows(sets, ovs, min, 1, sets[0]);
}

/// A lower threshold resolves to a superset: the resolution is monotone in
/// `τ_min`.
pub proof fn lemma_resolve_monotone(sets: Seq<Set<u32>>, ovs: Seq<u64>, lo: u64, hi: u64, k: int, acc: Set<u32>)
    requires
        lo <= hi,
    ensures
        resolve_from(sets, ovs, hi, k, acc).subset_of(resolve_from(sets, ovs, lo, k, acc)),
    decreases sets.len() - k,
{
    if 0 <= k < sets.len() {
        let take_hi = k == 0 || ovs[k] >= hi;
        let take_lo = k == 0 || ovs[k] >= lo;
        if take_hi {
            lemma_resolve_monotone(sets, ovs, lo, hi, k + 1, acc.union(sets[k]));
        } else if take_lo {
            lemma_resolve_grows(sets, ovs, lo, k + 1, acc.union(sets[k]));
        }
    }
}

/// Index `x` comes before index `y` in the shuffle: smaller key, or the
/// same key and a smaller index.
pub open spec fn shuffle_before(keys: Seq<Seq<u8>>, x: usize, y: usize) -> bool {
    lex_lt(keys[x as int], keys[y as int]) || (keys[x as int] == keys[y as int] && x < y)
}

proof fn lemma_shuffle_before_asym(keys: Seq<Seq<u8>>, x: usize, y: usize)
    requires
        shuffle_before(keys, x, y),
    ensures
        !shuffle_before(keys, y, x),
{
    let a = keys[x as int];
    let b = keys[y as int];
    if lex_lt(a, b) && lex_lt(b, a) {
        lemma_lex_trans(a, b, a);
        lemma_lex_irrefl(a);
    }
    if a == b {
        lemma_lex_irrefl(a);
    }
}

proof fn lemma_drop_first_to_set(s: Seq<usize>)
    requires
        s.len() > 0,
        s.no_duplicates(),
    ensures
        s.drop_first().to_set() == s.to_set().remove(s[0]),
{
    assert forall|y: usize| s.drop_first().to_set().contains(y) <==> s.to_set().remove(s[0]).contains(y) by {
        if s.drop_first().contains(y) {
            let k = choose|k: int| 0 <= k < s.drop_first().len() && s.drop_first()[k] == y;
            assert(s[k + 1] == y);
            assert(s.contains(y));
        }
        if s.to_set().remove(s[0]).contains(y) {
            let k = choose|k: int| 0 <= k < s.len() && s[k] == y;
            assert(k != 0);
            assert(s.drop_first()[k - 1] == y);
        }
    }
    assert(s.drop_first().to_set() =~= s.to_set().remove(s[0]));
}

proof fn lemma_sorted_same_set(keys: Seq<Seq<u8>>, a: Seq<usize>, b: Seq<usize>)
    requires
        a.no_duplicates(),
        b.no_duplicates(),
        a.to_set() == b.to_set(),
        forall|i: int| 0 <= i < a.len() ==> (#[trigger] a[i] as int) < keys.len(),
        forall|i: int| 0 <= i < b.len() ==> (#[trigger] b[i] as int) < keys.len(),
        forall|i: int, j: int| 0 <= i < j < a.len() ==> shuffle_before(keys, #[trigger] a[i], #[trigger] a[j]),
        forall|i: int, j: int| 0 <= i < j < b.len() ==> shuffle_before(keys, #[trigger] b[i], #[trigger] b[j]),
    ensures
        a == b,
    decreases a.len(),
{
    if a.len() == 0 {
        if b.len() > 0 {
            assert(b.to_set().contains(b[0]));
        }
        assert(a =~= b);
    } else {
        assert(a.to_set().contains(a[0]));
        assert(b.len() > 0);
        assert(b.to_set().contains(b[0]));
        let p = choose|p: int| 0 <= p < b.len() && b[p] == a[0];
        let q = choose|q: int| 0 <= q < a.len() && a[q] == b[0];
        if a[0] != b[0] {
            assert(p > 0 && q > 0);
            assert(shuffle_before(keys, b[0], b[p]));
            assert(shuffle_before(keys, a[0], a[q]));
            lemma_shuffle_before_asym(keys, a[0], b[0]);
        }
        lemma_drop_first_to_set(a);
        lemma_drop_first_to_set(b);
        let a1 = a.drop_first();
        let b1 = b.drop_first();
        assert forall|i: int, j: int| 0 <= i < j < a1.len() implies shuffle_before(keys, #[trigger] a1[i], #[trigger] a1[j]) by {
            assert(a1[i] == a[i + 1] && a1[j] == a[j + 1]);
        }
        assert forall|i: int, j: int| 0 <= i < j < b1.len() implies shuffle_before(keys, #[trigger] b1[i], #[trigger] b1[j]) by {
            assert(b1[i] == b[i + 1] && b1[j] == b[j + 1]);
        }
        assert forall|i: int| 0 <= i < a1.len() implies (#[trigger] a1[i] as int) < keys.len() by {
            assert(a1[i] == a[i + 1]);
        }
        assert forall|i: int| 0 <= i < b1.len() implies (#[trigger] b1[i] as int) < keys.len() by {
            assert(b1[i] == b[i + 1]);
        }
        lemma_sorted_same_set(keys, a1, b1);
        assert(a =~= b);
    }
}

/// The IICA shuffle is deterministic: the order that sorts the observations
/// by key (ties by index) is unique, so equal keys give equal experts.
pub proof fn lemma_shuffle_unique(keys: Seq<Seq<u8>>, o1: Seq<usize>, o2: Seq<usize>)
    requires
        shuffled(keys, o1),
        shuffled(keys, o2),
    ensures
        o1 == o2,
{
    assert forall|i: int, j: int| 0 <= i < j < o1.len() implies shuffle_before(keys, #[trigger] o1[i], #[trigger] o1[j]) by {
    }
    assert forall|i: int, j: int| 0 <= i < j < o2.len() implies shuffle_before(keys, #[trigger] o2[i], #[trigger] o2[j]) by {
    }
    lemma_sorted_same_set(keys, o1, o2);
}

/// Index `x` ranks before index `y`: larger overlap, or the same overlap
/// and a smaller index.
pub open spec fn rank_before(ovs: Seq<u64>, x: usize, y: usize) -> bool {
    ovs[x as int] > ovs[y as int] || (ovs[x as int] == ovs[y as int] && x < y)
}

proof fn lemma_ranked_same_set(ovs: Seq<u64>, a: Seq<usize>, b: Seq<usize>)
    requires
        a.no_duplicates(),
        b.no_duplicates(),
        a.to_set() == b.to_set(),
        forall|i: int, j: int| 0 <= i < j < a.len() ==> rank_before(ovs, #[trigger] a[i], #[trigger] a[j]),
        forall|i: int, j: int| 0 <= i < j < b.len() ==> rank_before(ovs, #[trigger] b[i], #[trigger] b[j]),
    ensures
        a == b,
    decreases a.len(),
{
    if a.len() == 0 {
        if b.len() > 0 {
            assert(b.to_set().contains(b[0]));
        }
        assert(a =~= b);
    } else {
        assert(a.to_set().contains(a[0]));
        assert(b.len() > 0);
        assert(b.to_set().contains(b[0]));
        let p = choose|p: int| 0 <= p < b.len() && b[p] == a[0];
        let q = choose|q: int| 0 <= q < a.len() && a[q] == b[0];
        if a[0] != b[0] {
            assert(p > 0 && q > 0);
            assert(rank_before(ovs, b[0], b[p]));
            assert(rank_before(ovs, a[0], a[q]));
        }
        lemma_drop_first_to_set(a);
        lemma_drop_first_to_set(b);
        let a1 = a.drop_first();
        let b1 = b.drop_first();
        assert forall|i: int, j: int| 0 <= i < j < a1.len() implies rank_before(ovs, #[trigger] a1[i], #[trigger] a1[j]) by {
            assert(a1[i] == a[i + 1] && a1[j] == a[j + 1]);
        }
        assert forall|i: int, j: int| 0 <= i < j < b1.len() implies rank_before(ovs, #[trigger] b1[i], #[trigger] b1[j]) by {
            assert(b1[i] == b[i + 1] && b1[j] == b[j + 1]);
        }
        lemma_ranked_same_set(ovs, a1, b1);
        assert(a =~= b);
    }
}

/// The think tank is deterministic: the stable ranking of the experts by
/// overlap (descending, ties by index) is unique.
pub proof fn lemma_ranked_unique(ovs: Seq<u64>, p1: Seq<usize>, p2: Seq<usize>)
    requires
        ranked_order(ovs, p1),
        ranked_order(ovs, p2),
    ensures
        p1 == p2,
{
    assert forall|i: int, j: int| 0 <= i < j < p1.len() implies rank_before(ovs, #[trigger] p1[i], #[trigger] p1[j]) by {
    }
    assert forall|i: int, j: int| 0 <= i < j < p2.len() implies rank_before(ovs, #[trigger] p2[i], #[trigger] p2[j]) by {
    }
    lemma_ranked_same_set(ovs, p1, p2);
}

/// Frame `k` of a convolution with window `width` and step `stride` starts
/// at position `k·stride` of the shuffled order and holds the next `width`
/// observations, fewer only where the order ends: its length is
/// `min(width, n - k·stride)`, set by the window, not by the step.
pub proof fn lemma_frame_shape(order: Seq<usize>, width: nat, stride: nat, k: nat)
    requires
        k * stride < order.len(),
    ensures
        frame_of(order, width, stride, k).len() == if width <= order.len() - k * stride {
            width as int
        } else {
            order.len() - k * stride
        },
        forall|j: int|
            0 <= j < frame_of(order, width, stride, k).len() ==> #[trigger] frame_of(order, width, stride, k)[j]
                == order[k * stride + j],
{
}

} // verus!
