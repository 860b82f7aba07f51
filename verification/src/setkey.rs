//! HLLSet-native attention scores (Mode B), as exact bit counts: the
//! overlap popcount `|A ∩ B|` and the BSS coverage `|C ∩ Q| / |Q|`,
//! given as numerator and denominator.

use vstd::prelude::*;
use crate::hllset::HLLSet;

verus! {

/// Overlap popcount: `|A ∩ B|`, an exact bit count.
pub fn overlap(a: &HLLSet, b: &HLLSet) -> (r: u64)
    requires
        a.wf(),
        b.wf(),
    ensures
        r == a@.intersect(b@).len(),
{
    a.intersection(b).popcount()
}

/// BSS coverage of `query` by `context`, as `(|context ∩ query|, |query|)`.
pub fn bss_coverage_counts(context: &HLLSet, query: &HLLSet) -> (r: (u64, u64))
    requires
        context.wf(),
        query.wf(),
    ensures
        r.0 == context@.intersect(query@).len(),
        r.1 == query@.len(),
        r.0 <= r.1,
{
    let i = context.intersection(query);
    proof {
        query.lemma_wf();
        vstd::set_lib::lemma_len_subset(context@.intersect(query@), query@);
    }
    (i.popcount(), query.popcount())
}

/// Exact-bit Jaccard counts: `(|A ∩ B|, |A ∪ B|)`.
pub fn jaccard_counts(a: &HLLSet, b: &HLLSet) -> (r: (u64, u64))
    requires
        a.wf(),
        b.wf(),
    ensures
        r.0 == a@.intersect(b@).len(),
        r.1 == a@.union(b@).len(),
        r.0 <= r.1,
{
    let i = a.intersection(b);
    let u = a.union(b);
    proof {
        u.lemma_wf();
        vstd::set_lib::lemma_len_subset(a@.intersect(b@), a@.union(b@));
    }
    (i.popcount(), u.popcount())
}

/// The Jaccard counts of a set with itself agree: similarity 1.
pub proof fn lemma_jaccard_identical(a: Set<u32>)
    ensures
        a.intersect(a).len() == a.union(a).len(),
{
    assert(a.intersect(a) =~= a.union(a));
}

/// A context that covers the query has full BSS coverage:
/// `Q ⊆ C ⟹ |C ∩ Q| = |Q|`.
pub proof fn lemma_bss_full_when_covered(context: Set<u32>, query: Set<u32>)
    requires
        query.subset_of(context),
    ensures
        context.intersect(query).len() == query.len(),
{
    assert(context.intersect(query) =~= query);
}

/// The two directions of BSS share their numerator: `|A ∩ B| = |B ∩ A|`.
pub proof fn lemma_bss_symmetric_numerator(a: Set<u32>, b: Set<u32>)
    ensures
        a.intersect(b).len() == b.intersect(a).len(),
{
    assert(a.intersect(b) =~= b.intersect(a));
}

} // verus!
