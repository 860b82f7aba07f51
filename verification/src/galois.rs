//! The ingestion / materialization adjunction over the tier-1 LUT.
//!
//! ```text
//! I(S) ⊆ H   ⟺   S ⊆ M(H)          (S within the registered tokens)
//! M ∘ I      extensive, monotone, idempotent
//! I ∘ M      identity on the covered sub-lattice
//! ```
//!
//! `I` is [`ingest_set`] (what `HLLSet::from_tokens` computes) and `M` is
//! [`materialize_set`] (the set of tokens `candidates` returns).

use vstd::prelude::*;
use crate::hashing::token_bit;
use crate::hllset::ingest;
use crate::kstorage::{key_present, KStorage, TokenLutStorage};

verus! {

broadcast use vstd::seq_lib::group_filter_ensures;

/// `I(S)`: the cells of a set of tokens.
pub open spec fn ingest_set(s: Set<Seq<u8>>) -> Set<u32> {
    s.map(|t: Seq<u8>| token_bit(t))
}

/// `M(H)`: the registered tokens whose key is present in `h`, as a set
/// (the tokens `candidates` returns).
pub open spec fn materialize_set(lut: &TokenLutStorage, h: Set<u32>) -> Set<Seq<u8>> {
    lut.token_seq().filter(|t: Seq<u8>| key_present(lut.key_spec(t), h)).to_set()
}

/// The registered tokens, as a set.
pub open spec fn registered(lut: &TokenLutStorage) -> Set<Seq<u8>> {
    lut.token_seq().to_set()
}

/// Membership in `M(h)`: registered, and its cell in `h`.
pub proof fn lemma_materialize_member(lut: &TokenLutStorage, h: Set<u32>, t: Seq<u8>)
    ensures
        materialize_set(lut, h).contains(t) <==> (registered(lut).contains(t) && h.contains(
            token_bit(t),
        )),
{
    let p = |u: Seq<u8>| key_present(lut.key_spec(u), h);
    let f = lut.token_seq().filter(p);
    if f.contains(t) {
        let k = choose|k: int| 0 <= k < f.len() && f[k] == t;
        assert(p(f[k]));
        lut.token_seq().lemma_filter_contains_rev(p, t);
        assert(registered(lut).contains(t));
    }
    if registered(lut).contains(t) && h.contains(token_bit(t)) {
        let k = choose|k: int| 0 <= k < lut.token_seq().len() && lut.token_seq()[k] == t;
        assert(p(lut.token_seq()[k]));
        assert(f.contains(t));
    }
}

/// The Galois connection: for tokens within the LUT, `I(S) ⊆ H` exactly
/// when `S ⊆ M(H)`.
pub proof fn lemma_galois(lut: &TokenLutStorage, s: Set<Seq<u8>>, h: Set<u32>)
    requires
        lut.wf(),
        s.subset_of(registered(lut)),
    ensures
        ingest_set(s).subset_of(h) <==> s.subset_of(materialize_set(lut, h)),
{
    if ingest_set(s).subset_of(h) {
        assert forall|t: Seq<u8>| s.contains(t) implies materialize_set(lut, h).contains(t) by {
            lemma_materialize_member(lut, h, t);
            assert(ingest_set(s).contains(token_bit(t)));
        }
    }
    if s.subset_of(materialize_set(lut, h)) {
        assert forall|b: u32| ingest_set(s).contains(b) implies h.contains(b) by {
            let t = choose|t: Seq<u8>| #[trigger] s.contains(t) && token_bit(t) == b;
            lemma_materialize_member(lut, h, t);
        }
    }
}

/// `M ∘ I` is extensive: every token of the LUT is in the closure of any
/// set holding it.
pub proof fn lemma_closure_extensive(lut: &TokenLutStorage, s: Set<Seq<u8>>)
    requires
        lut.wf(),
        s.subset_of(registered(lut)),
    ensures
        s.subset_of(materialize_set(lut, ingest_set(s))),
{
    lemma_galois(lut, s, ingest_set(s));
}

/// `M ∘ I` is monotone.
pub proof fn lemma_closure_monotone(lut: &TokenLutStorage, a: Set<Seq<u8>>, b: Set<Seq<u8>>)
    requires
        a.subset_of(b),
    ensures
        materialize_set(lut, ingest_set(a)).subset_of(materialize_set(lut, ingest_set(b))),
{
    assert forall|t: Seq<u8>| materialize_set(lut, ingest_set(a)).contains(t) implies materialize_set(
        lut,
        ingest_set(b),
    ).contains(t) by {
        lemma_materialize_member(lut, ingest_set(a), t);
        lemma_materialize_member(lut, ingest_set(b), t);
        let u = choose|u: Seq<u8>| #[trigger] a.contains(u) && token_bit(u) == token_bit(t);
        assert(b.contains(u));
    }
}

/// `M ∘ I` is idempotent: closing a closed set changes nothing.
pub proof fn lemma_closure_idempotent(lut: &TokenLutStorage, s: Set<Seq<u8>>)
    requires
        lut.wf(),
    ensures
        materialize_set(lut, ingest_set(materialize_set(lut, ingest_set(s)))) == materialize_set(
            lut,
            ingest_set(s),
        ),
{
    let c = materialize_set(lut, ingest_set(s));
    let cc = materialize_set(lut, ingest_set(c));
    assert forall|t: Seq<u8>| cc.contains(t) <==> c.contains(t) by {
        lemma_materialize_member(lut, ingest_set(c), t);
        lemma_materialize_member(lut, ingest_set(s), t);
        if cc.contains(t) {
            let u = choose|u: Seq<u8>| #[trigger] c.contains(u) && token_bit(u) == token_bit(t);
            lemma_materialize_member(lut, ingest_set(s), u);
            let v = choose|v: Seq<u8>| #[trigger] s.contains(v) && token_bit(v) == token_bit(u);
            assert(ingest_set(s).contains(token_bit(v)));
        }
        if c.contains(t) {
            assert(ingest_set(c).contains(token_bit(t)));
        }
    }
    assert(cc =~= c);
}

/// `I ∘ M` is the identity on the covered sub-lattice: when every cell of
/// `h` resolves through the LUT, ingesting `M(h)` gives back `h`.
pub proof fn lemma_retract(lut: &TokenLutStorage, h: Set<u32>)
    requires
        lut.wf(),
        forall|b: u32| #[trigger] h.contains(b) ==> lut.resolves(b),
    ensures
        ingest_set(materialize_set(lut, h)) == h,
{
    let m = materialize_set(lut, h);
    assert forall|b: u32| ingest_set(m).contains(b) <==> h.contains(b) by {
        if ingest_set(m).contains(b) {
            let t = choose|t: Seq<u8>| #[trigger] m.contains(t) && token_bit(t) == b;
            lemma_materialize_member(lut, h, t);
        }
        if h.contains(b) {
            lut.lemma_resolves(b);
            let t = choose|t: Seq<u8>| #[trigger] lut.token_seq().to_set().contains(t) && token_bit(t) == b;
            lemma_materialize_member(lut, h, t);
            assert(m.contains(t));
        }
    }
    assert(ingest_set(m) =~= h);
}

/// Ingesting a token sequence gives the cells of its set of tokens.
pub proof fn lemma_ingest_seq_set(tokens: Seq<Seq<u8>>)
    ensures
        ingest(tokens) == ingest_set(tokens.to_set()),
{
    let f = |t: Seq<u8>| token_bit(t);
    assert forall|b: u32| ingest(tokens).contains(b) <==> ingest_set(tokens.to_set()).contains(b) by {
        if ingest(tokens).contains(b) {
            let k = choose|k: int| 0 <= k < tokens.map_values(f).len() && tokens.map_values(f)[k] == b;
            assert(tokens.to_set().contains(tokens[k]));
        }
        if ingest_set(tokens.to_set()).contains(b) {
            let t = choose|t: Seq<u8>| #[trigger] tokens.to_set().contains(t) && token_bit(t) == b;
            let k = choose|k: int| 0 <= k < tokens.len() && tokens[k] == t;
            assert(tokens.map_values(f)[k] == b);
        }
    }
    assert(ingest(tokens) =~= ingest_set(tokens.to_set()));
}

/// The LUT covers the ingestion of its own tokens: every cell of `I(S)`
/// resolves when `S` lies within the LUT.
pub proof fn lemma_covers_own_tokens(lut: &TokenLutStorage, s: Set<Seq<u8>>, b: u32)
    requires
        lut.wf(),
        s.subset_of(registered(lut)),
        ingest_set(s).contains(b),
    ensures
        lut.resolves(b),
{
    let t = choose|t: Seq<u8>| #[trigger] s.contains(t) && token_bit(t) == b;
    lut.lemma_resolves(b);
    assert(lut.token_seq().to_set().contains(t));
}

/// The confidence gauge reads 1 exactly under coverage: the resolved count
/// equals the cell count iff every cell of `h` resolves.
pub proof fn lemma_full_coverage_iff(lut: &TokenLutStorage, h: Set<u32>)
    requires
        h.finite(),
    ensures
        h.filter(|b: u32| lut.resolves(b)).len() == h.len() <==> forall|b: u32|
            #[trigger] h.contains(b) ==> lut.resolves(b),
{
    let p = |b: u32| lut.resolves(b);
    let f = h.filter(p);
    vstd::set_lib::lemma_len_subset(f, h);
    if f.len() == h.len() {
        if !(f =~= h) {
            let x = choose|x: u32| !(f.contains(x) <==> h.contains(x));
            assert(h.contains(x) && !f.contains(x));
            vstd::set_lib::lemma_len_subset(f, h.remove(x));
        }
        assert forall|b: u32| #[trigger] h.contains(b) implies lut.resolves(b) by {
            assert(f.contains(b));
        }
    }
    if forall|b: u32| #[trigger] h.contains(b) ==> lut.resolves(b) {
        assert(f =~= h);
    }
}

/// `I` is a conservative meet-map: `I(A ∩ B) ⊆ I(A) ∩ I(B)`.
pub proof fn lemma_ingest_meet(a: Set<Seq<u8>>, b: Set<Seq<u8>>)
    ensures
        ingest_set(a.intersect(b)).subset_of(ingest_set(a).intersect(ingest_set(b))),
{
    assert forall|c: u32| ingest_set(a.intersect(b)).contains(c) implies ingest_set(a).intersect(
        ingest_set(b),
    ).contains(c) by {
        let t = choose|t: Seq<u8>| #[trigger] a.intersect(b).contains(t) && token_bit(t) == c;
        assert(a.contains(t));
        assert(b.contains(t));
    }
}

/// `I` is an exact join-homomorphism: `I(A ∪ B) = I(A) ∪ I(B)`.
pub proof fn lemma_ingest_join(a: Set<Seq<u8>>, b: Set<Seq<u8>>)
    ensures
        ingest_set(a.union(b)) == ingest_set(a).union(ingest_set(b)),
{
    assert forall|c: u32| ingest_set(a.union(b)).contains(c) <==> ingest_set(a).union(
        ingest_set(b),
    ).contains(c) by {
        if ingest_set(a.union(b)).contains(c) {
            let t = choose|t: Seq<u8>| #[trigger] a.union(b).contains(t) && token_bit(t) == c;
            if a.contains(t) {
                assert(ingest_set(a).contains(c));
            } else {
                assert(ingest_set(b).contains(c));
            }
        }
        if ingest_set(a).contains(c) {
            let t = choose|t: Seq<u8>| #[trigger] a.contains(t) && token_bit(t) == c;
            assert(a.union(b).contains(t));
        }
        if ingest_set(b).contains(c) {
            let t = choose|t: Seq<u8>| #[trigger] b.contains(t) && token_bit(t) == c;
            assert(a.union(b).contains(t));
        }
    }
    assert(ingest_set(a.union(b)) =~= ingest_set(a).union(ingest_set(b)));
}

/// Restriction to a sub-lattice `C` commutes with join and meet.
pub proof fn lemma_restriction_homomorphism(a: Set<u32>, b: Set<u32>, c: Set<u32>)
    ensures
        a.union(b).intersect(c) == a.intersect(c).union(b.intersect(c)),
        a.intersect(b).intersect(c) == a.intersect(c).intersect(b.intersect(c)),
{
    assert(a.union(b).intersect(c) =~= a.intersect(c).union(b.intersect(c)));
    assert(a.intersect(b).intersect(c) =~= a.intersect(c).intersect(b.intersect(c)));
}

} // verus!
