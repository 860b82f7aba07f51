//! Byte strings in lexicographic order (the order of `[u8]`), and sorted,
//! duplicate-free vectors of byte strings used as sets.

use vstd::prelude::*;

verus! {

/// Lexicographic "less than" on byte strings: the first differing byte
/// decides; a proper prefix is smaller.
pub open spec fn lex_lt(a: Seq<u8>, b: Seq<u8>) -> bool
    decreases a.len(),
{
    if a.len() == 0 {
        b.len() > 0
    } else if b.len() == 0 {
        false
    } else if a[0] < b[0] {
        true
    } else if a[0] > b[0] {
        false
    } else {
        lex_lt(a.drop_first(), b.drop_first())
    }
}

/// No byte string is below itself.
pub proof fn lemma_lex_irrefl(a: Seq<u8>)
    ensures
        !lex_lt(a, a),
    decreases a.len(),
{
    if a.len() > 0 {
        lemma_lex_irrefl(a.drop_first());
    }
}

/// Exactly one of `a < b`, `a == b`, `b < a` holds.
pub proof fn lemma_lex_trichotomy(a: Seq<u8>, b: Seq<u8>)
    ensures
        lex_lt(a, b) || a == b || lex_lt(b, a),
        !(lex_lt(a, b) && lex_lt(b, a)),
        lex_lt(a, b) ==> a != b,
    decreases a.len(),
{
    if a.len() == 0 || b.len() == 0 {
        if a.len() == 0 && b.len() == 0 {
            assert(a =~= b);
        }
        if a.len() == 0 {
            lemma_lex_irrefl(a);
        }
    } else if a[0] == b[0] {
        lemma_lex_trichotomy(a.drop_first(), b.drop_first());
        if a.drop_first() == b.drop_first() {
            assert(a =~= seq![a[0]] + a.drop_first());
            assert(b =~= seq![b[0]] + b.drop_first());
        }
        if lex_lt(a, b) {
            lemma_lex_irrefl(a.drop_first());
        }
    }
}

/// Lexicographic order is transitive.
pub proof fn lemma_lex_trans(a: Seq<u8>, b: Seq<u8>, c: Seq<u8>)
    requires
        lex_lt(a, b),
        lex_lt(b, c),
    ensures
        lex_lt(a, c),
    decreases a.len(),
{
    if a.len() > 0 && b.len() > 0 && c.len() > 0 {
        if a[0] == b[0] && b[0] == c[0] {
            lemma_lex_trans(a.drop_first(), b.drop_first(), c.drop_first());
        }
    }
}

/// Equal prefixes can be skipped when comparing.
proof fn lemma_lex_skip(a: Seq<u8>, b: Seq<u8>, i: int)
    requires
        0 <= i <= a.len(),
        i <= b.len(),
        a.take(i) == b.take(i),
    ensures
        lex_lt(a, b) == lex_lt(a.skip(i), b.skip(i)),
    decreases i,
{
    if i > 0 {
        assert(a[0] == a.take(i)[0]);
        assert(b[0] == b.take(i)[0]);
        assert(a.drop_first().take(i - 1) =~= a.take(i).drop_first());
        assert(b.drop_first().take(i - 1) =~= b.take(i).drop_first());
        lemma_lex_skip(a.drop_first(), b.drop_first(), i - 1);
        assert(a.drop_first().skip(i - 1) =~= a.skip(i));
        assert(b.drop_first().skip(i - 1) =~= b.skip(i));
    } else {
        assert(a.skip(0) =~= a);
        assert(b.skip(0) =~= b);
    }
}

/// Three-way comparison of byte strings: `-1` if `a < b`, `0` if equal,
/// `1` if `a > b`.
pub fn compare_bytes(a: &[u8], b: &[u8]) -> (r: i8)
    ensures
        r == -1 <==> lex_lt(a@, b@),
        r == 0 <==> a@ == b@,
        r == 1 <==> lex_lt(b@, a@),
        r == -1 || r == 0 || r == 1,
{
    let mut i: usize = 0;
    while i < a.len() && i < b.len()
        invariant
            i <= a@.len(),
            i <= b@.len(),
            a@.take(i as int) == b@.take(i as int),
        decreases a@.len() - i,
    {
        if a[i] != b[i] {
            proof {
                lemma_lex_skip(a@, b@, i as int);
                lemma_lex_skip(b@, a@, i as int);
                lemma_lex_trichotomy(a@, b@);
                assert(a@.skip(i as int)[0] == a@[i as int]);
                assert(b@.skip(i as int)[0] == b@[i as int]);
            }
            if a[i] < b[i] {
                return -1;
            } else {
                return 1;
            }
        }
        proof {
            assert(a@.take(i + 1) =~= a@.take(i as int).push(a@[i as int]));
            assert(b@.take(i + 1) =~= b@.take(i as int).push(b@[i as int]));
        }
        i = i + 1;
    }
    proof {
        lemma_lex_skip(a@, b@, i as int);
        lemma_lex_skip(b@, a@, i as int);
        lemma_lex_trichotomy(a@, b@);
    }
    if a.len() == b.len() {
        proof {
            assert(a@ =~= a@.take(i as int));
            assert(b@ =~= b@.take(i as int));
        }
        0
    } else if a.len() < b.len() {
        -1
    } else {
        1
    }
}

/// Byte-string equality.
pub fn bytes_eq(a: &[u8], b: &[u8]) -> (r: bool)
    ensures
        r == (a@ == b@),
{
    compare_bytes(a, b) == 0
}

/// Byte-string "less than".
pub fn bytes_lt(a: &[u8], b: &[u8]) -> (r: bool)
    ensures
        r == lex_lt(a@, b@),
{
    compare_bytes(a, b) == -1
}

/// A copy of a byte vector.
pub fn clone_bytes(v: &Vec<u8>) -> (r: Vec<u8>)
    ensures
        r@ == v@,
{
    let r = v.clone();
    proof {
        assert(r@ =~= v@);
    }
    r
}

/// An owned copy of a byte slice.
pub fn bytes_of(s: &[u8]) -> (r: Vec<u8>)
    ensures
        r@ == s@,
{
    let mut r: Vec<u8> = Vec::new();
    let mut i: usize = 0;
    while i < s.len()
        invariant
            i <= s@.len(),
            r@ == s@.take(i as int),
        decreases s@.len() - i,
    {
        r.push(s[i]);
        proof {
            assert(s@.take(i + 1) =~= s@.take(i as int).push(s@[i as int]));
        }
        i = i + 1;
    }
    proof {
        assert(s@.take(i as int) =~= s@);
    }
    r
}

/// The views of a vector of byte vectors.
pub open spec fn views(v: Seq<Vec<u8>>) -> Seq<Seq<u8>> {
    v.map_values(|x: Vec<u8>| x@)
}

/// A copy of a vector of byte vectors.
pub fn clone_all(v: &[Vec<u8>]) -> (r: Vec<Vec<u8>>)
    ensures
        views(r@) == views(v@),
{
    let mut r: Vec<Vec<u8>> = Vec::new();
    let mut i: usize = 0;
    while i < v.len()
        invariant
            i <= v@.len(),
            r@.len() == i,
            views(r@) == views(v@).take(i as int),
        decreases v@.len() - i,
    {
        let c = clone_bytes(&v[i]);
        let ghost r0 = r@;
        r.push(c);
        proof {
            assert(r@ =~= r0.push(c));
            assert(views(r@).len() == i + 1);
            assert forall|k: int| 0 <= k < i + 1 implies #[trigger] views(r@)[k] == views(v@).take(i + 1)[k] by {
                if k < i {
                    assert(views(r@)[k] == r0[k]@);
                    assert(views(r0)[k] == r0[k]@);
                }
            }
            assert(views(r@) =~= views(v@).take(i + 1));
        }
        i = i + 1;
    }
    proof {
        assert(views(v@).take(i as int) =~= views(v@));
    }
    r
}

/// Strictly ascending in lexicographic order (hence duplicate-free).
pub open spec fn strictly_sorted(s: Seq<Seq<u8>>) -> bool {
    forall|i: int, j: int| 0 <= i < j < s.len() ==> lex_lt(#[trigger] s[i], #[trigger] s[j])
}

/// Result of a search in a strictly sorted vector: the position of the
/// string, or the position where it would be inserted.
pub open spec fn search_ok(s: Seq<Seq<u8>>, x: Seq<u8>, found: bool, pos: int) -> bool {
    &&& 0 <= pos <= s.len()
    &&& found ==> pos < s.len() && s[pos] == x
    &&& !found ==> (forall|k: int| 0 <= k < pos ==> lex_lt(#[trigger] s[k], x))
    &&& !found ==> (forall|k: int| pos <= k < s.len() ==> lex_lt(x, #[trigger] s[k]))
    &&& found <==> s.contains(x)
}

/// Binary search for `x` in a strictly sorted vector.
pub fn search_sorted(v: &Vec<Vec<u8>>, x: &[u8]) -> (r: (bool, usize))
    requires
        strictly_sorted(views(v@)),
    ensures
        search_ok(views(v@), x@, r.0, r.1 as int),
{
    let ghost s = views(v@);
    let mut lo: usize = 0;
    let mut hi: usize = v.len();
    while lo < hi
        invariant
            s == views(v@),
            strictly_sorted(s),
            0 <= lo <= hi <= v@.len(),
            forall|k: int| 0 <= k < lo ==> lex_lt(#[trigger] s[k], x@),
            forall|k: int| hi <= k < s.len() ==> lex_lt(x@, #[trigger] s[k]),
        decreases hi - lo,
    {
        let mid = lo + (hi - lo) / 2;
        let c = compare_bytes(v[mid].as_slice(), x);
        assert(s[mid as int] == v@[mid as int]@);
        if c == 0 {
            proof {
                assert(s.contains(x@));
            }
            return (true, mid);
        } else if c == -1 {
            proof {
                assert forall|k: int| 0 <= k < mid + 1 implies lex_lt(#[trigger] s[k], x@) by {
                    if k < mid {
                        lemma_lex_trans(s[k], s[mid as int], x@);
                    }
                }
            }
            lo = mid + 1;
        } else {
            proof {
                assert forall|k: int| mid <= k < s.len() implies lex_lt(x@, #[trigger] s[k]) by {
                    if k > mid {
                        lemma_lex_trans(x@, s[mid as int], s[k]);
                    }
                }
            }
            hi = mid;
        }
    }
    proof {
        if s.contains(x@) {
            let k = choose|k: int| 0 <= k < s.len() && s[k] == x@;
            lemma_lex_irrefl(x@);
            if k < lo {
                assert(lex_lt(s[k], x@));
            } else {
                assert(lex_lt(x@, s[k]));
            }
        }
    }
    (false, lo)
}

/// Insert `x` into a strictly sorted vector unless it is already there.
/// Returns whether it was inserted.
pub fn sorted_insert(v: &mut Vec<Vec<u8>>, x: Vec<u8>) -> (inserted: bool)
    requires
        strictly_sorted(views(old(v)@)),
    ensures
        strictly_sorted(views(final(v)@)),
        views(final(v)@).to_set() == views(old(v)@).to_set().insert(x@),
        inserted == !views(old(v)@).contains(x@),
        final(v)@.len() == old(v)@.len() + if inserted { 1int } else { 0int },
{
    let ghost s0 = views(v@);
    let (found, pos) = search_sorted(v, x.as_slice());
    if found {
        proof {
            assert(s0.to_set().insert(x@) =~= s0.to_set());
        }
        false
    } else {
        let ghost xv = x@;
        v.insert(pos, x);
        proof {
            let s1 = views(v@);
            assert(s1 =~= s0.insert(pos as int, xv));
            assert forall|i: int, j: int| 0 <= i < j < s1.len() implies lex_lt(
                #[trigger] s1[i],
                #[trigger] s1[j],
            ) by {
                if j < pos {
                } else if j == pos {
                } else if i < pos {
                    lemma_lex_trans(s1[i], xv, s1[j]);
                } else if i == pos {
                } else {
                }
            }
            assert forall|y: Seq<u8>| s1.to_set().contains(y) <==> s0.to_set().insert(
                xv,
            ).contains(y) by {
                if s1.contains(y) {
                    let k = choose|k: int| 0 <= k < s1.len() && s1[k] == y;
                    if k < pos {
                        assert(s0[k] == y);
                    } else if k > pos {
                        assert(s0[k - 1] == y);
                    }
                }
                if s0.contains(y) {
                    let k = choose|k: int| 0 <= k < s0.len() && s0[k] == y;
                    if k < pos {
                        assert(s1[k] == y);
                    } else {
                        assert(s1[k + 1] == y);
                    }
                }
                if y == xv {
                    assert(s1[pos as int] == y);
                }
            }
            assert(s1.to_set() =~= s0.to_set().insert(xv));
        }
        true
    }
}

/// The byte strings of `v` in strictly ascending order without duplicates.
pub fn sort_dedup(v: &Vec<Vec<u8>>) -> (r: Vec<Vec<u8>>)
    ensures
        strictly_sorted(views(r@)),
        views(r@).to_set() == views(v@).to_set(),
{
    let mut r: Vec<Vec<u8>> = Vec::new();
    let mut i: usize = 0;
    proof {
        assert(views(r@).to_set() =~= views(v@).take(0).to_set());
    }
    while i < v.len()
        invariant
            i <= v@.len(),
            strictly_sorted(views(r@)),
            views(r@).to_set() == views(v@).take(i as int).to_set(),
        decreases v@.len() - i,
    {
        let x = clone_bytes(&v[i]);
        sorted_insert(&mut r, x);
        proof {
            assert(views(v@).take(i + 1) =~= views(v@).take(i as int).push(v@[i as int]@));
            lemma_push_to_set(views(v@).take(i as int), v@[i as int]@);
        }
        i = i + 1;
    }
    proof {
        assert(views(v@).take(i as int) =~= views(v@));
    }
    r
}

/// The set of a pushed sequence.
pub proof fn lemma_push_to_set<A>(s: Seq<A>, x: A)
    ensures
        s.push(x).to_set() == s.to_set().insert(x),
{
    assert forall|y: A| s.push(x).to_set().contains(y) <==> s.to_set().insert(x).contains(y) by {
        if s.push(x).contains(y) {
            let k = choose|k: int| 0 <= k < s.push(x).len() && s.push(x)[k] == y;
            if k < s.len() {
                assert(s[k] == y);
            }
        }
        if s.contains(y) {
            let k = choose|k: int| 0 <= k < s.len() && s[k] == y;
            assert(s.push(x)[k] == y);
        }
        if y == x {
            assert(s.push(x)[s.len() as int] == y);
        }
    }
    assert(s.push(x).to_set() =~= s.to_set().insert(x));
}

/// Membership in a filtered sequence.
pub proof fn lemma_filter_mem<A>(s: Seq<A>, p: spec_fn(A) -> bool, x: A)
    ensures
        s.filter(p).contains(x) <==> (s.contains(x) && p(x)),
{
    broadcast use vstd::seq_lib::group_filter_ensures;

    if s.filter(p).contains(x) {
        s.lemma_filter_contains_rev(p, x);
        let k = choose|k: int| 0 <= k < s.filter(p).len() && s.filter(p)[k] == x;
        assert(p(s.filter(p)[k]));
    }
    if s.contains(x) && p(x) {
        let i = choose|i: int| 0 <= i < s.len() && s[i] == x;
        s.lemma_filter_contains(p, i);
    }
}

/// Filtering keeps a sequence duplicate-free.
pub proof fn lemma_filter_no_dup<A>(s: Seq<A>, p: spec_fn(A) -> bool)
    requires
        s.no_duplicates(),
    ensures
        s.filter(p).no_duplicates(),
    decreases s.len(),
{
    if s.len() > 0 {
        let s0 = s.drop_last();
        let x = s.last();
        assert(s =~= s0.push(x));
        assert(s0.no_duplicates());
        lemma_filter_no_dup(s0, p);
        s0.lemma_filter_push(x, p);
        if p(x) {
            assert(!s0.contains(x)) by {
                if s0.contains(x) {
                    let k = choose|k: int| 0 <= k < s0.len() && s0[k] == x;
                    assert(s[k] == s[s.len() - 1]);
                }
            }
            assert(!s0.filter(p).contains(x)) by {
                lemma_filter_mem(s0, p, x);
            }
            let f = s0.filter(p).push(x);
            assert forall|a: int, b: int| 0 <= a < f.len() && 0 <= b < f.len() && a != b implies f[a] != f[b] by {
                if a == f.len() - 1 {
                    assert(s0.filter(p)[b] == f[b]);
                } else if b == f.len() - 1 {
                    assert(s0.filter(p)[a] == f[a]);
                }
            }
        }
    }
}

/// Two strictly sorted sequences holding the same strings are equal: a
/// sorted, duplicate-free vector is the canonical form of its set.
pub proof fn lemma_sorted_unique(a: Seq<Seq<u8>>, b: Seq<Seq<u8>>)
    requires
        strictly_sorted(a),
        strictly_sorted(b),
        a.to_set() == b.to_set(),
    ensures
        a == b,
    decreases a.len() + b.len(),
{
    if a.len() == 0 {
        if b.len() > 0 {
            assert(b.to_set().contains(b[0]));
            assert(a.to_set().contains(b[0]));
        }
        assert(a =~= b);
    } else if b.len() == 0 {
        assert(a.to_set().contains(a[0]));
        assert(b.to_set().contains(a[0]));
    } else {
        // the minimum of both is the first element
        assert(a.to_set().contains(a[0]));
        assert(b.to_set().contains(a[0]));
        assert(b.to_set().contains(b[0]));
        assert(a.to_set().contains(b[0]));
        let ka = choose|k: int| 0 <= k < b.len() && b[k] == a[0];
        let kb = choose|k: int| 0 <= k < a.len() && a[k] == b[0];
        if ka > 0 {
            assert(lex_lt(b[0], b[ka]));
            if kb > 0 {
                assert(lex_lt(a[0], a[kb]));
                lemma_lex_trichotomy(a[0], b[0]);
            } else {
                lemma_lex_irrefl(a[0]);
            }
        }
        assert(a[0] == b[0]);
        let a1 = a.drop_first();
        let b1 = b.drop_first();
        assert forall|y: Seq<u8>| a1.to_set().contains(y) <==> b1.to_set().contains(y) by {
            if a1.contains(y) {
                let k = choose|k: int| 0 <= k < a1.len() && a1[k] == y;
                assert(a[k + 1] == y);
                assert(lex_lt(a[0], y));
                lemma_lex_irrefl(y);
                assert(b.to_set().contains(y));
                let j = choose|j: int| 0 <= j < b.len() && b[j] == y;
                assert(j != 0);
                assert(b1[j - 1] == y);
            }
            if b1.contains(y) {
                let k = choose|k: int| 0 <= k < b1.len() && b1[k] == y;
                assert(b[k + 1] == y);
                assert(lex_lt(b[0], y));
                lemma_lex_irrefl(y);
                assert(a.to_set().contains(y));
                let j = choose|j: int| 0 <= j < a.len() && a[j] == y;
                assert(j != 0);
                assert(a1[j - 1] == y);
            }
        }
        assert(a1.to_set() =~= b1.to_set());
        lemma_sorted_unique(a1, b1);
        assert(a =~= seq![a[0]] + a1);
        assert(b =~= seq![b[0]] + b1);
    }
}

} // verus!
