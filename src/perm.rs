//! Rearrangements of a range of a sequence.
use vstd::prelude::*;
use vstd::multiset::*;

verus! {

/// `x` is an element of `a[lo..hi)`.
pub open spec fn found_in<T>(a: Seq<T>, x: T, lo: int, hi: int) -> bool {
    exists|j: int| lo <= j < hi && #[trigger] a[j] == x
}

/// Every element of `b[lo..hi)` is an element of `a[lo..hi)`.
pub open spec fn drawn_from<T>(a: Seq<T>, b: Seq<T>, lo: int, hi: int) -> bool {
    forall|k: int| lo <= k < hi ==> found_in(a, #[trigger] b[k], lo, hi)
}

/// `b` is `a` with only the range `lo..hi` rearranged: outside it nothing moved,
/// inside it each side's elements are found in the other, and both hold the
/// same elements with the same multiplicities.
pub open spec fn rearranged<T>(a: Seq<T>, b: Seq<T>, lo: int, hi: int) -> bool {
    &&& a.len() == b.len()
    &&& forall|k: int| 0 <= k < a.len() && !(lo <= k < hi) ==> #[trigger] b[k] == a[k]
    &&& drawn_from(a, b, lo, hi)
    &&& drawn_from(b, a, lo, hi)
    &&& b.to_multiset() == a.to_multiset()
}

/// Exchanging two elements keeps the multiset of a sequence.
pub proof fn lemma_swap_multiset<T>(s: Seq<T>, x: int, y: int)
    requires
        0 <= x < s.len(),
        0 <= y < s.len(),
    ensures
        s.update(x, s[y]).update(y, s[x]).to_multiset() == s.to_multiset(),
{
    broadcast use group_multiset_axioms;
    broadcast use vstd::seq_lib::to_multiset_update;
    broadcast use vstd::seq_lib::to_multiset_contains;

    let s1 = s.update(x, s[y]);
    let s2 = s1.update(y, s[x]);
    if x == y {
        assert(s2 =~= s);
    } else {
        assert(s.contains(s[x]));
        assert(s1.to_multiset() == s.to_multiset().insert(s[y]).remove(s[x]));
        assert(s1[y] == s[y]);
        assert(s2.to_multiset() == s1.to_multiset().insert(s[x]).remove(s[y]));
        assert(s2.to_multiset() =~= s.to_multiset());
    }
}

proof fn lemma_drawn_trans<T>(a: Seq<T>, b: Seq<T>, c: Seq<T>, lo: int, hi: int, lo2: int, hi2: int)
    requires
        drawn_from(a, b, lo, hi),
        drawn_from(b, c, lo2, hi2),
        forall|k: int| lo <= k < hi && !(lo2 <= k < hi2) ==> #[trigger] c[k] == b[k],
        lo <= lo2,
        hi2 <= hi,
    ensures
        drawn_from(a, c, lo, hi),
{
    assert forall|k: int| lo <= k < hi implies found_in(a, #[trigger] c[k], lo, hi) by {
        if lo2 <= k < hi2 {
            assert(found_in(b, c[k], lo2, hi2));
            let j1 = choose|j: int| lo2 <= j < hi2 && #[trigger] b[j] == c[k];
            assert(found_in(a, b[j1], lo, hi));
            let j2 = choose|j: int| lo <= j < hi && #[trigger] a[j] == b[j1];
            assert(c[k] == a[j2]);
        } else {
            assert(found_in(a, b[k], lo, hi));
            let j2 = choose|j: int| lo <= j < hi && #[trigger] a[j] == b[k];
            assert(c[k] == a[j2]);
        }
    }
}

proof fn lemma_drawn_back_trans<T>(a: Seq<T>, b: Seq<T>, c: Seq<T>, lo: int, hi: int, lo2: int, hi2: int)
    requires
        drawn_from(b, a, lo, hi),
        drawn_from(c, b, lo2, hi2),
        forall|k: int| lo <= k < hi && !(lo2 <= k < hi2) ==> #[trigger] c[k] == b[k],
        lo <= lo2,
        hi2 <= hi,
    ensures
        drawn_from(c, a, lo, hi),
{
    assert forall|k: int| lo <= k < hi implies found_in(c, #[trigger] a[k], lo, hi) by {
        assert(found_in(b, a[k], lo, hi));
        let j1 = choose|j: int| lo <= j < hi && #[trigger] b[j] == a[k];
        if lo2 <= j1 < hi2 {
            assert(found_in(c, b[j1], lo2, hi2));
            let j2 = choose|j: int| lo2 <= j < hi2 && #[trigger] c[j] == b[j1];
            assert(a[k] == c[j2]);
        } else {
            assert(c[j1] == b[j1]);
            assert(a[k] == c[j1]);
        }
    }
}

/// A rearrangement of a range followed by one of a range inside it is a
/// rearrangement of the outer range.
pub proof fn lemma_rearranged_trans<T>(
    a: Seq<T>,
    b: Seq<T>,
    c: Seq<T>,
    lo: int,
    hi: int,
    lo2: int,
    hi2: int,
)
    requires
        rearranged(a, b, lo, hi),
        rearranged(b, c, lo2, hi2),
        lo <= lo2,
        hi2 <= hi,
        0 <= lo,
        hi <= a.len(),
    ensures
        rearranged(a, c, lo, hi),
{
    lemma_drawn_trans(a, b, c, lo, hi, lo2, hi2);
    lemma_drawn_back_trans(a, b, c, lo, hi, lo2, hi2);
}

/// A property that holds of every element of `a[c..d)` holds of every element
/// of `b[c..d)` when `b` rearranges a range that lies inside `c..d` or outside it.
pub proof fn lemma_rearranged_keeps<T>(
    a: Seq<T>,
    b: Seq<T>,
    lo: int,
    hi: int,
    c: int,
    d: int,
    p: spec_fn(T) -> bool,
)
    requires
        rearranged(a, b, lo, hi),
        (c <= lo && hi <= d) || hi <= c || d <= lo || hi <= lo,
        0 <= c,
        d <= a.len(),
        forall|k: int| c <= k < d ==> p(#[trigger] a[k]),
    ensures
        forall|k: int| c <= k < d ==> p(#[trigger] b[k]),
{
    assert forall|k: int| c <= k < d implies p(#[trigger] b[k]) by {
        if lo <= k < hi {
            assert(found_in(a, b[k], lo, hi));
            let j = choose|j: int| lo <= j < hi && #[trigger] a[j] == b[k];
            assert(p(a[j]));
        } else {
            assert(b[k] == a[k]);
        }
    }
}

} // verus!
