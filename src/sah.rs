//! The surface area heuristic: how a candidate split divides a range of
//! triangles, the boxes of the two sides, and what the split costs.
use vstd::prelude::*;
use crate::geometry::{Aabb, BVHTriangle, empty_box};

verus! {

/// A triangle goes to the left side of a split when its centroid lies below
/// the split position on the split axis (positions are in centroid scale).
pub open spec fn goes_left(t: BVHTriangle, axis: int, pos: int) -> bool {
    t.centroid.coord(axis) < pos
}

/// `tris[lo..mid)` lies below `pos` on `axis` and `tris[mid..hi)` does not.
pub open spec fn split_by(tris: Seq<BVHTriangle>, lo: int, mid: int, hi: int, axis: int, pos: int) -> bool {
    &&& forall|k: int| lo <= k < mid ==> goes_left(#[trigger] tris[k], axis, pos)
    &&& forall|k: int| mid <= k < hi ==> !goes_left(#[trigger] tris[k], axis, pos)
}

/// How many triangles of `tris[lo..hi)` fall on the given side of the split.
pub open spec fn side_count(
    tris: Seq<BVHTriangle>,
    lo: int,
    hi: int,
    axis: int,
    pos: int,
    left: bool,
) -> int
    decreases hi - lo,
{
    if hi <= lo {
        0
    } else {
        side_count(tris, lo, hi - 1, axis, pos, left) + if goes_left(tris[hi - 1], axis, pos)
            == left {
            1int
        } else {
            0int
        }
    }
}

/// The box grown over the triangles of `tris[lo..hi)` on the given side of the split,
/// in order.
pub open spec fn side_bounds(
    tris: Seq<BVHTriangle>,
    lo: int,
    hi: int,
    axis: int,
    pos: int,
    left: bool,
) -> Aabb
    decreases hi - lo,
{
    if hi <= lo {
        empty_box()
    } else {
        let b = side_bounds(tris, lo, hi - 1, axis, pos, left);
        if goes_left(tris[hi - 1], axis, pos) == left {
            b.grown(tris[hi - 1])
        } else {
            b
        }
    }
}

/// The SAH cost of splitting `tris[lo..hi)` at `pos` on `axis`:
/// `left_count * left_half_area + right_count * right_half_area`.
/// A split that leaves one side empty makes no progress and has no cost
/// (it stands for an infinite one).
pub open spec fn sah_cost(tris: Seq<BVHTriangle>, lo: int, hi: int, axis: int, pos: int) -> Option<
    int,
> {
    let lc = side_count(tris, lo, hi, axis, pos, true);
    let rc = side_count(tris, lo, hi, axis, pos, false);
    if lc == 0 || rc == 0 {
        None
    } else {
        Some(
            lc * side_bounds(tris, lo, hi, axis, pos, true).half_area_spec() + rc * side_bounds(
                tris,
                lo,
                hi,
                axis,
                pos,
                false,
            ).half_area_spec(),
        )
    }
}

/// Some triangle of `tris[lo..hi)` has its own lower bound on axis `a` at `v`.
pub open spec fn min_touched(tris: Seq<BVHTriangle>, lo: int, hi: int, a: int, v: int) -> bool {
    exists|k: int| lo <= k < hi && #[trigger] tris[k].min.coord(a) == v
}

/// Some triangle of `tris[lo..hi)` has its own upper bound on axis `a` at `v`.
pub open spec fn max_touched(tris: Seq<BVHTriangle>, lo: int, hi: int, a: int, v: int) -> bool {
    exists|k: int| lo <= k < hi && #[trigger] tris[k].max.coord(a) == v
}

/// `b` is the smallest box that holds every triangle of `tris[lo..hi)`: it holds
/// them all, and each of its six faces touches one of them.
pub open spec fn tight(b: Aabb, tris: Seq<BVHTriangle>, lo: int, hi: int) -> bool {
    &&& lo < hi
    &&& forall|k: int| lo <= k < hi ==> b.holds(#[trigger] tris[k])
    &&& forall|a: int| 0 <= a < 3 ==> #[trigger] min_touched(tris, lo, hi, a, b.min.coord(a))
    &&& forall|a: int| 0 <= a < 3 ==> #[trigger] max_touched(tris, lo, hi, a, b.max.coord(a))
}

/// Some triangle on the given side of the split has its lower bound on axis `a` at `v`.
pub open spec fn side_min_touched(
    tris: Seq<BVHTriangle>,
    lo: int,
    hi: int,
    axis: int,
    pos: int,
    left: bool,
    a: int,
    v: int,
) -> bool {
    exists|k: int|
        lo <= k < hi && goes_left(tris[k], axis, pos) == left && #[trigger] tris[k].min.coord(a)
            == v
}

/// Some triangle on the given side of the split has its upper bound on axis `a` at `v`.
pub open spec fn side_max_touched(
    tris: Seq<BVHTriangle>,
    lo: int,
    hi: int,
    axis: int,
    pos: int,
    left: bool,
    a: int,
    v: int,
) -> bool {
    exists|k: int|
        lo <= k < hi && goes_left(tris[k], axis, pos) == left && #[trigger] tris[k].max.coord(a)
            == v
}

pub proof fn lemma_side_counts(
    tris: Seq<BVHTriangle>,
    lo: int,
    hi: int,
    axis: int,
    pos: int,
)
    requires
        lo <= hi,
    ensures
        side_count(tris, lo, hi, axis, pos, true) + side_count(tris, lo, hi, axis, pos, false) == hi
            - lo,
        side_count(tris, lo, hi, axis, pos, true) >= 0,
        side_count(tris, lo, hi, axis, pos, false) >= 0,
    decreases hi - lo,
{
    if lo < hi {
        lemma_side_counts(tris, lo, hi - 1, axis, pos);
    }
}

/// The box grown over one side holds each triangle on that side, and when that
/// side is not empty each face of the box touches one of them.
pub proof fn lemma_side_bounds(
    tris: Seq<BVHTriangle>,
    lo: int,
    hi: int,
    axis: int,
    pos: int,
    left: bool,
)
    requires
        0 <= lo <= hi <= tris.len(),
    ensures
        forall|k: int|
            lo <= k < hi && goes_left(tris[k], axis, pos) == left ==> side_bounds(
                tris,
                lo,
                hi,
                axis,
                pos,
                left,
            ).holds(#[trigger] tris[k]),
        side_count(tris, lo, hi, axis, pos, left) > 0 ==> forall|a: int|
            0 <= a < 3 ==> #[trigger] side_min_touched(
                tris,
                lo,
                hi,
                axis,
                pos,
                left,
                a,
                side_bounds(tris, lo, hi, axis, pos, left).min.coord(a),
            ),
        side_count(tris, lo, hi, axis, pos, left) > 0 ==> forall|a: int|
            0 <= a < 3 ==> #[trigger] side_max_touched(
                tris,
                lo,
                hi,
                axis,
                pos,
                left,
                a,
                side_bounds(tris, lo, hi, axis, pos, left).max.coord(a),
            ),
        side_count(tris, lo, hi, axis, pos, left) == 0 ==> side_bounds(tris, lo, hi, axis, pos, left)
            == empty_box(),
    decreases hi - lo,
{
    if lo < hi {
        lemma_side_bounds(tris, lo, hi - 1, axis, pos, left);
        lemma_side_counts(tris, lo, hi - 1, axis, pos);
        let b0 = side_bounds(tris, lo, hi - 1, axis, pos, left);
        let b = side_bounds(tris, lo, hi, axis, pos, left);
        let c0 = side_count(tris, lo, hi - 1, axis, pos, left);
        let t = tris[hi - 1];
        let on_side = goes_left(t, axis, pos) == left;
        assert forall|a: int|
            0 <= a < 3 && side_count(tris, lo, hi, axis, pos, left) > 0 implies #[trigger] side_min_touched(
            tris,
            lo,
            hi,
            axis,
            pos,
            left,
            a,
            b.min.coord(a),
        ) by {
            if on_side && (c0 == 0 || b.min.coord(a) == t.min.coord(a)) {
                assert(tris[hi - 1].min.coord(a) == b.min.coord(a));
            } else {
                assert(side_min_touched(tris, lo, hi - 1, axis, pos, left, a, b0.min.coord(a)));
                let k = choose|k: int|
                    lo <= k < hi - 1 && goes_left(tris[k], axis, pos) == left
                        && #[trigger] tris[k].min.coord(a) == b0.min.coord(a);
                assert(tris[k].min.coord(a) == b.min.coord(a));
            }
        }
        assert forall|a: int|
            0 <= a < 3 && side_count(tris, lo, hi, axis, pos, left) > 0 implies #[trigger] side_max_touched(
            tris,
            lo,
            hi,
            axis,
            pos,
            left,
            a,
            b.max.coord(a),
        ) by {
            if on_side && (c0 == 0 || b.max.coord(a) == t.max.coord(a)) {
                assert(tris[hi - 1].max.coord(a) == b.max.coord(a));
            } else {
                assert(side_max_touched(tris, lo, hi - 1, axis, pos, left, a, b0.max.coord(a)));
                let k = choose|k: int|
                    lo <= k < hi - 1 && goes_left(tris[k], axis, pos) == left
                        && #[trigger] tris[k].max.coord(a) == b0.max.coord(a);
                assert(tris[k].max.coord(a) == b.max.coord(a));
            }
        }
    }
}

/// A box that holds a triangle has no axis with `min` above `max` (each
/// triangle's own bounds are ordered).
pub proof fn lemma_holds_nonempty(b: Aabb, t: BVHTriangle)
    requires
        b.holds(t),
        t.is_ordered(),
    ensures
        b.is_nonempty(),
{
    assert(b.min.coord(0) <= t.min.coord(0));
    assert(b.min.coord(1) <= t.min.coord(1));
    assert(b.min.coord(2) <= t.min.coord(2));
}

/// Two sequences that agree on `lo..hi` give every split of that range the
/// same sides, boxes and cost.
pub proof fn lemma_side_frame(
    t0: Seq<BVHTriangle>,
    t1: Seq<BVHTriangle>,
    lo: int,
    hi: int,
    axis: int,
    pos: int,
    left: bool,
)
    requires
        forall|k: int| lo <= k < hi ==> t0[k] == t1[k],
    ensures
        side_count(t0, lo, hi, axis, pos, left) == side_count(t1, lo, hi, axis, pos, left),
        side_bounds(t0, lo, hi, axis, pos, left) == side_bounds(t1, lo, hi, axis, pos, left),
    decreases hi - lo,
{
    if lo < hi {
        lemma_side_frame(t0, t1, lo, hi - 1, axis, pos, left);
        assert(t0[hi - 1] == t1[hi - 1]);
    }
}

pub proof fn lemma_sah_frame(t0: Seq<BVHTriangle>, t1: Seq<BVHTriangle>, lo: int, hi: int)
    requires
        forall|k: int| lo <= k < hi ==> t0[k] == t1[k],
    ensures
        forall|axis: int, pos: int| #[trigger]
            sah_cost(t0, lo, hi, axis, pos) == sah_cost(t1, lo, hi, axis, pos),
{
    assert forall|axis: int, pos: int| #[trigger]
        sah_cost(t0, lo, hi, axis, pos) == sah_cost(t1, lo, hi, axis, pos) by {
        lemma_side_frame(t0, t1, lo, hi, axis, pos, true);
        lemma_side_frame(t0, t1, lo, hi, axis, pos, false);
    }
}

/// Growing the tight box of `tris[0..hi)` by `tris[hi]` gives the tight box of
/// `tris[0..hi + 1)`; growing the empty box by `tris[0]` gives the tight box of
/// `tris[0..1)`.
pub proof fn lemma_tight_grow(b: Aabb, tris: Seq<BVHTriangle>, hi: int)
    requires
        0 <= hi < tris.len(),
        (hi == 0 && b == empty_box()) || tight(b, tris, 0, hi),
        tris[hi].is_ordered(),
    ensures
        tight(b.grown(tris[hi]), tris, 0, hi + 1),
{
    let g = b.grown(tris[hi]);
    let t = tris[hi];
    assert forall|k: int| 0 <= k < hi + 1 implies g.holds(#[trigger] tris[k]) by {
        if k < hi {
            assert(b.holds(tris[k]));
            assert forall|a: int| 0 <= a < 3 implies g.min.coord(a) <= #[trigger] tris[k].min.coord(a)
                && tris[k].max.coord(a) <= g.max.coord(a) by {
                assert(b.min.coord(a) <= tris[k].min.coord(a));
            }
        } else {
            assert forall|a: int| 0 <= a < 3 implies g.min.coord(a) <= #[trigger] tris[k].min.coord(a)
                && tris[k].max.coord(a) <= g.max.coord(a) by {}
        }
    }
    assert forall|a: int| 0 <= a < 3 implies #[trigger] min_touched(tris, 0, hi + 1, a, g.min.coord(a)) by {
        if g.min.coord(a) == t.min.coord(a) {
            assert(tris[hi].min.coord(a) == g.min.coord(a));
        } else {
            assert(hi > 0);
            assert(min_touched(tris, 0, hi, a, b.min.coord(a)));
            let k = choose|k: int| 0 <= k < hi && #[trigger] tris[k].min.coord(a) == b.min.coord(a);
            assert(tris[k].min.coord(a) == g.min.coord(a));
        }
    }
    assert forall|a: int| 0 <= a < 3 implies #[trigger] max_touched(tris, 0, hi + 1, a, g.max.coord(a)) by {
        if g.max.coord(a) == t.max.coord(a) {
            assert(tris[hi].max.coord(a) == g.max.coord(a));
        } else {
            assert(hi > 0);
            assert(max_touched(tris, 0, hi, a, b.max.coord(a)));
            let k = choose|k: int| 0 <= k < hi && #[trigger] tris[k].max.coord(a) == b.max.coord(a);
            assert(tris[k].max.coord(a) == g.max.coord(a));
        }
    }
}

} // verus!
