//! What makes a node array a valid hierarchy over a triangle array.
//!
//! Each node is given a span `(lo, hi, depth)`: the triangles below it and its
//! depth. A leaf stores its span in `first`/`count`; an interior node keeps
//! `first` and its span is the join of its children's.
use vstd::prelude::*;
use crate::geometry::{Aabb, BVHTriangle};
use crate::sah::{
    tight,
    split_by,
    side_bounds,
    side_count,
    goes_left,
    min_touched,
    max_touched,
    side_min_touched,
    side_max_touched,
    lemma_side_bounds,
    lemma_side_counts,
    lemma_holds_nonempty,
};
use crate::perm::{rearranged, found_in, lemma_rearranged_keeps};
use crate::bvh::{Node, Quality, MAX_DEPTH, improving_split_exists, all_ordered};

verus! {

/// A leaf owns exactly its span, has no children, and its box is the tight
/// box of its triangles.
pub open spec fn leaf_ok(nd: Node, sp: (int, int, int), tris: Seq<BVHTriangle>) -> bool {
    &&& nd.count == sp.1 - sp.0
    &&& nd.left == 0
    &&& nd.right == 0
    &&& tight(nd.bounds(), tris, sp.0, sp.1)
}

/// The position where the span of interior node `i` divides between its children.
pub open spec fn split_point(nodes: Seq<Node>, spans: Seq<(int, int, int)>, i: int) -> int {
    spans[nodes[i].left as int].1
}

/// An interior node has two later children, adjacent in the array, whose spans
/// divide its own at one level deeper; its box is the tight box of its span and
/// holds theirs; some axis and
/// position put every triangle of the left span below and every one of the
/// right span not below; and its own SAH cost exceeds that of the split.
pub open spec fn interior_ok(
    nodes: Seq<Node>,
    spans: Seq<(int, int, int)>,
    tris: Seq<BVHTriangle>,
    i: int,
) -> bool {
    let nd = nodes[i];
    let sp = spans[i];
    let l = nd.left as int;
    let r = nd.right as int;
    let mid = spans[l].1;
    &&& i < l
    &&& r == l + 1
    &&& r < nodes.len()
    &&& spans[l].0 == sp.0
    &&& spans[r].0 == mid
    &&& spans[r].1 == sp.1
    &&& spans[l].2 == sp.2 + 1
    &&& spans[r].2 == sp.2 + 1
    &&& sp.0 < mid < sp.1
    &&& sp.2 < MAX_DEPTH
    &&& nd.bounds().holds_box(nodes[l].bounds())
    &&& nd.bounds().holds_box(nodes[r].bounds())
    &&& tight(nd.bounds(), tris, sp.0, sp.1)
    &&& exists|ax: int, p: int| 0 <= ax < 3 && #[trigger] split_by(tris, sp.0, mid, sp.1, ax, p)
    &&& nd.bounds().half_area_spec() * (sp.1 - sp.0) > (mid - sp.0) * nodes[l].bounds().half_area_spec()
        + (sp.1 - mid) * nodes[r].bounds().half_area_spec()
}

pub open spec fn node_ok(
    nodes: Seq<Node>,
    spans: Seq<(int, int, int)>,
    tris: Seq<BVHTriangle>,
    i: int,
) -> bool {
    let nd = nodes[i];
    let sp = spans[i];
    &&& 0 <= sp.0 < sp.1 <= tris.len()
    &&& 0 <= sp.2
    &&& nd.first == sp.0
    &&& nd.bounds().is_nonempty()
    &&& if nd.count > 0 {
        leaf_ok(nd, sp, tris)
    } else {
        interior_ok(nodes, spans, tris, i)
    }
}

/// Node `i` is a leaf whose span holds triangle `t`.
pub open spec fn leaf_at(nodes: Seq<Node>, spans: Seq<(int, int, int)>, i: int, t: int) -> bool {
    &&& 0 <= i < nodes.len()
    &&& nodes[i].count > 0
    &&& spans[i].0 <= t < spans[i].1
}

pub open spec fn covered(nodes: Seq<Node>, spans: Seq<(int, int, int)>, t: int) -> bool {
    exists|i: int| #[trigger] leaf_at(nodes, spans, i, t)
}

/// The span of leaf `l` lies within one child span of interior node `a`, or
/// outside the span of `a`.
pub open spec fn nested(nodes: Seq<Node>, spans: Seq<(int, int, int)>, a: int, l: int) -> bool {
    let sa = spans[a];
    let sl = spans[l];
    let mid = split_point(nodes, spans, a);
    ||| sl.1 <= sa.0
    ||| sa.1 <= sl.0
    ||| (sa.0 <= sl.0 && sl.1 <= mid)
    ||| (mid <= sl.0 && sl.1 <= sa.1)
}

/// The node array is a valid hierarchy over `tris` with these spans: the root
/// spans everything, every node is sound, every triangle lies in exactly one
/// leaf, and leaves nest inside the interior nodes' halves.
pub open spec fn tree_ok(nodes: Seq<Node>, spans: Seq<(int, int, int)>, tris: Seq<BVHTriangle>) -> bool {
    &&& nodes.len() == spans.len()
    &&& nodes.len() >= 1
    &&& spans[0] == (0int, tris.len() as int, 0int)
    &&& all_ordered(tris, 0, tris.len() as int)
    &&& forall|i: int| 0 <= i < nodes.len() ==> #[trigger] node_ok(nodes, spans, tris, i)
    &&& forall|t: int| 0 <= t < tris.len() ==> #[trigger] covered(nodes, spans, t)
    &&& forall|i: int, j: int, t: int|
        #[trigger] leaf_at(nodes, spans, i, t) && #[trigger] leaf_at(nodes, spans, j, t) ==> i == j
    &&& forall|a: int, l: int|
        0 <= a < nodes.len() && 0 <= l < nodes.len() && nodes[a].count == 0 && nodes[l].count > 0
            ==> #[trigger] nested(nodes, spans, a, l)
}

/// Leaf `i` is a leaf for a reason: it sits at the depth limit, or no candidate
/// of the quality's split search costs less than leaving it whole.
pub open spec fn settled(
    nodes: Seq<Node>,
    spans: Seq<(int, int, int)>,
    tris: Seq<BVHTriangle>,
    q: Quality,
    i: int,
) -> bool {
    nodes[i].count > 0 ==> (spans[i].2 >= MAX_DEPTH || !improving_split_exists(
        q,
        tris,
        spans[i].0,
        spans[i].1,
        nodes[i].bounds(),
        nodes[i].bounds().half_area_spec() * nodes[i].count,
    ))
}

/// The node that leaf `s` becomes when split into children at `l` and `l + 1`.
pub open spec fn as_interior(nd: Node, l: int) -> Node {
    Node { left: l as u32, right: (l + 1) as u32, count: 0, ..nd }
}

/// A leaf with the given range and box.
pub open spec fn leaf_node(first: int, count: int, b: Aabb) -> Node {
    Node { left: 0, right: 0, first: first as u32, count: count as u32, aabb_min: b.min, aabb_max: b.max }
}

/// One accepted split: leaf `s` of a valid tree over `t0`, whose span is divided
/// at `mid` by the split `(ax, pos)`; `t1` is `t0` with that span partitioned;
/// `n1`/`p1` are the nodes and spans with `s` made interior and its two
/// children appended.
pub open spec fn split_step(
    n0: Seq<Node>,
    p0: Seq<(int, int, int)>,
    t0: Seq<BVHTriangle>,
    n1: Seq<Node>,
    p1: Seq<(int, int, int)>,
    t1: Seq<BVHTriangle>,
    s: int,
    mid: int,
    ax: int,
    pos: int,
) -> bool {
    let lo = p0[s].0;
    let hi = p0[s].1;
    let d = p0[s].2;
    let l = n0.len() as int;
    let lb = side_bounds(t0, lo, hi, ax, pos, true);
    let rb = side_bounds(t0, lo, hi, ax, pos, false);
    &&& tree_ok(n0, p0, t0)
    &&& 0 <= s < n0.len()
    &&& n0[s].count > 0
    &&& lo < mid < hi
    &&& d < MAX_DEPTH
    &&& 0 <= ax < 3
    &&& crate::perm::rearranged(t0, t1, lo, hi)
    &&& split_by(t1, lo, mid, hi, ax, pos)
    &&& side_count(t0, lo, hi, ax, pos, true) == mid - lo
    &&& l + 2 <= u32::MAX
    &&& t0.len() <= u32::MAX
    &&& n1 == n0.update(s, as_interior(n0[s], l)).push(leaf_node(lo, mid - lo, lb)).push(
        leaf_node(mid, hi - mid, rb),
    )
    &&& p1 == p0.push((lo, mid, d + 1)).push((mid, hi, d + 1))
    &&& n0[s].bounds().half_area_spec() * (hi - lo) > (mid - lo) * lb.half_area_spec() + (hi - mid)
        * rb.half_area_spec()
}

/// Tightness depends only on the triangles of the range.
pub proof fn lemma_tight_frame(b: Aabb, t0: Seq<BVHTriangle>, t1: Seq<BVHTriangle>, lo: int, hi: int)
    requires
        tight(b, t0, lo, hi),
        forall|k: int| lo <= k < hi ==> t0[k] == t1[k],
    ensures
        tight(b, t1, lo, hi),
{
    assert forall|k: int| lo <= k < hi implies b.holds(#[trigger] t1[k]) by {
        assert(t0[k] == t1[k]);
    }
    assert forall|a: int| 0 <= a < 3 implies #[trigger] min_touched(t1, lo, hi, a, b.min.coord(a)) by {
        assert(min_touched(t0, lo, hi, a, b.min.coord(a)));
        let k = choose|k: int| lo <= k < hi && #[trigger] t0[k].min.coord(a) == b.min.coord(a);
        assert(t1[k].min.coord(a) == b.min.coord(a));
    }
    assert forall|a: int| 0 <= a < 3 implies #[trigger] max_touched(t1, lo, hi, a, b.max.coord(a)) by {
        assert(max_touched(t0, lo, hi, a, b.max.coord(a)));
        let k = choose|k: int| lo <= k < hi && #[trigger] t0[k].max.coord(a) == b.max.coord(a);
        assert(t1[k].max.coord(a) == b.max.coord(a));
    }
}

/// Tightness over `c..d` survives rearranging a range inside `c..d` or outside it.
pub proof fn lemma_tight_rearranged(
    b: Aabb,
    t0: Seq<BVHTriangle>,
    t1: Seq<BVHTriangle>,
    lo: int,
    hi: int,
    c: int,
    d: int,
)
    requires
        tight(b, t0, c, d),
        rearranged(t0, t1, lo, hi),
        (c <= lo && hi <= d) || hi <= c || d <= lo,
        0 <= c,
        d <= t0.len(),
    ensures
        tight(b, t1, c, d),
{
    lemma_rearranged_keeps(t0, t1, lo, hi, c, d, |t: BVHTriangle| b.holds(t));
    assert forall|a: int| 0 <= a < 3 implies #[trigger] min_touched(t1, c, d, a, b.min.coord(a)) by {
        assert(min_touched(t0, c, d, a, b.min.coord(a)));
        let k = choose|k: int| c <= k < d && #[trigger] t0[k].min.coord(a) == b.min.coord(a);
        if lo <= k < hi {
            assert(found_in(t1, t0[k], lo, hi));
            let j = choose|j: int| lo <= j < hi && #[trigger] t1[j] == t0[k];
            assert(t1[j].min.coord(a) == b.min.coord(a));
        } else {
            assert(t1[k] == t0[k]);
        }
    }
    assert forall|a: int| 0 <= a < 3 implies #[trigger] max_touched(t1, c, d, a, b.max.coord(a)) by {
        assert(max_touched(t0, c, d, a, b.max.coord(a)));
        let k = choose|k: int| c <= k < d && #[trigger] t0[k].max.coord(a) == b.max.coord(a);
        if lo <= k < hi {
            assert(found_in(t1, t0[k], lo, hi));
            let j = choose|j: int| lo <= j < hi && #[trigger] t1[j] == t0[k];
            assert(t1[j].max.coord(a) == b.max.coord(a));
        } else {
            assert(t1[k] == t0[k]);
        }
    }
}

/// Two distinct leaves of a valid tree have spans that do not meet.
pub proof fn lemma_leaves_apart(
    nodes: Seq<Node>,
    spans: Seq<(int, int, int)>,
    tris: Seq<BVHTriangle>,
    i: int,
    j: int,
)
    requires
        tree_ok(nodes, spans, tris),
        0 <= i < nodes.len(),
        0 <= j < nodes.len(),
        i != j,
        nodes[i].count > 0,
        nodes[j].count > 0,
    ensures
        spans[i].1 <= spans[j].0 || spans[j].1 <= spans[i].0,
{
    let t = if spans[i].0 >= spans[j].0 {
        spans[i].0
    } else {
        spans[j].0
    };
    assert(node_ok(nodes, spans, tris, i));
    assert(node_ok(nodes, spans, tris, j));
    if t < spans[i].1 && t < spans[j].1 {
        assert(leaf_at(nodes, spans, i, t));
        assert(leaf_at(nodes, spans, j, t));
    }
}

/// After the partition, the box grown over one side of the split (in the old
/// order) is the tight box of that side's new span.
pub proof fn lemma_child_tight(
    t0: Seq<BVHTriangle>,
    t1: Seq<BVHTriangle>,
    lo: int,
    mid: int,
    hi: int,
    ax: int,
    pos: int,
    left: bool,
)
    requires
        0 <= lo < mid < hi <= t0.len(),
        rearranged(t0, t1, lo, hi),
        split_by(t1, lo, mid, hi, ax, pos),
        side_count(t0, lo, hi, ax, pos, true) == mid - lo,
    ensures
        left ==> tight(side_bounds(t0, lo, hi, ax, pos, true), t1, lo, mid),
        !left ==> tight(side_bounds(t0, lo, hi, ax, pos, false), t1, mid, hi),
{
    let b = side_bounds(t0, lo, hi, ax, pos, left);
    let (clo, chi) = if left {
        (lo, mid)
    } else {
        (mid, hi)
    };
    lemma_side_bounds(t0, lo, hi, ax, pos, left);
    lemma_side_counts(t0, lo, hi, ax, pos);
    assert forall|k: int| clo <= k < chi implies b.holds(#[trigger] t1[k]) by {
        assert(found_in(t0, t1[k], lo, hi));
        let j = choose|j: int| lo <= j < hi && #[trigger] t0[j] == t1[k];
        assert(goes_left(t1[k], ax, pos) == left);
    }
    assert forall|a: int| 0 <= a < 3 implies #[trigger] min_touched(t1, clo, chi, a, b.min.coord(a)) by {
        assert(side_min_touched(t0, lo, hi, ax, pos, left, a, b.min.coord(a)));
        let j = choose|j: int|
            lo <= j < hi && goes_left(t0[j], ax, pos) == left && #[trigger] t0[j].min.coord(a)
                == b.min.coord(a);
        assert(found_in(t1, t0[j], lo, hi));
        let k = choose|k: int| lo <= k < hi && #[trigger] t1[k] == t0[j];
        assert(t1[k].min.coord(a) == b.min.coord(a));
    }
    assert forall|a: int| 0 <= a < 3 implies #[trigger] max_touched(t1, clo, chi, a, b.max.coord(a)) by {
        assert(side_max_touched(t0, lo, hi, ax, pos, left, a, b.max.coord(a)));
        let j = choose|j: int|
            lo <= j < hi && goes_left(t0[j], ax, pos) == left && #[trigger] t0[j].max.coord(a)
                == b.max.coord(a);
        assert(found_in(t1, t0[j], lo, hi));
        let k = choose|k: int| lo <= k < hi && #[trigger] t1[k] == t0[j];
        assert(t1[k].max.coord(a) == b.max.coord(a));
    }
}

/// A box that is tight over a range holds the box grown over either side of a
/// split of that range, when that side is not empty.
pub proof fn lemma_parent_holds_side(
    pb: Aabb,
    t0: Seq<BVHTriangle>,
    lo: int,
    hi: int,
    ax: int,
    pos: int,
    left: bool,
)
    requires
        0 <= lo < hi <= t0.len(),
        tight(pb, t0, lo, hi),
        side_count(t0, lo, hi, ax, pos, left) > 0,
    ensures
        pb.holds_box(side_bounds(t0, lo, hi, ax, pos, left)),
{
    let b = side_bounds(t0, lo, hi, ax, pos, left);
    lemma_side_bounds(t0, lo, hi, ax, pos, left);
    assert forall|a: int| 0 <= a < 3 implies pb.min.coord(a) <= #[trigger] b.min.coord(a)
        && b.max.coord(a) <= pb.max.coord(a) by {
        assert(side_min_touched(t0, lo, hi, ax, pos, left, a, b.min.coord(a)));
        let j = choose|j: int|
            lo <= j < hi && goes_left(t0[j], ax, pos) == left && #[trigger] t0[j].min.coord(a)
                == b.min.coord(a);
        assert(pb.holds(t0[j]));
        assert(side_max_touched(t0, lo, hi, ax, pos, left, a, b.max.coord(a)));
        let j2 = choose|j: int|
            lo <= j < hi && goes_left(t0[j], ax, pos) == left && #[trigger] t0[j].max.coord(a)
                == b.max.coord(a);
        assert(pb.holds(t0[j2]));
        assert(pb.min.coord(a) <= t0[j2].min.coord(a));
    }
}

/// A node that existed before the split, other than the split leaf, is still sound.
proof fn lemma_split_old_node(
    n0: Seq<Node>,
    p0: Seq<(int, int, int)>,
    t0: Seq<BVHTriangle>,
    n1: Seq<Node>,
    p1: Seq<(int, int, int)>,
    t1: Seq<BVHTriangle>,
    s: int,
    mid: int,
    ax: int,
    pos: int,
    i: int,
)
    requires
        split_step(n0, p0, t0, n1, p1, t1, s, mid, ax, pos),
        0 <= i < n0.len(),
        i != s,
    ensures
        node_ok(n1, p1, t1, i),
{
    let lo = p0[s].0;
    let hi = p0[s].1;
    let l = n0.len() as int;
    assert(node_ok(n0, p0, t0, i));
    assert(node_ok(n0, p0, t0, s));
    assert(n1[i] == n0[i]);
    assert(p1[i] == p0[i]);
    assert forall|k: int| 0 <= k < l implies #[trigger] p1[k] == p0[k] && n1[k].bounds() == n0[k].bounds() by {
        if k == s {
            assert(n1[k] == as_interior(n0[s], l));
        } else {
            assert(n1[k] == n0[k]);
        }
    }
    if n0[i].count > 0 {
        lemma_leaves_apart(n0, p0, t0, i, s);
        lemma_tight_frame(n0[i].bounds(), t0, t1, p0[i].0, p0[i].1);
    } else {
        let sp = p0[i];
        let li = n0[i].left as int;
        let ri = n0[i].right as int;
        let m = p0[li].1;
        assert(interior_ok(n0, p0, t0, i));
        assert(p1[li] == p0[li]);
        assert(p1[ri] == p0[ri]);
        assert(n1[li].bounds() == n0[li].bounds());
        assert(n1[ri].bounds() == n0[ri].bounds());
        let (ax2, pos2) = choose|ax2: int, pos2: int|
            0 <= ax2 < 3 && #[trigger] split_by(t0, sp.0, m, sp.1, ax2, pos2);
        assert(nested(n0, p0, i, s));
        lemma_rearranged_keeps(t0, t1, lo, hi, sp.0, m, |t: BVHTriangle| goes_left(t, ax2, pos2));
        lemma_rearranged_keeps(t0, t1, lo, hi, m, sp.1, |t: BVHTriangle| !goes_left(t, ax2, pos2));
        assert(split_by(t1, sp.0, m, sp.1, ax2, pos2));
        lemma_tight_rearranged(n0[i].bounds(), t0, t1, lo, hi, sp.0, sp.1);
        assert(interior_ok(n1, p1, t1, i));
    }
}

/// After a split every node is sound and every triangle keeps ordered bounds.
pub proof fn lemma_split_nodes(
    n0: Seq<Node>,
    p0: Seq<(int, int, int)>,
    t0: Seq<BVHTriangle>,
    n1: Seq<Node>,
    p1: Seq<(int, int, int)>,
    t1: Seq<BVHTriangle>,
    s: int,
    mid: int,
    ax: int,
    pos: int,
)
    requires
        split_step(n0, p0, t0, n1, p1, t1, s, mid, ax, pos),
    ensures
        all_ordered(t1, 0, t1.len() as int),
        forall|i: int| 0 <= i < n1.len() ==> #[trigger] node_ok(n1, p1, t1, i),
{
    let lo = p0[s].0;
    let hi = p0[s].1;
    let d = p0[s].2;
    let l = n0.len() as int;
    let lb = side_bounds(t0, lo, hi, ax, pos, true);
    let rb = side_bounds(t0, lo, hi, ax, pos, false);
    assert(node_ok(n0, p0, t0, s));
    lemma_rearranged_keeps(t0, t1, lo, hi, 0, t0.len() as int, |t: BVHTriangle| t.is_ordered());
    lemma_side_counts(t0, lo, hi, ax, pos);
    lemma_child_tight(t0, t1, lo, mid, hi, ax, pos, true);
    lemma_child_tight(t0, t1, lo, mid, hi, ax, pos, false);
    lemma_parent_holds_side(n0[s].bounds(), t0, lo, hi, ax, pos, true);
    lemma_parent_holds_side(n0[s].bounds(), t0, lo, hi, ax, pos, false);
    assert(n1[l] == leaf_node(lo, mid - lo, lb));
    assert(n1[l + 1] == leaf_node(mid, hi - mid, rb));
    assert(p1[l] == (lo, mid, d + 1));
    assert(p1[l + 1] == (mid, hi, d + 1));
    assert(n1[l].bounds() == lb);
    assert(n1[l + 1].bounds() == rb);
    assert(t1[lo].is_ordered());
    assert(t1[mid].is_ordered());
    lemma_holds_nonempty(lb, t1[lo]);
    lemma_holds_nonempty(rb, t1[mid]);
    assert forall|i: int| 0 <= i < n1.len() implies #[trigger] node_ok(n1, p1, t1, i) by {
        if i == s {
            assert(n1[s] == as_interior(n0[s], l));
            assert(p1[s] == p0[s]);
            assert(split_by(t1, lo, mid, hi, ax, pos));
            lemma_tight_rearranged(n0[s].bounds(), t0, t1, lo, hi, lo, hi);
            assert(interior_ok(n1, p1, t1, s));
        } else if i == l {
            assert(leaf_ok(n1[l], p1[l], t1));
        } else if i == l + 1 {
            assert(leaf_ok(n1[l + 1], p1[l + 1], t1));
        } else {
            lemma_split_old_node(n0, p0, t0, n1, p1, t1, s, mid, ax, pos, i);
        }
    }
}

/// An accepted split keeps the tree valid.
pub proof fn lemma_split_tree(
    n0: Seq<Node>,
    p0: Seq<(int, int, int)>,
    t0: Seq<BVHTriangle>,
    n1: Seq<Node>,
    p1: Seq<(int, int, int)>,
    t1: Seq<BVHTriangle>,
    s: int,
    mid: int,
    ax: int,
    pos: int,
)
    requires
        split_step(n0, p0, t0, n1, p1, t1, s, mid, ax, pos),
    ensures
        tree_ok(n1, p1, t1),
{
    let lo = p0[s].0;
    let hi = p0[s].1;
    let d = p0[s].2;
    let l = n0.len() as int;
    lemma_split_nodes(n0, p0, t0, n1, p1, t1, s, mid, ax, pos);
    assert(node_ok(n0, p0, t0, s));
    assert(n1[s] == as_interior(n0[s], l));
    assert(n1[l].count > 0);
    assert(n1[l + 1].count > 0);
    assert(p1[l] == (lo, mid, d + 1));
    assert(p1[l + 1] == (mid, hi, d + 1));
    assert forall|k: int| 0 <= k < l && k != s implies #[trigger] n1[k] == n0[k] && p1[k] == p0[k] by {}
    assert(p1[s] == p0[s]);
    assert(p1[0] == p0[0]);
    assert forall|t: int| 0 <= t < t1.len() implies #[trigger] covered(n1, p1, t) by {
        assert(covered(n0, p0, t));
        let i = choose|i: int| #[trigger] leaf_at(n0, p0, i, t);
        if i == s {
            if t < mid {
                assert(leaf_at(n1, p1, l, t));
            } else {
                assert(leaf_at(n1, p1, l + 1, t));
            }
        } else {
            assert(leaf_at(n1, p1, i, t));
        }
    }
    assert forall|i: int, j: int, t: int|
        #[trigger] leaf_at(n1, p1, i, t) && #[trigger] leaf_at(n1, p1, j, t) implies i == j by {
        let ii = if i >= l {
            s
        } else {
            i
        };
        let jj = if j >= l {
            s
        } else {
            j
        };
        assert(leaf_at(n0, p0, ii, t));
        assert(leaf_at(n0, p0, jj, t));
    }
    assert forall|a: int, f: int|
        0 <= a < n1.len() && 0 <= f < n1.len() && n1[a].count == 0 && n1[f].count > 0
            implies #[trigger] nested(n1, p1, a, f) by {
        assert(a < l);
        if a == s {
            assert(split_point(n1, p1, s) == mid);
            if f < l {
                lemma_leaves_apart(n0, p0, t0, f, s);
            }
        } else {
            assert(node_ok(n0, p0, t0, a));
            assert(n1[a] == n0[a]);
            let la = n0[a].left as int;
            assert(p1[la] == p0[la]);
            assert(split_point(n1, p1, a) == split_point(n0, p0, a));
            if f < l {
                assert(n1[f] == n0[f]);
                assert(nested(n0, p0, a, f));
            } else {
                assert(nested(n0, p0, a, s));
            }
        }
    }
}

/// A leaf other than the split one keeps the reason it is a leaf, since its
/// triangles did not move.
pub proof fn lemma_split_settled(
    n0: Seq<Node>,
    p0: Seq<(int, int, int)>,
    t0: Seq<BVHTriangle>,
    n1: Seq<Node>,
    p1: Seq<(int, int, int)>,
    t1: Seq<BVHTriangle>,
    s: int,
    mid: int,
    ax: int,
    pos: int,
    q: Quality,
)
    requires
        split_step(n0, p0, t0, n1, p1, t1, s, mid, ax, pos),
    ensures
        forall|i: int|
            0 <= i < n0.len() && i != s && #[trigger] settled(n0, p0, t0, q, i) ==> settled(
                n1,
                p1,
                t1,
                q,
                i,
            ),
{
    let l = n0.len() as int;
    assert forall|i: int|
        0 <= i < n0.len() && i != s && #[trigger] settled(n0, p0, t0, q, i) implies settled(
        n1,
        p1,
        t1,
        q,
        i,
    ) by {
        assert(n1[i] == n0[i]);
        assert(p1[i] == p0[i]);
        if n0[i].count > 0 {
            assert(node_ok(n0, p0, t0, s));
            assert(node_ok(n0, p0, t0, i));
            lemma_leaves_apart(n0, p0, t0, i, s);
            crate::bvh::lemma_improving_frame(
                q,
                t0,
                t1,
                p0[i].0,
                p0[i].1,
                n0[i].bounds(),
                n0[i].bounds().half_area_spec() * n0[i].count,
            );
        }
    }
}

} // verus!
