//! The bounding volume hierarchy: its node layout, the split search, and the
//! recursive builder.
use vstd::prelude::*;
use crate::geometry::{Aabb, BVHTriangle, Point3, Vertex, empty_box, triangle_record, lemma_half_area_bound};
use crate::packing::{PackedTriangle, packed_of};
use crate::perm::{rearranged, found_in, lemma_swap_multiset, lemma_rearranged_trans};
use crate::stats::{BVHStats, after_leaf, sat32, sat64};
use crate::tree::{tree_ok, settled, node_ok, split_step, as_interior, leaf_node, lemma_split_tree, lemma_split_settled};
use crate::sah::{
    goes_left,
    side_count,
    side_bounds,
    sah_cost,
    side_min_touched,
    split_by,
    lemma_side_counts,
    lemma_side_bounds,
    lemma_holds_nonempty,
};

verus! {

/// Most nodes one build may produce.
pub const MAX_NODES: u32 = 520000;

/// Depth at which a node is no longer split, whatever the cost.
pub const MAX_DEPTH: u64 = 32;

/// Most candidate positions tried on one axis by a `Quality::High` search.
pub const TEST_SPLITS: u64 = 50;

/// How hard the builder searches for splits.
#[derive(Clone, Copy, Debug, PartialEq, Eq, Structural)]
pub enum Quality {
    /// One candidate: the middle of the longest axis.
    Low,
    /// Evenly spaced candidates on every axis that has an extent.
    High,
    /// No split at all: one leaf holds every triangle.
    Disabled,
}

impl Default for Quality {
    fn default() -> (r: Quality)
        ensures
            r == Quality::High,
    {
        Quality::High
    }
}

/// One node in the flat node array. An interior node has `count == 0` and two
/// children at `left` and `right == left + 1`; a leaf has `count > 0` and owns
/// the triangles `first..first + count`.
#[derive(Clone, Copy, Debug, PartialEq, Eq, Structural)]
pub struct Node {
    pub left: u32,
    pub right: u32,
    pub first: u32,
    pub count: u32,
    pub aabb_min: Point3,
    pub aabb_max: Point3,
}

impl Node {
    pub open spec fn bounds(self) -> Aabb {
        Aabb { min: self.aabb_min, max: self.aabb_max }
    }

    /// The cost of not splitting: half area times triangle count.
    pub fn cost(&self) -> (r: u128)
        requires
            self.bounds().is_nonempty(),
        ensures
            r as int == self.bounds().half_area_spec() * self.count,
    {
        let b = Aabb { min: self.aabb_min, max: self.aabb_max };
        let h = b.half_area();
        proof {
            lemma_half_area_bound(b);
            let c = self.count as int;
            assert(h * c <= 3 * 0xffff_ffff * 0xffff_ffff * 0xffff_ffff) by (nonlinear_arith)
                requires
                    0 <= h <= 3 * 0xffff_ffff * 0xffff_ffff,
                    0 <= c <= 0xffff_ffff,
            ;
        }
        h * self.count as u128
    }
}

/// A chosen split: an axis, a position in centroid scale, and its SAH cost.
#[derive(Clone, Copy, Debug, PartialEq, Eq, Structural)]
pub struct Split {
    pub axis: usize,
    pub pos: i64,
    pub cost: u128,
}

/// The longest axis of the box; ties go to the later axis, but x wins only when
/// strictly longer than both others.
pub open spec fn longest_axis(b: Aabb) -> int {
    if b.extent(0) > b.extent(1) && b.extent(0) > b.extent(2) {
        0
    } else if b.extent(1) > b.extent(2) {
        1
    } else {
        2
    }
}

/// The middle of the box on its longest axis, in centroid scale (rounded down).
pub open spec fn midpoint_pos(b: Aabb) -> int {
    let a = longest_axis(b);
    3 * b.min.coord(a) + (3 * b.extent(a)) / 2
}

pub open spec fn max_extent(b: Aabb) -> int {
    let m = if b.extent(0) >= b.extent(1) {
        b.extent(0)
    } else {
        b.extent(1)
    };
    if m >= b.extent(2) {
        m
    } else {
        b.extent(2)
    }
}

/// How many positions a `Quality::High` search tries on axis `a`: none on an
/// axis without extent, else `TEST_SPLITS` scaled by the axis's share of the
/// longest extent, rounded up.
pub open spec fn test_count(b: Aabb, a: int) -> int {
    if b.extent(a) <= 0 {
        0
    } else {
        (b.extent(a) * TEST_SPLITS + max_extent(b) - 1) / max_extent(b)
    }
}

/// The `i`-th of the evenly spaced positions tried on axis `a`, in centroid scale.
pub open spec fn candidate_pos(b: Aabb, a: int, i: int) -> int {
    3 * b.min.coord(a) + (3 * b.extent(a) * (i + 1)) / (test_count(b, a) + 1)
}

/// `best` is at least as good as the candidate `(a, p)`.
pub open spec fn no_worse_than(
    best: Option<Split>,
    tris: Seq<BVHTriangle>,
    lo: int,
    hi: int,
    a: int,
    p: int,
) -> bool {
    match sah_cost(tris, lo, hi, a, p) {
        None => true,
        Some(c) => best is Some && best->Some_0.cost <= c,
    }
}

/// The split names a candidate of a `Quality::High` search and its true cost.
pub open spec fn high_candidate(s: Split, tris: Seq<BVHTriangle>, lo: int, hi: int, b: Aabb) -> bool {
    &&& s.axis < 3
    &&& exists|i: int|
        0 <= i < test_count(b, s.axis as int) && s.pos == #[trigger] candidate_pos(
            b,
            s.axis as int,
            i,
        )
    &&& sah_cost(tris, lo, hi, s.axis as int, s.pos as int) == Some(s.cost as int)
}

/// Some candidate of the search that `q` runs costs less than `bound`.
pub open spec fn improving_split_exists(
    q: Quality,
    tris: Seq<BVHTriangle>,
    lo: int,
    hi: int,
    b: Aabb,
    bound: int,
) -> bool {
    match q {
        Quality::Low => match sah_cost(tris, lo, hi, longest_axis(b), midpoint_pos(b)) {
            Some(c) => c < bound,
            None => false,
        },
        Quality::High => exists|a: int, i: int|
            0 <= a < 3 && 0 <= i < test_count(b, a) && match #[trigger] sah_cost(
                tris,
                lo,
                hi,
                a,
                candidate_pos(b, a, i),
            ) {
                Some(c) => c < bound,
                None => false,
            },
        Quality::Disabled => false,
    }
}

/// Whether an improving split exists depends only on the triangles of the range.
pub proof fn lemma_improving_frame(
    q: Quality,
    t0: Seq<BVHTriangle>,
    t1: Seq<BVHTriangle>,
    lo: int,
    hi: int,
    b: Aabb,
    bound: int,
)
    requires
        forall|k: int| lo <= k < hi ==> t0[k] == t1[k],
    ensures
        improving_split_exists(q, t0, lo, hi, b, bound) == improving_split_exists(
            q,
            t1,
            lo,
            hi,
            b,
            bound,
        ),
{
    crate::sah::lemma_sah_frame(t0, t1, lo, hi);
    assert forall|a: int, p: int|
        #![trigger sah_cost(t0, lo, hi, a, p)]
        #![trigger sah_cost(t1, lo, hi, a, p)]
        sah_cost(t0, lo, hi, a, p) == sah_cost(t1, lo, hi, a, p) by {
        assert(sah_cost(t0, lo, hi, a, p) == sah_cost(t1, lo, hi, a, p));
    }
}

/// One step of a `Quality::High` search: candidate `(a, p)` replaces `best`
/// when it leaves triangles on both sides and costs strictly less, so among
/// equally cheap candidates the first one met stays.
pub open spec fn scan_step(
    best: Option<Split>,
    tris: Seq<BVHTriangle>,
    lo: int,
    hi: int,
    a: int,
    p: int,
) -> Option<Split> {
    match sah_cost(tris, lo, hi, a, p) {
        Some(c) => if best is None || c < best->Some_0.cost {
            Some(Split { axis: a as usize, pos: p as i64, cost: c as u128 })
        } else {
            best
        },
        None => best,
    }
}

/// The search over the candidates `i..` of axis `a`, starting from `best`.
pub open spec fn scan_axis(
    best: Option<Split>,
    tris: Seq<BVHTriangle>,
    lo: int,
    hi: int,
    b: Aabb,
    a: int,
    i: int,
) -> Option<Split>
    decreases test_count(b, a) - i,
{
    if i >= test_count(b, a) {
        best
    } else {
        scan_axis(scan_step(best, tris, lo, hi, a, candidate_pos(b, a, i)), tris, lo, hi, b, a, i + 1)
    }
}

/// The search over all candidates of the first `k` axes, in axis order and
/// then position order.
pub open spec fn scan_axes(tris: Seq<BVHTriangle>, lo: int, hi: int, b: Aabb, k: int) -> Option<Split>
    decreases k,
{
    if k <= 0 {
        None
    } else {
        scan_axis(scan_axes(tris, lo, hi, b, k - 1), tris, lo, hi, b, k - 1, 0)
    }
}

/// The split that the search of quality `q` picks for `tris[lo..hi)` in box `b`.
pub open spec fn best_split(q: Quality, tris: Seq<BVHTriangle>, lo: int, hi: int, b: Aabb) -> Option<
    Split,
> {
    match q {
        Quality::Low => match sah_cost(tris, lo, hi, longest_axis(b), midpoint_pos(b)) {
            None => None,
            Some(c) => Some(
                Split { axis: longest_axis(b) as usize, pos: midpoint_pos(b) as i64, cost: c as u128 },
            ),
        },
        Quality::High => scan_axes(tris, lo, hi, b, 3),
        Quality::Disabled => None,
    }
}

/// The result of the split search that `q` runs over `tris[lo..hi)` in the box `b`.
pub open spec fn is_best_split(
    r: Option<Split>,
    q: Quality,
    tris: Seq<BVHTriangle>,
    lo: int,
    hi: int,
    b: Aabb,
) -> bool {
    &&& r is Some ==> r->Some_0.axis < 3 && sah_cost(
        tris,
        lo,
        hi,
        r->Some_0.axis as int,
        r->Some_0.pos as int,
    ) == Some(r->Some_0.cost as int)
    &&& match q {
        Quality::Low => match sah_cost(tris, lo, hi, longest_axis(b), midpoint_pos(b)) {
            None => r is None,
            Some(c) => r == Some(
                Split { axis: longest_axis(b) as usize, pos: midpoint_pos(b) as i64, cost: c as u128 },
            ),
        },
        Quality::High => {
            &&& r is Some ==> high_candidate(r->Some_0, tris, lo, hi, b)
            &&& forall|a: int, i: int|
                0 <= a < 3 && 0 <= i < test_count(b, a) ==> #[trigger] no_worse_than(
                    r,
                    tris,
                    lo,
                    hi,
                    a,
                    candidate_pos(b, a, i),
                )
        },
        Quality::Disabled => r is None,
    }
}

/// When some candidate improves on `bound`, the search finds a split below it.
pub proof fn lemma_best_split_improves(
    r: Option<Split>,
    q: Quality,
    tris: Seq<BVHTriangle>,
    lo: int,
    hi: int,
    b: Aabb,
    bound: int,
)
    requires
        is_best_split(r, q, tris, lo, hi, b),
        improving_split_exists(q, tris, lo, hi, b, bound),
    ensures
        r is Some,
        r->Some_0.cost < bound,
{
    if q == Quality::High {
        let (a, i) = choose|a: int, i: int|
            0 <= a < 3 && 0 <= i < test_count(b, a) && match #[trigger] sah_cost(
                tris,
                lo,
                hi,
                a,
                candidate_pos(b, a, i),
            ) {
                Some(c) => c < bound,
                None => false,
            };
        assert(no_worse_than(r, tris, lo, hi, a, candidate_pos(b, a, i)));
    }
}

/// Why a build was refused.
#[derive(Clone, Copy, Debug, PartialEq, Eq, Structural)]
pub enum BuildError {
    /// The index list does not come in whole triangles.
    IndexCountNotMultipleOfThree,
    /// An index names no vertex.
    IndexOutOfRange,
    /// The tree would need more nodes than the capacity allows.
    CapacityExceeded,
    /// A mesh instance names a geometry that the scene does not have.
    UnknownGeometry,
}

/// Every triangle of `tris[lo..hi)` has ordered bounds.
pub open spec fn all_ordered(tris: Seq<BVHTriangle>, lo: int, hi: int) -> bool {
    forall|k: int| lo <= k < hi ==> (#[trigger] tris[k]).is_ordered()
}

/// Every index names a vertex.
pub open spec fn indices_in_range(vertices: Seq<Vertex>, indices: Seq<u32>) -> bool {
    forall|k: int| 0 <= k < indices.len() ==> (#[trigger] indices[k]) < vertices.len()
}

/// The position of corner `c` of triangle `t`.
pub open spec fn corner(vertices: Seq<Vertex>, indices: Seq<u32>, t: int, c: int) -> Vertex {
    vertices[indices[3 * t + c] as int]
}

/// The build record of source triangle `t`.
pub open spec fn source_triangle(vertices: Seq<Vertex>, indices: Seq<u32>, t: int) -> BVHTriangle {
    triangle_record(
        corner(vertices, indices, t, 0).pos,
        corner(vertices, indices, t, 1).pos,
        corner(vertices, indices, t, 2).pos,
        t,
    )
}

/// The build records of all source triangles, in source order.
pub open spec fn source_triangles(vertices: Seq<Vertex>, indices: Seq<u32>) -> Seq<BVHTriangle> {
    Seq::new((indices.len() / 3) as nat, |t: int| source_triangle(vertices, indices, t))
}

/// The packed record of source triangle `t`.
pub open spec fn source_packed(vertices: Seq<Vertex>, indices: Seq<u32>, t: int) -> PackedTriangle {
    packed_of(
        corner(vertices, indices, t, 0),
        corner(vertices, indices, t, 1),
        corner(vertices, indices, t, 2),
    )
}

/// `nodes`, `tris` and `packed` are a finished build of the mesh
/// `(vertices, indices)` at quality `q`, with node spans `spans`: the build
/// records are the source triangles rearranged; each packed triangle is the
/// source triangle its record names; with triangles, the nodes form a valid
/// tree whose leaves are leaves for a reason; without triangles there are no
/// nodes; and a tree of `n` triangles has at most `2n - 1` nodes (exactly one
/// under `Disabled`).
pub open spec fn built_over(
    nodes: Seq<Node>,
    spans: Seq<(int, int, int)>,
    tris: Seq<BVHTriangle>,
    packed: Seq<PackedTriangle>,
    vertices: Seq<Vertex>,
    indices: Seq<u32>,
    q: Quality,
) -> bool {
    let n = indices.len() / 3;
    &&& n <= u32::MAX
    &&& tris.len() == n
    &&& tris.to_multiset() == source_triangles(vertices, indices).to_multiset()
    &&& forall|k: int|
        0 <= k < n ==> (#[trigger] tris[k]).source_index < n && tris[k] == source_triangle(
            vertices,
            indices,
            tris[k].source_index as int,
        )
    &&& packed.len() == n
    &&& forall|k: int|
        0 <= k < n ==> #[trigger] packed[k] == source_packed(
            vertices,
            indices,
            tris[k].source_index as int,
        )
    &&& n == 0 ==> nodes.len() == 0
    &&& n > 0 ==> {
        &&& tree_ok(nodes, spans, tris)
        &&& forall|i: int| 0 <= i < nodes.len() ==> #[trigger] settled(nodes, spans, tris, q, i)
        &&& nodes.len() <= 2 * n - 1
        &&& q == Quality::Disabled ==> nodes.len() == 1
    }
}

/// What a build with capacity `max_nodes` returns for the mesh
/// `(vertices, indices)`: an error for an index list that is not whole
/// triangles, then for an index that names no vertex; otherwise the finished
/// hierarchy, which is owed whenever the worst case of `2n - 1` nodes fits
/// (one node under `Disabled`); a capacity error only when it does not.
pub open spec fn build_result(
    r: Result<BVH, BuildError>,
    vertices: Seq<Vertex>,
    indices: Seq<u32>,
    q: Quality,
    max_nodes: int,
) -> bool {
    let n = indices.len() / 3;
    let need = if q == Quality::Disabled {
        1
    } else {
        2 * n - 1
    };
    &&& (indices.len() % 3 != 0) <==> (r == Err::<BVH, BuildError>(
        BuildError::IndexCountNotMultipleOfThree,
    ))
    &&& (indices.len() % 3 == 0 && !indices_in_range(vertices, indices)) <==> (r == Err::<
        BVH,
        BuildError,
    >(BuildError::IndexOutOfRange))
    &&& r != Err::<BVH, BuildError>(BuildError::UnknownGeometry)
    &&& r is Ok ==> r->Ok_0.built_from(vertices, indices, q)
    &&& r is Ok ==> r->Ok_0.nodes@.len() <= max_nodes
    &&& r == Err::<BVH, BuildError>(BuildError::CapacityExceeded) ==> n > 0 && need > max_nodes
    &&& (indices.len() % 3 == 0 && indices_in_range(vertices, indices) && (n == 0 || need
        <= max_nodes)) ==> r is Ok
}

/// A hierarchy over one mesh's triangles: the flat node array (root at 0), the
/// build records in their final order, and the packed triangles in that same
/// order, so that a leaf's `first..first + count` names packed triangles too.
pub struct BVH {
    pub build_triangles: Vec<BVHTriangle>,
    pub packed_triangles: Vec<PackedTriangle>,
    pub nodes: Vec<Node>,
    pub n_nodes: u32,
    pub quality: Quality,
    /// The span `(first, end, depth)` of each node: the triangles below it and
    /// how deep it sits.
    pub spans: Ghost<Seq<(int, int, int)>>,
}

impl BVH {
    /// Grows the box `(min, max)` to take in the triangle's own bounds.
    pub fn fit_bounds(min: &mut Point3, max: &mut Point3, tri: &BVHTriangle)
        ensures
            *final(min) == crate::geometry::min_point(*old(min), tri.min),
            *final(max) == crate::geometry::max_point(*old(max), tri.max),
    {
        *min = crate::geometry::point_min(*min, tri.min);
        *max = crate::geometry::point_max(*max, tri.max);
    }

    /// The SAH cost of splitting `build_triangles[start..start + count)` at `pos` on
    /// `axis`; `None` when one side would be empty.
    pub fn evaluate_sah(&self, axis: usize, pos: i64, start: usize, count: usize) -> (r: Option<
        u128,
    >)
        requires
            axis < 3,
            start + count <= self.build_triangles.len(),
            count <= u32::MAX,
            all_ordered(self.build_triangles@, start as int, start + count),
        ensures
            match r {
                None => sah_cost(
                    self.build_triangles@,
                    start as int,
                    start + count,
                    axis as int,
                    pos as int,
                ) is None,
                Some(c) => sah_cost(
                    self.build_triangles@,
                    start as int,
                    start + count,
                    axis as int,
                    pos as int,
                ) == Some(c as int),
            },
    {
        let ghost tris = self.build_triangles@;
        let mut left_bounds = Aabb::empty();
        let mut right_bounds = Aabb::empty();
        let mut left_count: u64 = 0;
        let mut right_count: u64 = 0;
        let end = start + count;
        let mut i = start;
        while i < end
            invariant
                start <= i <= end,
                end == start + count,
                end <= tris.len(),
                tris == self.build_triangles@,
                axis < 3,
                left_bounds == side_bounds(tris, start as int, i as int, axis as int, pos as int, true),
                right_bounds == side_bounds(
                    tris,
                    start as int,
                    i as int,
                    axis as int,
                    pos as int,
                    false,
                ),
                left_count == side_count(tris, start as int, i as int, axis as int, pos as int, true),
                right_count == side_count(
                    tris,
                    start as int,
                    i as int,
                    axis as int,
                    pos as int,
                    false,
                ),
                left_count + right_count == i - start,
            decreases end - i,
        {
            proof {
                lemma_side_counts(tris, start as int, i as int, axis as int, pos as int);
            }
            let tri = &self.build_triangles[i];
            if tri.centroid.axis(axis) < pos {
                left_count += 1;
                left_bounds.grow(tri);
            } else {
                right_count += 1;
                right_bounds.grow(tri);
            }
            i += 1;
        }
        if left_count == 0 || right_count == 0 {
            return None;
        }
        proof {
            let lo = start as int;
            let hi = end as int;
            lemma_side_bounds(tris, lo, hi, axis as int, pos as int, true);
            lemma_side_bounds(tris, lo, hi, axis as int, pos as int, false);
            assert(side_min_touched(tris, lo, hi, axis as int, pos as int, true, 0, left_bounds.min.coord(0)));
            let kl = choose|k: int|
                lo <= k < hi && goes_left(tris[k], axis as int, pos as int) == true
                    && #[trigger] tris[k].min.coord(0) == left_bounds.min.coord(0);
            lemma_holds_nonempty(left_bounds, tris[kl]);
            assert(side_min_touched(tris, lo, hi, axis as int, pos as int, false, 0, right_bounds.min.coord(0)));
            let kr = choose|k: int|
                lo <= k < hi && goes_left(tris[k], axis as int, pos as int) == false
                    && #[trigger] tris[k].min.coord(0) == right_bounds.min.coord(0);
            lemma_holds_nonempty(right_bounds, tris[kr]);
            lemma_half_area_bound(left_bounds);
            lemma_half_area_bound(right_bounds);
        }
        let la = left_bounds.half_area();
        let ra = right_bounds.half_area();
        proof {
            let lc = left_count as int;
            let rc = right_count as int;
            assert(lc * la <= 0xffff_ffff * (3 * 0xffff_ffff * 0xffff_ffff)) by (nonlinear_arith)
                requires
                    0 <= la <= 3 * 0xffff_ffff * 0xffff_ffff,
                    0 <= lc <= 0xffff_ffff,
            ;
            assert(rc * ra <= 0xffff_ffff * (3 * 0xffff_ffff * 0xffff_ffff)) by (nonlinear_arith)
                requires
                    0 <= ra <= 3 * 0xffff_ffff * 0xffff_ffff,
                    0 <= rc <= 0xffff_ffff,
            ;
        }
        Some(left_count as u128 * la + right_count as u128 * ra)
    }

    /// The widest extent of the box, and the extent on each axis.
    fn extents(b: &Aabb) -> (r: (i64, i64, i64, i64))
        requires
            b.is_nonempty(),
        ensures
            r.0 as int == b.extent(0),
            r.1 as int == b.extent(1),
            r.2 as int == b.extent(2),
            r.3 as int == max_extent(*b),
            0 <= r.0 <= 0xffff_ffff,
            0 <= r.1 <= 0xffff_ffff,
            0 <= r.2 <= 0xffff_ffff,
    {
        let e0 = b.max.x as i64 - b.min.x as i64;
        let e1 = b.max.y as i64 - b.min.y as i64;
        let e2 = b.max.z as i64 - b.min.z as i64;
        let m = if e0 >= e1 {
            e0
        } else {
            e1
        };
        let m = if m >= e2 {
            m
        } else {
            e2
        };
        (e0, e1, e2, m)
    }

    /// The best split of the node's triangles `start..start + count` that this
    /// hierarchy's quality searches for, or `None` when no candidate leaves
    /// triangles on both sides (or the quality is `Disabled`).
    pub fn find_best_split(&self, node: &Node, start: usize, count: usize) -> (r: Option<Split>)
        requires
            node.bounds().is_nonempty(),
            start + count <= self.build_triangles.len(),
            count <= u32::MAX,
            all_ordered(self.build_triangles@, start as int, start + count),
        ensures
            is_best_split(
                r,
                self.quality,
                self.build_triangles@,
                start as int,
                start + count,
                node.bounds(),
            ),
            r == best_split(
                self.quality,
                self.build_triangles@,
                start as int,
                start + count,
                node.bounds(),
            ),
    {
        let ghost tris = self.build_triangles@;
        let ghost lo = start as int;
        let ghost hi = start + count;
        let b = Aabb { min: node.aabb_min, max: node.aabb_max };
        let (e0, e1, e2, m) = BVH::extents(&b);
        match self.quality {
            Quality::Low => {
                let axis: usize = if e0 > e1 && e0 > e2 {
                    0
                } else if e1 > e2 {
                    1
                } else {
                    2
                };
                let e = if axis == 0 {
                    e0
                } else if axis == 1 {
                    e1
                } else {
                    e2
                };
                let pos: i64 = 3 * (b.min.axis(axis) as i64) + (3 * e) / 2;
                match self.evaluate_sah(axis, pos, start, count) {
                    Some(c) => Some(Split { axis, pos, cost: c }),
                    None => None,
                }
            },
            Quality::High => {
                let mut best: Option<Split> = None;
                let mut a: usize = 0;
                while a < 3
                    invariant
                        a <= 3,
                        tris == self.build_triangles@,
                        b == node.bounds(),
                        self.quality == Quality::High,
                        m as int == max_extent(b),
                        e0 as int == b.extent(0),
                        e1 as int == b.extent(1),
                        e2 as int == b.extent(2),
                        0 <= e0 <= 0xffff_ffff,
                        0 <= e1 <= 0xffff_ffff,
                        0 <= e2 <= 0xffff_ffff,
                        lo == start,
                        hi == start + count,
                        start + count <= tris.len(),
                        count <= u32::MAX,
                        all_ordered(tris, lo, hi),
                        best is Some ==> high_candidate(best->Some_0, tris, lo, hi, b),
                        best == scan_axes(tris, lo, hi, b, a as int),
                        forall|a2: int, i2: int|
                            0 <= a2 < a && 0 <= i2 < test_count(b, a2) ==> #[trigger] no_worse_than(
                                best,
                                tris,
                                lo,
                                hi,
                                a2,
                                candidate_pos(b, a2, i2),
                            ),
                    decreases 3 - a,
                {
                    let e = if a == 0 {
                        e0
                    } else if a == 1 {
                        e1
                    } else {
                        e2
                    };
                    if e > 0 {
                        let n: u64 = ((e as u64) * TEST_SPLITS + (m as u64) - 1) / (m as u64);
                        proof {
                            let ei = e as int;
                            let mi = m as int;
                            assert(ei <= mi);
                            assert((ei * 50 + mi - 1) / mi <= 50) by (nonlinear_arith)
                                requires
                                    0 < ei <= mi,
                            ;
                            assert(n as int == test_count(b, a as int));
                        }
                        let min_a = b.min.axis(a) as i64;
                        let ghost best0 = best;
                        let mut i: u64 = 0;
                        while i < n
                            invariant
                                a < 3,
                                i <= n,
                                n as int == test_count(b, a as int),
                                n <= 50,
                                e as int == b.extent(a as int),
                                0 < e <= 0xffff_ffff,
                                min_a as int == b.min.coord(a as int),
                                tris == self.build_triangles@,
                                b == node.bounds(),
                                self.quality == Quality::High,
                                lo == start,
                                hi == start + count,
                                start + count <= tris.len(),
                                count <= u32::MAX,
                                all_ordered(tris, lo, hi),
                                best is Some ==> high_candidate(best->Some_0, tris, lo, hi, b),
                                best0 == scan_axes(tris, lo, hi, b, a as int),
                                scan_axis(best, tris, lo, hi, b, a as int, i as int) == scan_axis(
                                    best0,
                                    tris,
                                    lo,
                                    hi,
                                    b,
                                    a as int,
                                    0,
                                ),
                                forall|a2: int, i2: int|
                                    0 <= a2 < a && 0 <= i2 < test_count(b, a2)
                                        ==> #[trigger] no_worse_than(
                                        best,
                                        tris,
                                        lo,
                                        hi,
                                        a2,
                                        candidate_pos(b, a2, i2),
                                    ),
                                forall|i2: int|
                                    0 <= i2 < i ==> #[trigger] no_worse_than(
                                        best,
                                        tris,
                                        lo,
                                        hi,
                                        a as int,
                                        candidate_pos(b, a as int, i2),
                                    ),
                            decreases n - i,
                        {
                            proof {
                                let ei = e as int;
                                let ii = i as int;
                                let ni = n as int;
                                assert(3 * ei * (ii + 1) <= 3 * 0xffff_ffff * 50) by (nonlinear_arith)
                                    requires
                                        0 < ei <= 0xffff_ffff,
                                        0 <= ii < ni <= 50,
                                ;
                                assert((3 * ei * (ii + 1)) / (ni + 1) <= 3 * ei) by (nonlinear_arith)
                                    requires
                                        0 < ei,
                                        0 <= ii < ni,
                                ;
                            }
                            let step: u64 = (3 * (e as u64) * (i + 1)) / (n + 1);
                            let p: i64 = 3 * min_a + step as i64;
                            assert(p as int == candidate_pos(b, a as int, i as int));
                            let ghost old_best = best;
                            match self.evaluate_sah(a, p, start, count) {
                                Some(c) => {
                                    let better = match best {
                                        None => true,
                                        Some(s) => c < s.cost,
                                    };
                                    if better {
                                        best = Some(Split { axis: a, pos: p, cost: c });
                                    }
                                },
                                None => {},
                            }
                            proof {
                                assert forall|a2: int, i2: int|
                                    0 <= a2 < a && 0 <= i2 < test_count(b, a2)
                                        implies #[trigger] no_worse_than(
                                        best,
                                        tris,
                                        lo,
                                        hi,
                                        a2,
                                        candidate_pos(b, a2, i2),
                                    ) by {
                                    assert(no_worse_than(old_best, tris, lo, hi, a2, candidate_pos(b, a2, i2)));
                                }
                                assert forall|i2: int|
                                    0 <= i2 < i + 1 implies #[trigger] no_worse_than(
                                        best,
                                        tris,
                                        lo,
                                        hi,
                                        a as int,
                                        candidate_pos(b, a as int, i2),
                                    ) by {
                                    if i2 < i {
                                        assert(no_worse_than(old_best, tris, lo, hi, a as int, candidate_pos(b, a as int, i2)));
                                    }
                                }
                                if best is Some && best != old_best {
                                    assert(best->Some_0.pos == candidate_pos(b, a as int, i as int));
                                }
                                assert(best == scan_step(old_best, tris, lo, hi, a as int, p as int));
                            }
                            i += 1;
                        }
                        assert(scan_axis(best, tris, lo, hi, b, a as int, n as int) == best);
                    } else {
                        assert(test_count(b, a as int) == 0);
                        assert(scan_axis(best, tris, lo, hi, b, a as int, 0) == best);
                    }
                    assert(best == scan_axes(tris, lo, hi, b, a + 1));
                    a += 1;
                }
                best
            },
            Quality::Disabled => None,
        }
    }

    /// Moves the triangles of `start..start + count` whose centroid lies below
    /// `pos` on `axis` to the front of the range by swapping (not stable), and
    /// grows the box of each side over its triangles in the order they are met.
    /// Returns the size of the front part and the two boxes.
    fn partition(&mut self, axis: usize, pos: i64, start: usize, count: usize) -> (r: (
        usize,
        Aabb,
        Aabb,
    ))
        requires
            axis < 3,
            start + count <= old(self).build_triangles.len(),
        ensures
            final(self).nodes == old(self).nodes,
            final(self).n_nodes == old(self).n_nodes,
            final(self).quality == old(self).quality,
            final(self).packed_triangles == old(self).packed_triangles,
            rearranged(
                old(self).build_triangles@,
                final(self).build_triangles@,
                start as int,
                start + count,
            ),
            split_by(
                final(self).build_triangles@,
                start as int,
                start + r.0,
                start + count,
                axis as int,
                pos as int,
            ),
            r.0 as int == side_count(
                old(self).build_triangles@,
                start as int,
                start + count,
                axis as int,
                pos as int,
                true,
            ),
            r.1 == side_bounds(
                old(self).build_triangles@,
                start as int,
                start + count,
                axis as int,
                pos as int,
                true,
            ),
            r.2 == side_bounds(
                old(self).build_triangles@,
                start as int,
                start + count,
                axis as int,
                pos as int,
                false,
            ),
    {
        let ghost o = self.build_triangles@;
        let ghost len = o.len() as int;
        let ghost lo = start as int;
        let ghost ax = axis as int;
        let ghost p = pos as int;
        let ghost mut perm: Seq<int> = Seq::new(len as nat, |k: int| k);
        let ghost mut inv: Seq<int> = Seq::new(len as nat, |k: int| k);
        let mut left_bounds = Aabb::empty();
        let mut right_bounds = Aabb::empty();
        let mut left_count: usize = 0;
        let end = start + count;
        let mut i = start;
        while i < end
            invariant
                start <= i <= end,
                end == start + count,
                end <= len,
                lo == start,
                ax == axis,
                p == pos,
                axis < 3,
                len == o.len(),
                self.build_triangles@.len() == len,
                self.nodes == old(self).nodes,
                self.n_nodes == old(self).n_nodes,
                self.quality == old(self).quality,
                self.packed_triangles == old(self).packed_triangles,
                o == old(self).build_triangles@,
                perm.len() == len,
                inv.len() == len,
                forall|k: int|
                    0 <= k < len ==> 0 <= #[trigger] perm[k] < len && self.build_triangles@[k]
                        == o[perm[k]] && inv[perm[k]] == k,
                forall|j: int| 0 <= j < len ==> 0 <= #[trigger] inv[j] < len && perm[inv[j]] == j,
                forall|k: int| 0 <= k < len && !(lo <= k < i) ==> #[trigger] perm[k] == k,
                forall|k: int| lo <= k < i ==> lo <= #[trigger] perm[k] < i,
                left_count <= i - start,
                split_by(self.build_triangles@, lo, lo + left_count, i as int, ax, p),
                self.build_triangles@.to_multiset() == o.to_multiset(),
                left_count as int == side_count(o, lo, i as int, ax, p, true),
                left_bounds == side_bounds(o, lo, i as int, ax, p, true),
                right_bounds == side_bounds(o, lo, i as int, ax, p, false),
            decreases end - i,
        {
            proof {
                crate::sah::lemma_side_counts(o, lo, i as int, ax, p);
            }
            let tri = self.build_triangles[i];
            assert(perm[i as int] == i as int);
            assert(tri == o[i as int]);
            if tri.centroid.axis(axis) < pos {
                left_bounds.grow(&tri);
                let x = start + left_count;
                let ghost cur = self.build_triangles@;
                let other = self.build_triangles[x];
                self.build_triangles.set(x, tri);
                self.build_triangles.set(i, other);
                proof {
                    lemma_swap_multiset(cur, i as int, x as int);
                    if x != i {
                        assert(cur.update(i as int, cur[x as int]).update(x as int, cur[i as int])
                            =~= self.build_triangles@);
                    } else {
                        assert(cur =~= self.build_triangles@);
                    }
                    let px = perm[x as int];
                    let py = perm[i as int];
                    perm = perm.update(x as int, py).update(i as int, px);
                    inv = inv.update(px, i as int).update(py, x as int);
                }
                left_count += 1;
            } else {
                right_bounds.grow(&tri);
            }
            i += 1;
        }
        proof {
            let cur = self.build_triangles@;
            let hi = end as int;
            assert forall|k: int| 0 <= k < len && !(lo <= k < hi) implies #[trigger] cur[k] == o[k] by {
                assert(perm[k] == k);
            }
            assert forall|k: int| lo <= k < hi implies found_in(o, #[trigger] cur[k], lo, hi) by {
                assert(o[perm[k]] == cur[k]);
            }
            assert forall|j: int| lo <= j < hi implies found_in(cur, #[trigger] o[j], lo, hi) by {
                let k = inv[j];
                if !(lo <= k < hi) {
                    assert(perm[k] == k);
                }
                assert(cur[k] == o[j]);
            }
        }
        (left_count, left_bounds, right_bounds)
    }

    /// The builder's own bookkeeping holds: the node count matches the arrays,
    /// and the nodes form a valid tree over the triangles.
    pub open spec fn building(&self) -> bool {
        &&& self.n_nodes as int == self.nodes@.len()
        &&& self.build_triangles@.len() <= u32::MAX
        &&& tree_ok(self.nodes@, self.spans@, self.build_triangles@)
    }

    /// The split that the search picks for leaf `node_idx` over `lo..hi`.
    pub open spec fn chosen_split(&self, node_idx: int, lo: int, hi: int) -> Option<Split> {
        best_split(self.quality, self.build_triangles@, lo, hi, self.nodes@[node_idx].bounds())
    }

    /// Leaf `node_idx` over `lo..hi` at `depth` is split: the search finds a split
    /// cheaper than the leaf and the depth limit is not reached.
    pub open spec fn accepts_split(&self, node_idx: int, lo: int, hi: int, depth: int) -> bool {
        let s = self.chosen_split(node_idx, lo, hi);
        &&& s is Some
        &&& s->Some_0.cost < self.nodes@[node_idx].bounds().half_area_spec() * (hi - lo)
        &&& depth < MAX_DEPTH
    }

    /// `after` took the chosen split of leaf `node_idx`: the leaf became interior
    /// with its box and `first` kept, its children are the next two nodes, and
    /// the left child spans exactly the triangles whose centroid lies below the
    /// split position.
    pub open spec fn split_applied(&self, after: BVH, node_idx: int, lo: int, hi: int, depth: int) -> bool {
        let s = self.chosen_split(node_idx, lo, hi)->Some_0;
        let l = self.nodes@.len() as int;
        let mid = lo + side_count(self.build_triangles@, lo, hi, s.axis as int, s.pos as int, true);
        &&& after.nodes@.len() >= l + 2
        &&& after.nodes@[node_idx] == as_interior(self.nodes@[node_idx], l)
        &&& after.spans@[l] == (lo, mid, depth + 1)
        &&& after.spans@[l + 1] == (mid, hi, depth + 1)
        &&& after.nodes@[l].first == lo
        &&& after.nodes@[l + 1].first == mid
    }

    /// Splits leaf `node_idx`, which owns `tri_global_start..tri_global_start + n_tris`
    /// at `depth`, when the search finds a split cheaper than the leaf and the
    /// depth limit is not reached; then does the same for both children. The
    /// only failure is running out of the `max_nodes` capacity, which cannot
    /// happen while the leaf's worst case of `2 * (n_tris - 1)` new nodes fits.
    #[verifier::rlimit(100)]
    pub fn subdivide(
        &mut self,
        node_idx: usize,
        tri_global_start: usize,
        n_tris: usize,
        depth: u64,
        stats: &mut BVHStats,
        max_nodes: u32,
    ) -> (r: Result<(), BuildError>)
        requires
            old(self).building(),
            node_idx < old(self).nodes.len(),
            old(self).nodes@[node_idx as int].count > 0,
            old(self).spans@[node_idx as int] == (
                tri_global_start as int,
                tri_global_start + n_tris,
                depth as int,
            ),
            depth <= MAX_DEPTH,
            old(self).nodes.len() <= max_nodes,
        ensures
            final(self).quality == old(self).quality,
            final(self).packed_triangles == old(self).packed_triangles,
            old(self).nodes.len() + 2 * (n_tris - 1) <= max_nodes ==> r is Ok,
            r is Err ==> r == Err::<(), BuildError>(BuildError::CapacityExceeded),
            !old(self).accepts_split(
                node_idx as int,
                tri_global_start as int,
                tri_global_start + n_tris,
                depth as int,
            ) ==> {
                &&& r is Ok
                &&& *final(self) == *old(self)
                &&& *final(stats) == after_leaf(*old(stats), n_tris as u32, depth as u32)
            },
            old(self).accepts_split(
                node_idx as int,
                tri_global_start as int,
                tri_global_start + n_tris,
                depth as int,
            ) ==> {
                &&& old(self).nodes.len() + 2 > max_nodes ==> r is Err
                &&& r is Ok ==> old(self).split_applied(
                    *final(self),
                    node_idx as int,
                    tri_global_start as int,
                    tri_global_start + n_tris,
                    depth as int,
                )
            },
            r is Ok ==> {
                &&& final(self).nodes.len() <= max_nodes
                &&& (final(self).nodes.len() - old(self).nodes.len()) % 2 == 0
                &&& final(stats).node_count == sat32(
                    old(stats).node_count + (final(self).nodes.len() - old(self).nodes.len()) + 1,
                )
                &&& final(stats).leaf_count == sat32(
                    old(stats).leaf_count + (final(self).nodes.len() - old(self).nodes.len()) / 2 + 1,
                )
                &&& final(stats).sum_tris == sat64(old(stats).sum_tris + n_tris)
            },
            r is Ok ==> {
                &&& final(self).building()
                &&& rearranged(
                    old(self).build_triangles@,
                    final(self).build_triangles@,
                    tri_global_start as int,
                    tri_global_start + n_tris,
                )
                &&& old(self).nodes.len() <= final(self).nodes.len() <= old(self).nodes.len() + 2 * (
                n_tris - 1)
                &&& forall|i: int|
                    0 <= i < old(self).nodes.len() && i != node_idx ==> #[trigger] final(self).nodes@[i] == old(self).nodes@[i]
                &&& forall|i: int|
                    0 <= i < old(self).nodes.len() ==> #[trigger] final(self).spans@[i] == old(self).spans@[i]
                &&& forall|i: int|
                    0 <= i < old(self).nodes.len() && i != node_idx && #[trigger] settled(
                        old(self).nodes@,
                        old(self).spans@,
                        old(self).build_triangles@,
                        old(self).quality,
                        i,
                    ) ==> settled(
                        final(self).nodes@,
                        final(self).spans@,
                        final(self).build_triangles@,
                        final(self).quality,
                        i,
                    )
                &&& forall|i: int|
                    (i == node_idx || old(self).nodes.len() <= i < final(self).nodes.len())
                        ==> #[trigger] settled(
                        final(self).nodes@,
                        final(self).spans@,
                        final(self).build_triangles@,
                        final(self).quality,
                        i,
                    )
            },
        decreases MAX_DEPTH - depth,
    {
        let ghost n0 = self.nodes@;
        let ghost p0 = self.spans@;
        let ghost t0 = self.build_triangles@;
        let ghost lo = tri_global_start as int;
        let ghost hi = tri_global_start + n_tris;
        proof {
            assert(node_ok(n0, p0, t0, node_idx as int));
        }
        let node = self.nodes[node_idx];
        let parent_cost = node.cost();
        let best = self.find_best_split(&node, tri_global_start, n_tris);
        let split = match best {
            Some(s) => {
                if s.cost < parent_cost && depth < MAX_DEPTH {
                    s
                } else {
                    proof {
                        if depth < MAX_DEPTH && improving_split_exists(
                            self.quality,
                            t0,
                            lo,
                            hi,
                            node.bounds(),
                            node.bounds().half_area_spec() * node.count,
                        ) {
                            lemma_best_split_improves(
                                best,
                                self.quality,
                                t0,
                                lo,
                                hi,
                                node.bounds(),
                                node.bounds().half_area_spec() * node.count,
                            );
                        }
                    }
                    stats.record_leaf_node(n_tris as u32, depth as u32);
                    return Ok(());
                }
            },
            None => {
                proof {
                    if improving_split_exists(
                        self.quality,
                        t0,
                        lo,
                        hi,
                        node.bounds(),
                        node.bounds().half_area_spec() * node.count,
                    ) {
                        lemma_best_split_improves(
                            best,
                            self.quality,
                            t0,
                            lo,
                            hi,
                            node.bounds(),
                            node.bounds().half_area_spec() * node.count,
                        );
                    }
                }
                stats.record_leaf_node(n_tris as u32, depth as u32);
                return Ok(());
            },
        };
        proof {
            crate::sah::lemma_side_counts(t0, lo, hi, split.axis as int, split.pos as int);
        }
        if self.n_nodes as u64 + 2 > max_nodes as u64 {
            return Err(BuildError::CapacityExceeded);
        }
        let (left_count, left_bounds, right_bounds) = self.partition(
            split.axis,
            split.pos,
            tri_global_start,
            n_tris,
        );
        let right_count = n_tris - left_count;
        let left_index = self.n_nodes;
        let right_index = self.n_nodes + 1;
        self.n_nodes = self.n_nodes + 2;
        self.nodes.push(
            Node {
                left: 0,
                right: 0,
                first: tri_global_start as u32,
                count: left_count as u32,
                aabb_min: left_bounds.min,
                aabb_max: left_bounds.max,
            },
        );
        self.nodes.push(
            Node {
                left: 0,
                right: 0,
                first: (tri_global_start + left_count) as u32,
                count: right_count as u32,
                aabb_min: right_bounds.min,
                aabb_max: right_bounds.max,
            },
        );
        let mut parent = self.nodes[node_idx];
        parent.left = left_index;
        parent.right = right_index;
        parent.count = 0;
        self.nodes.set(node_idx, parent);
        stats.record_node();
        let ghost mid = lo + left_count;
        let ghost d = depth as int;
        self.spans = Ghost(p0.push((lo, mid, d + 1)).push((mid, hi, d + 1)));
        proof {
            let l = n0.len() as int;
            let lb = crate::sah::side_bounds(t0, lo, hi, split.axis as int, split.pos as int, true);
            let rb = crate::sah::side_bounds(t0, lo, hi, split.axis as int, split.pos as int, false);
            assert(self.nodes@ =~= n0.update(node_idx as int, as_interior(n0[node_idx as int], l)).push(
                leaf_node(lo, mid - lo, lb),
            ).push(leaf_node(mid, hi - mid, rb)));
            assert(split_step(
                n0,
                p0,
                t0,
                self.nodes@,
                self.spans@,
                self.build_triangles@,
                node_idx as int,
                mid,
                split.axis as int,
                split.pos as int,
            ));
            lemma_split_tree(
                n0,
                p0,
                t0,
                self.nodes@,
                self.spans@,
                self.build_triangles@,
                node_idx as int,
                mid,
                split.axis as int,
                split.pos as int,
            );
            lemma_split_settled(
                n0,
                p0,
                t0,
                self.nodes@,
                self.spans@,
                self.build_triangles@,
                node_idx as int,
                mid,
                split.axis as int,
                split.pos as int,
                self.quality,
            );
        }
        let ghost n1 = self.nodes@;
        let ghost p1 = self.spans@;
        let ghost t1 = self.build_triangles@;
        match self.subdivide(
            left_index as usize,
            tri_global_start,
            left_count,
            depth + 1,
            stats,
            max_nodes,
        ) {
            Ok(()) => {},
            Err(e) => {
                return Err(e);
            },
        }
        let ghost n2 = self.nodes@;
        let ghost p2 = self.spans@;
        let ghost t2 = self.build_triangles@;
        assert(n2[right_index as int] == n1[right_index as int]);
        match self.subdivide(
            right_index as usize,
            tri_global_start + left_count,
            right_count,
            depth + 1,
            stats,
            max_nodes,
        ) {
            Ok(()) => {},
            Err(e) => {
                return Err(e);
            },
        }
        proof {
            lemma_rearranged_trans(t0, t1, t2, lo, hi, lo, mid);
            lemma_rearranged_trans(t0, t2, self.build_triangles@, lo, hi, mid, hi);
            let n3 = self.nodes@;
            let p3 = self.spans@;
            let t3 = self.build_triangles@;
            let q = self.quality;
            let l = n0.len() as int;
            assert(n3.len() <= l + 2 * (n_tris - 1));
            assert forall|i: int| 0 <= i < l && i != node_idx implies #[trigger] n3[i] == n0[i] by {
                assert(n2[i] == n1[i]);
                assert(n1[i] == n0[i]);
            }
            assert forall|i: int| 0 <= i < l implies #[trigger] p3[i] == p0[i] by {
                assert(p2[i] == p1[i]);
                assert(p1[i] == p0[i]);
            }
            assert forall|i: int|
                0 <= i < l && i != node_idx && #[trigger] settled(n0, p0, t0, q, i) implies settled(
                n3,
                p3,
                t3,
                q,
                i,
            ) by {
                assert(settled(n1, p1, t1, q, i));
                assert(settled(n2, p2, t2, q, i));
            }
            assert forall|i: int|
                (i == node_idx || l <= i < n3.len()) implies #[trigger] settled(n3, p3, t3, q, i) by {
                if i == node_idx {
                    assert(n1[i].count == 0);
                    assert(n2[i] == n1[i]);
                    assert(n3[i] == n2[i]);
                } else if i == l {
                    assert(left_index as int == l);
                    assert(settled(n2, p2, t2, q, left_index as int));
                } else if l + 2 <= i < n2.len() {
                    assert(settled(n2, p2, t2, q, i));
                }
            }
        }
        Ok(())
    }

    /// The hierarchy is a finished build of the mesh `(vertices, indices)` at
    /// quality `q` (see `built_over`), and keeps its node count.
    pub open spec fn built_from(&self, vertices: Seq<Vertex>, indices: Seq<u32>, q: Quality) -> bool {
        &&& indices.len() / 3 > 0 ==> self.quality == q
        &&& self.n_nodes as int == self.nodes@.len()
        &&& built_over(
            self.nodes@,
            self.spans@,
            self.build_triangles@,
            self.packed_triangles@,
            vertices,
            indices,
            q,
        )
    }

    /// The hierarchy of a mesh without triangles.
    pub fn empty() -> (r: BVH)
        ensures
            r.build_triangles@.len() == 0,
            r.packed_triangles@.len() == 0,
            r.nodes@.len() == 0,
            r.n_nodes == 0,
            r.quality == Quality::Disabled,
    {
        BVH {
            build_triangles: Vec::new(),
            packed_triangles: Vec::new(),
            nodes: Vec::new(),
            n_nodes: 0,
            quality: Quality::Disabled,
            spans: Ghost(Seq::empty()),
        }
    }

    /// Builds the hierarchy of the mesh `(vertices, indices)` with at most
    /// `MAX_NODES` nodes.
    pub fn build(
        vertices: &Vec<Vertex>,
        indices: &Vec<u32>,
        quality: Quality,
        stats: &mut BVHStats,
    ) -> (r: Result<BVH, BuildError>)
        requires
            indices.len() <= u32::MAX,
        ensures
            build_result(r, vertices@, indices@, quality, MAX_NODES as int),
    {
        BVH::build_with_capacity(vertices, indices, quality, stats, MAX_NODES)
    }

    /// Builds the hierarchy of the mesh `(vertices, indices)` with at most
    /// `max_nodes` nodes.
    pub fn build_with_capacity(
        vertices: &Vec<Vertex>,
        indices: &Vec<u32>,
        quality: Quality,
        stats: &mut BVHStats,
        max_nodes: u32,
    ) -> (r: Result<BVH, BuildError>)
        requires
            indices.len() <= u32::MAX,
        ensures
            build_result(r, vertices@, indices@, quality, max_nodes as int),
    {
        if indices.len() % 3 != 0 {
            return Err(BuildError::IndexCountNotMultipleOfThree);
        }
        let mut k: usize = 0;
        while k < indices.len()
            invariant
                k <= indices.len(),
                indices.len() % 3 == 0,
                forall|j: int| 0 <= j < k ==> (#[trigger] indices@[j]) < vertices@.len(),
            decreases indices.len() - k,
        {
            if indices[k] as usize >= vertices.len() {
                assert(indices@[k as int] >= vertices@.len());
                assert(!indices_in_range(vertices@, indices@));
                assert(indices.len() % 3 == 0);
                return Err(BuildError::IndexOutOfRange);
            }
            k += 1;
        }
        let n_tris = indices.len() / 3;
        if n_tris == 0 {
            let e = BVH::empty();
            assert(source_triangles(vertices@, indices@) =~= e.build_triangles@);
            return Ok(e);
        }
        if max_nodes == 0 {
            return Err(BuildError::CapacityExceeded);
        }
        let ghost src = source_triangles(vertices@, indices@);
        let mut build_triangles: Vec<BVHTriangle> = Vec::new();
        let mut root = Aabb::empty();
        let mut t: usize = 0;
        while t < n_tris
            invariant
                n_tris == indices.len() / 3,
                indices.len() % 3 == 0,
                indices.len() <= u32::MAX,
                t <= n_tris,
                indices_in_range(vertices@, indices@),
                src == source_triangles(vertices@, indices@),
                build_triangles@ == src.subrange(0, t as int),
                t == 0 ==> root == empty_box(),
                t > 0 ==> crate::sah::tight(root, build_triangles@, 0, t as int),
                all_ordered(build_triangles@, 0, t as int),
            decreases n_tris - t,
        {
            let i = 3 * t;
            let a = vertices[indices[i] as usize].pos;
            let b = vertices[indices[i + 1] as usize].pos;
            let c = vertices[indices[i + 2] as usize].pos;
            let tri = BVHTriangle::from_corners(a, b, c, t as u32);
            let ghost before = build_triangles@;
            build_triangles.push(tri);
            proof {
                assert(tri == src[t as int]);
                assert(build_triangles@ =~= src.subrange(0, t + 1));
                assert forall|k: int| 0 <= k < t implies #[trigger] build_triangles@[k] == before[k] by {}
                if t > 0 {
                    crate::tree::lemma_tight_frame(root, before, build_triangles@, 0, t as int);
                }
                crate::sah::lemma_tight_grow(root, build_triangles@, t as int);
            }
            BVH::fit_bounds(&mut root.min, &mut root.max, &tri);
            t += 1;
        }
        assert(build_triangles@ =~= src);
        let mut nodes: Vec<Node> = Vec::new();
        nodes.push(
            Node {
                left: 0,
                right: 0,
                first: 0,
                count: n_tris as u32,
                aabb_min: root.min,
                aabb_max: root.max,
            },
        );
        let ghost spans0 = seq![(0int, n_tris as int, 0int)];
        let mut bvh = BVH {
            build_triangles,
            packed_triangles: Vec::new(),
            nodes,
            n_nodes: 1,
            quality,
            spans: Ghost(spans0),
        };
        proof {
            let ns = bvh.nodes@;
            let ts = bvh.build_triangles@;
            assert(ts[0].is_ordered());
            crate::sah::lemma_holds_nonempty(root, ts[0]);
            assert(node_ok(ns, spans0, ts, 0));
            assert forall|x: int| 0 <= x < ts.len() implies #[trigger] crate::tree::covered(ns, spans0, x) by {
                assert(crate::tree::leaf_at(ns, spans0, 0, x));
            }
            assert(tree_ok(ns, spans0, ts));
        }
        match quality {
            Quality::Disabled => {},
            _ => {
                match bvh.subdivide(0, 0, n_tris, 0, stats, max_nodes) {
                    Ok(()) => {},
                    Err(e) => {
                        return Err(e);
                    },
                }
            },
        }
        proof {
            assert forall|x: int| 0 <= x < bvh.nodes@.len() implies #[trigger] settled(
                bvh.nodes@,
                bvh.spans@,
                bvh.build_triangles@,
                quality,
                x,
            ) by {}
            let ts = bvh.build_triangles@;
            assert forall|x: int| 0 <= x < n_tris implies (#[trigger] ts[x]).source_index < n_tris
                && ts[x] == source_triangle(vertices@, indices@, ts[x].source_index as int) by {
                if quality != Quality::Disabled {
                    assert(crate::perm::found_in(src, ts[x], 0, n_tris as int));
                    let j = choose|j: int| 0 <= j < n_tris && #[trigger] src[j] == ts[x];
                    assert(src[j] == source_triangle(vertices@, indices@, j));
                } else {
                    assert(ts[x] == src[x]);
                }
            }
        }
        let mut packed: Vec<PackedTriangle> = Vec::new();
        let mut k: usize = 0;
        while k < n_tris
            invariant
                k <= n_tris,
                n_tris == indices.len() / 3,
                indices.len() % 3 == 0,
                indices_in_range(vertices@, indices@),
                bvh.build_triangles@.len() == n_tris,
                packed@.len() == k,
                forall|x: int|
                    0 <= x < n_tris ==> (#[trigger] bvh.build_triangles@[x]).source_index < n_tris,
                forall|x: int|
                    0 <= x < k ==> #[trigger] packed@[x] == source_packed(
                        vertices@,
                        indices@,
                        bvh.build_triangles@[x].source_index as int,
                    ),
            decreases n_tris - k,
        {
            let s = bvh.build_triangles[k].source_index as usize;
            assert(s < n_tris);
            let v1 = vertices[indices[3 * s] as usize];
            let v2 = vertices[indices[3 * s + 1] as usize];
            let v3 = vertices[indices[3 * s + 2] as usize];
            packed.push(PackedTriangle::new(v1, v2, v3));
            k += 1;
        }
        bvh.packed_triangles = packed;
        Ok(bvh)
    }
}

} // verus!
