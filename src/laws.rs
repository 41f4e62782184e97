//! Properties of every finished build, stated over its public arrays.
use vstd::prelude::*;
use crate::geometry::{Vertex, corner_sum};
use crate::sah::{tight, split_by, min_touched, max_touched};
use crate::geometry::{Aabb, BVHTriangle};
use crate::bvh::{BVH, BuildError, Quality, build_result};
use crate::tree::{node_ok, leaf_at, covered};
use crate::instances::{MeshDataList, MeshData, MeshInstance, packs_scene, apart};

verus! {

/// Every interior node's split is a true partition: some axis and position put
/// every triangle under its left child below the position, and every triangle
/// under its right child not below it.
pub proof fn law_partition(b: BVH, vertices: Seq<Vertex>, indices: Seq<u32>, q: Quality, i: int)
    requires
        b.built_from(vertices, indices, q),
        0 <= i < b.nodes@.len(),
        b.nodes@[i].count == 0,
    ensures
        ({
            let l = b.nodes@[i].left as int;
            let r = b.nodes@[i].right as int;
            let sp = b.spans@;
            &&& sp[l].0 == sp[i].0
            &&& sp[l].1 == sp[r].0
            &&& sp[r].1 == sp[i].1
            &&& exists|ax: int, p: int|
                0 <= ax < 3 && #[trigger] split_by(
                    b.build_triangles@,
                    sp[l].0,
                    sp[l].1,
                    sp[r].1,
                    ax,
                    p,
                )
        }),
{
    assert(node_ok(b.nodes@, b.spans@, b.build_triangles@, i));
}

/// The leaves' ranges `first..first + count` cover every triangle exactly once.
pub proof fn law_coverage(b: BVH, vertices: Seq<Vertex>, indices: Seq<u32>, q: Quality, t: int)
    requires
        b.built_from(vertices, indices, q),
        0 <= t < indices.len() / 3,
    ensures
        exists|i: int|
            0 <= i < b.nodes@.len() && #[trigger] b.nodes@[i].count > 0 && b.nodes@[i].first <= t
                < b.nodes@[i].first + b.nodes@[i].count,
        forall|i: int, j: int|
            0 <= i < b.nodes@.len() && 0 <= j < b.nodes@.len() && #[trigger] b.nodes@[i].count > 0
                && #[trigger] b.nodes@[j].count > 0 && b.nodes@[i].first <= t < b.nodes@[i].first
                + b.nodes@[i].count && b.nodes@[j].first <= t < b.nodes@[j].first
                + b.nodes@[j].count ==> i == j,
{
    let ns = b.nodes@;
    let sp = b.spans@;
    let ts = b.build_triangles@;
    assert(covered(ns, sp, t));
    let i = choose|i: int| #[trigger] leaf_at(ns, sp, i, t);
    assert(node_ok(ns, sp, ts, i));
    assert(ns[i].count > 0 && ns[i].first <= t < ns[i].first + ns[i].count);
    assert forall|i: int, j: int|
        0 <= i < ns.len() && 0 <= j < ns.len() && #[trigger] ns[i].count > 0
            && #[trigger] ns[j].count > 0 && ns[i].first <= t < ns[i].first + ns[i].count
            && ns[j].first <= t < ns[j].first + ns[j].count implies i == j by {
        assert(node_ok(ns, sp, ts, i));
        assert(node_ok(ns, sp, ts, j));
        assert(leaf_at(ns, sp, i, t));
        assert(leaf_at(ns, sp, j, t));
    }
}

/// Every node's box is the tight box of the triangles below it, and every
/// interior node's box holds both children's boxes.
pub proof fn law_bounding(b: BVH, vertices: Seq<Vertex>, indices: Seq<u32>, q: Quality, i: int)
    requires
        b.built_from(vertices, indices, q),
        0 <= i < b.nodes@.len(),
    ensures
        b.nodes@[i].count == 0 ==> b.nodes@[i].bounds().holds_box(
            b.nodes@[b.nodes@[i].left as int].bounds(),
        ) && b.nodes@[i].bounds().holds_box(b.nodes@[b.nodes@[i].right as int].bounds()),
        tight(b.nodes@[i].bounds(), b.build_triangles@, b.spans@[i].0, b.spans@[i].1),
        b.nodes@[i].count > 0 ==> tight(
            b.nodes@[i].bounds(),
            b.build_triangles@,
            b.nodes@[i].first as int,
            b.nodes@[i].first + b.nodes@[i].count,
        ),
{
    assert(node_ok(b.nodes@, b.spans@, b.build_triangles@, i));
}

/// Every interior node was split because the split was cheaper: its box's half
/// area times its triangle count exceeds the children's, each weighted by its
/// own triangle count.
pub proof fn law_split_pays(b: BVH, vertices: Seq<Vertex>, indices: Seq<u32>, q: Quality, i: int)
    requires
        b.built_from(vertices, indices, q),
        0 <= i < b.nodes@.len(),
        b.nodes@[i].count == 0,
    ensures
        ({
            let nd = b.nodes@;
            let sp = b.spans@;
            let l = nd[i].left as int;
            let r = nd[i].right as int;
            nd[i].bounds().half_area_spec() * (sp[i].1 - sp[i].0) > (sp[l].1 - sp[l].0)
                * nd[l].bounds().half_area_spec() + (sp[r].1 - sp[r].0) * nd[r].bounds().half_area_spec()
        }),
{
    assert(node_ok(b.nodes@, b.spans@, b.build_triangles@, i));
}

/// The tight box of one sequence lies within the tight box of any sequence
/// with the same elements.
proof fn lemma_tight_within(
    b1: Aabb,
    t1: Seq<BVHTriangle>,
    b2: Aabb,
    t2: Seq<BVHTriangle>,
    n: int,
    a: int,
)
    requires
        tight(b1, t1, 0, n),
        tight(b2, t2, 0, n),
        t1.len() == n,
        t2.len() == n,
        t1.to_multiset() == t2.to_multiset(),
        0 <= a < 3,
    ensures
        b2.min.coord(a) <= b1.min.coord(a),
        b1.max.coord(a) <= b2.max.coord(a),
{
    assert(min_touched(t1, 0, n, a, b1.min.coord(a)));
    let k = choose|k: int| 0 <= k < n && #[trigger] t1[k].min.coord(a) == b1.min.coord(a);
    assert(t1.contains(t1[k]));
    vstd::seq_lib::to_multiset_contains(t1, t1[k]);
    vstd::seq_lib::to_multiset_contains(t2, t1[k]);
    assert(t2.contains(t1[k]));
    let j = choose|j: int| 0 <= j < t2.len() && t2[j] == t1[k];
    assert(b2.holds(t2[j]));
    assert(b2.min.coord(a) <= t2[j].min.coord(a));
    assert(max_touched(t1, 0, n, a, b1.max.coord(a)));
    let k2 = choose|k: int| 0 <= k < n && #[trigger] t1[k].max.coord(a) == b1.max.coord(a);
    assert(t1.contains(t1[k2]));
    vstd::seq_lib::to_multiset_contains(t1, t1[k2]);
    vstd::seq_lib::to_multiset_contains(t2, t1[k2]);
    assert(t2.contains(t1[k2]));
    let j2 = choose|j: int| 0 <= j < t2.len() && t2[j] == t1[k2];
    assert(b2.holds(t2[j2]));
    assert(b2.min.coord(a) <= t2[j2].min.coord(a));
}

/// Two sequences with the same elements have the same tight box.
pub proof fn lemma_tight_unique(b1: Aabb, t1: Seq<BVHTriangle>, b2: Aabb, t2: Seq<BVHTriangle>, n: int)
    requires
        tight(b1, t1, 0, n),
        tight(b2, t2, 0, n),
        t1.len() == n,
        t2.len() == n,
        t1.to_multiset() == t2.to_multiset(),
    ensures
        b1 == b2,
{
    lemma_tight_within(b1, t1, b2, t2, n, 0);
    lemma_tight_within(b1, t1, b2, t2, n, 1);
    lemma_tight_within(b1, t1, b2, t2, n, 2);
    lemma_tight_within(b2, t2, b1, t1, n, 0);
    lemma_tight_within(b2, t2, b1, t1, n, 1);
    lemma_tight_within(b2, t2, b1, t1, n, 2);
}

/// A build under `Disabled` is one leaf that holds every triangle, and two
/// such builds of one mesh give the same node array.
pub proof fn law_disabled_single_leaf(
    b1: BVH,
    b2: BVH,
    vertices: Seq<Vertex>,
    indices: Seq<u32>,
)
    requires
        b1.built_from(vertices, indices, Quality::Disabled),
        b2.built_from(vertices, indices, Quality::Disabled),
        indices.len() / 3 > 0,
    ensures
        b1.nodes@.len() == 1,
        b1.nodes@[0].count == indices.len() / 3,
        b1.nodes@ == b2.nodes@,
{
    let n = (indices.len() / 3) as int;
    assert(node_ok(b1.nodes@, b1.spans@, b1.build_triangles@, 0));
    assert(node_ok(b2.nodes@, b2.spans@, b2.build_triangles@, 0));
    lemma_tight_unique(
        b1.nodes@[0].bounds(),
        b1.build_triangles@,
        b2.nodes@[0].bounds(),
        b2.build_triangles@,
        n,
    );
    assert(b1.nodes@[0] == b2.nodes@[0]);
    assert(b1.nodes@ =~= b2.nodes@);
}

/// Decoding the packed triangle at any position and summing its corners gives
/// the centroid (in centroid scale) of the build record at that position, which
/// is what placed it in its leaf.
pub proof fn law_packing_round_trip(
    b: BVH,
    vertices: Seq<Vertex>,
    indices: Seq<u32>,
    q: Quality,
    k: int,
)
    requires
        b.built_from(vertices, indices, q),
        0 <= k < indices.len() / 3,
    ensures
        ({
            let p = b.packed_triangles@[k];
            corner_sum(p.v1, p.v2, p.v3) == b.build_triangles@[k].centroid
        }),
{
    let t = b.build_triangles@[k];
    assert(b.packed_triangles@[k] == crate::bvh::source_packed(vertices, indices, t.source_index as int));
}

/// A mesh without indices builds, at any quality and capacity, into a hierarchy
/// with no nodes and no packed triangles.
pub proof fn law_empty_build(
    r: Result<BVH, BuildError>,
    vertices: Seq<Vertex>,
    indices: Seq<u32>,
    q: Quality,
    max_nodes: int,
)
    requires
        indices.len() == 0,
        build_result(r, vertices, indices, q, max_nodes),
    ensures
        r is Ok,
        r->Ok_0.nodes@.len() == 0,
        r->Ok_0.packed_triangles@.len() == 0,
{
}

/// Instances of one geometry get identical offsets and counts; instances of
/// different geometries get ranges of the global arrays that do not overlap.
pub proof fn law_shared_offsets(
    data: MeshDataList,
    geometries: Seq<MeshData>,
    meshes: Seq<MeshInstance>,
    q: Quality,
    j: int,
    k: int,
)
    requires
        packs_scene(data, geometries, meshes, q),
        0 <= j < meshes.len(),
        0 <= k < meshes.len(),
    ensures
        ({
            let u = data.mesh_uniforms@;
            &&& meshes[j].geometry == meshes[k].geometry ==> u[j].node_offset == u[k].node_offset
                && u[j].node_count == u[k].node_count && u[j].triangle_offset == u[k].triangle_offset
                && u[j].triangles == u[k].triangles
            &&& meshes[j].geometry != meshes[k].geometry ==> apart(u[j], u[k])
        }),
{
    let u = data.mesh_uniforms@;
    if meshes[j].geometry == meshes[k].geometry {
        assert(u[j] == (crate::instances::MeshUniform { material: u[j].material, ..u[k] }));
    } else {
        assert(apart(u[j], u[k]));
    }
}

} // verus!
