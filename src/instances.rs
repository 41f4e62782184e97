//! One hierarchy per distinct mesh geometry, shared by every instance of it:
//! the per-instance records point into global node and triangle arrays.
use vstd::prelude::*;
use crate::geometry::{BVHTriangle, Vertex};
use crate::packing::PackedTriangle;
use crate::stats::BVHStats;
use crate::bvh::{BVH, BuildError, Node, Quality, MAX_NODES, built_over, indices_in_range};

verus! {

/// A mesh's geometry: vertices and a triangle list of indices into them.
pub struct MeshData {
    pub vertices: Vec<Vertex>,
    pub indices: Vec<u32>,
}

/// One placement of a geometry: the geometry's position in the scene's list
/// of geometries (its identity) and the material it is drawn with.
#[derive(Clone, Copy, Debug, PartialEq, Eq, Structural)]
pub struct MeshInstance {
    pub geometry: usize,
    pub material: u32,
}

/// What the GPU reads for one instance: where its geometry's nodes and packed
/// triangles start in the global arrays, how many of each there are, and its
/// material.
#[derive(Clone, Copy, Debug, PartialEq, Eq, Structural)]
pub struct MeshUniform {
    pub node_offset: u32,
    pub node_count: u32,
    pub triangle_offset: u32,
    pub triangles: u32,
    pub material: u32,
}

/// The global arrays of a scene and one record per instance.
pub struct MeshDataList {
    pub triangles: Vec<PackedTriangle>,
    pub nodes: Vec<Node>,
    pub mesh_uniforms: Vec<MeshUniform>,
}

impl Default for MeshDataList {
    fn default() -> (r: MeshDataList)
        ensures
            r.triangles@.len() == 0,
            r.nodes@.len() == 0,
            r.mesh_uniforms@.len() == 0,
    {
        MeshDataList { triangles: Vec::new(), nodes: Vec::new(), mesh_uniforms: Vec::new() }
    }
}

/// The number of triangles of a geometry.
pub open spec fn tri_count(g: MeshData) -> int {
    (g.indices@.len() / 3) as int
}

/// The nodes `no..no + nc` and packed triangles `to..` (one per triangle of
/// `g`) of the global arrays are a finished build of `g` at quality `q`.
pub open spec fn holds_build(
    nodes: Seq<Node>,
    tris: Seq<PackedTriangle>,
    no: int,
    nc: int,
    to: int,
    g: MeshData,
    q: Quality,
) -> bool {
    &&& 0 <= no
    &&& 0 <= nc
    &&& 0 <= to
    &&& no + nc <= nodes.len()
    &&& to + tri_count(g) <= tris.len()
    &&& exists|spans: Seq<(int, int, int)>, bt: Seq<BVHTriangle>|
        #[trigger] built_over(
            nodes.subrange(no, no + nc),
            spans,
            bt,
            tris.subrange(to, to + tri_count(g)),
            g.vertices@,
            g.indices@,
            q,
        )
}

/// Two records name ranges of the global arrays that do not meet.
pub open spec fn apart(a: MeshUniform, b: MeshUniform) -> bool {
    &&& (a.node_offset + a.node_count <= b.node_offset || b.node_offset + b.node_count
        <= a.node_offset)
    &&& (a.triangle_offset + a.triangles <= b.triangle_offset || b.triangle_offset + b.triangles
        <= a.triangle_offset)
}

/// Every instance names one of the geometries.
pub open spec fn handles_valid(geometries: Seq<MeshData>, meshes: Seq<MeshInstance>) -> bool {
    forall|j: int| 0 <= j < meshes.len() ==> (#[trigger] meshes[j]).geometry < geometries.len()
}

/// The geometry of instance `j`.
pub open spec fn geometry_of(geometries: Seq<MeshData>, meshes: Seq<MeshInstance>, j: int) -> MeshData {
    geometries[meshes[j].geometry as int]
}

/// Twice the triangle count of each of the first `k` instances, summed: a
/// bound on what they add to either global array.
pub open spec fn load(geometries: Seq<MeshData>, meshes: Seq<MeshInstance>, k: int) -> int
    decreases k,
{
    if k <= 0 {
        0
    } else {
        load(geometries, meshes, k - 1) + 2 * tri_count(geometry_of(geometries, meshes, k - 1))
    }
}

/// The geometry of instance `j` builds without error within `MAX_NODES`.
pub open spec fn buildable(g: MeshData) -> bool {
    &&& g.indices@.len() % 3 == 0
    &&& g.indices@.len() <= u32::MAX
    &&& indices_in_range(g.vertices@, g.indices@)
    &&& 2 * tri_count(g) - 1 <= MAX_NODES
}

/// No earlier instance uses the geometry of instance `j`.
pub open spec fn first_use(meshes: Seq<MeshInstance>, j: int) -> bool {
    forall|k: int| 0 <= k < j ==> #[trigger] meshes[k].geometry != meshes[j].geometry
}

/// The nodes that the first uses among the first `j` instances contribute.
pub open spec fn nodes_before(u: Seq<MeshUniform>, meshes: Seq<MeshInstance>, j: int) -> int
    decreases j,
{
    if j <= 0 {
        0
    } else {
        nodes_before(u, meshes, j - 1) + if first_use(meshes, j - 1) {
            u[j - 1].node_count as int
        } else {
            0
        }
    }
}

/// The packed triangles that the first uses among the first `j` instances contribute.
pub open spec fn tris_before(u: Seq<MeshUniform>, meshes: Seq<MeshInstance>, j: int) -> int
    decreases j,
{
    if j <= 0 {
        0
    } else {
        tris_before(u, meshes, j - 1) + if first_use(meshes, j - 1) {
            u[j - 1].triangles as int
        } else {
            0
        }
    }
}

pub proof fn lemma_before_prefix(u1: Seq<MeshUniform>, u2: Seq<MeshUniform>, meshes: Seq<MeshInstance>, j: int)
    requires
        0 <= j <= u1.len(),
        j <= u2.len(),
        forall|k: int| 0 <= k < j ==> u1[k] == u2[k],
    ensures
        nodes_before(u1, meshes, j) == nodes_before(u2, meshes, j),
        tris_before(u1, meshes, j) == tris_before(u2, meshes, j),
    decreases j,
{
    if j > 0 {
        lemma_before_prefix(u1, u2, meshes, j - 1);
    }
}

/// `data` packs the scene: one record per instance, in order, each naming a
/// finished build of its geometry with that geometry's triangle count and the
/// instance's material; instances of one geometry share their ranges, and
/// instances of different geometries name ranges that do not meet. The global
/// arrays are the builds of the geometries joined in the order in which
/// instances first use them, and nothing else: the first use of a geometry
/// starts where the earlier first uses end.
pub open spec fn packs_scene(
    data: MeshDataList,
    geometries: Seq<MeshData>,
    meshes: Seq<MeshInstance>,
    q: Quality,
) -> bool {
    let u = data.mesh_uniforms@;
    &&& u.len() == meshes.len()
    &&& data.nodes@.len() <= u32::MAX
    &&& data.triangles@.len() <= u32::MAX
    &&& forall|j: int|
        0 <= j < meshes.len() ==> {
            &&& (#[trigger] u[j]).triangles == tri_count(geometry_of(geometries, meshes, j))
            &&& u[j].material == meshes[j].material
            &&& holds_build(
                data.nodes@,
                data.triangles@,
                u[j].node_offset as int,
                u[j].node_count as int,
                u[j].triangle_offset as int,
                geometry_of(geometries, meshes, j),
                q,
            )
        }
    &&& forall|j: int, k: int|
        0 <= j < meshes.len() && 0 <= k < meshes.len() && meshes[j].geometry == meshes[k].geometry
            ==> #[trigger] u[j] == (MeshUniform { material: u[j].material, ..#[trigger] u[k] })
    &&& forall|j: int, k: int|
        0 <= j < meshes.len() && 0 <= k < meshes.len() && meshes[j].geometry != meshes[k].geometry
            ==> apart(#[trigger] u[j], #[trigger] u[k])
    &&& forall|j: int|
        0 <= j < meshes.len() && #[trigger] first_use(meshes, j) ==> u[j].node_offset == nodes_before(
            u,
            meshes,
            j,
        ) && u[j].triangle_offset == tris_before(u, meshes, j)
    &&& data.nodes@.len() == nodes_before(u, meshes, meshes.len() as int)
    &&& data.triangles@.len() == tris_before(u, meshes, meshes.len() as int)
}

/// The record of an instance with `material` whose geometry `g` sits at the
/// cache entry `(node_offset, node_count, triangle_offset)`.
pub open spec fn record(e: (u32, u32, u32), g: MeshData, material: u32) -> MeshUniform {
    MeshUniform {
        node_offset: e.0,
        node_count: e.1,
        triangle_offset: e.2,
        triangles: tri_count(g) as u32,
        material,
    }
}

pub proof fn lemma_load_grows(geometries: Seq<MeshData>, meshes: Seq<MeshInstance>, j: int, k: int)
    requires
        0 <= j <= k,
    ensures
        load(geometries, meshes, j) <= load(geometries, meshes, k),
    decreases k - j,
{
    if j < k {
        lemma_load_grows(geometries, meshes, j, k - 1);
    }
}

/// A build held in the global arrays stays held when they grow at the end.
pub proof fn lemma_holds_build_extend(
    nodes: Seq<Node>,
    tris: Seq<PackedTriangle>,
    nodes2: Seq<Node>,
    tris2: Seq<PackedTriangle>,
    no: int,
    nc: int,
    to: int,
    g: MeshData,
    q: Quality,
)
    requires
        holds_build(nodes, tris, no, nc, to, g, q),
        nodes.len() <= nodes2.len(),
        tris.len() <= tris2.len(),
        nodes2.subrange(0, nodes.len() as int) == nodes,
        tris2.subrange(0, tris.len() as int) == tris,
    ensures
        holds_build(nodes2, tris2, no, nc, to, g, q),
{
    let (spans, bt) = choose|spans: Seq<(int, int, int)>, bt: Seq<BVHTriangle>|
        #[trigger] built_over(
            nodes.subrange(no, no + nc),
            spans,
            bt,
            tris.subrange(to, to + tri_count(g)),
            g.vertices@,
            g.indices@,
            q,
        );
    assert(nodes2.subrange(no, no + nc) =~= nodes.subrange(no, no + nc)) by {
        assert forall|k: int| 0 <= k < nc implies #[trigger] nodes2.subrange(no, no + nc)[k] == nodes.subrange(no, no + nc)[k] by {
            assert(nodes2.subrange(0, nodes.len() as int)[no + k] == nodes[no + k]);
        }
    }
    assert(tris2.subrange(to, to + tri_count(g)) =~= tris.subrange(to, to + tri_count(g))) by {
        assert forall|k: int| 0 <= k < tri_count(g) implies #[trigger] tris2.subrange(to, to + tri_count(g))[k] == tris.subrange(to, to + tri_count(g))[k] by {
            assert(tris2.subrange(0, tris.len() as int)[to + k] == tris[to + k]);
        }
    }
    assert(built_over(
        nodes2.subrange(no, no + nc),
        spans,
        bt,
        tris2.subrange(to, to + tri_count(g)),
        g.vertices@,
        g.indices@,
        q,
    ));
}

impl BVH {
    /// Builds one hierarchy per distinct geometry that `meshes` use, in the order
    /// in which instances first name them, appends each to the global arrays,
    /// and emits one record per instance that points at its geometry's ranges.
    pub fn build_per_mesh(
        geometries: &Vec<MeshData>,
        meshes: &Vec<MeshInstance>,
        quality: Quality,
        stats: &mut BVHStats,
    ) -> (r: Result<MeshDataList, BuildError>)
        ensures
            !handles_valid(geometries@, meshes@) <==> r == Err::<MeshDataList, BuildError>(
                BuildError::UnknownGeometry,
            ),
            r is Ok ==> packs_scene(r->Ok_0, geometries@, meshes@, quality),
            r == Err::<MeshDataList, BuildError>(BuildError::IndexCountNotMultipleOfThree) ==> exists|j: int|
                0 <= j < meshes@.len() && #[trigger] geometry_of(geometries@, meshes@, j).indices@.len() % 3
                    != 0,
            r == Err::<MeshDataList, BuildError>(BuildError::IndexOutOfRange) ==> exists|j: int|
                0 <= j < meshes@.len() && !indices_in_range(
                    #[trigger] geometry_of(geometries@, meshes@, j).vertices@,
                    geometry_of(geometries@, meshes@, j).indices@,
                ),
            r == Err::<MeshDataList, BuildError>(BuildError::CapacityExceeded) ==> (exists|j: int|
                0 <= j < meshes@.len() && !buildable(#[trigger] geometry_of(geometries@, meshes@, j)))
                || load(geometries@, meshes@, meshes@.len() as int) > u32::MAX,
            (handles_valid(geometries@, meshes@) && (forall|j: int|
                0 <= j < meshes@.len() ==> buildable(#[trigger] geometry_of(geometries@, meshes@, j)))
                && load(geometries@, meshes@, meshes@.len() as int) <= u32::MAX) ==> r is Ok,
    {
        let ghost gs = geometries@;
        let ghost ms = meshes@;
        let mut j: usize = 0;
        while j < meshes.len()
            invariant
                j <= meshes.len(),
                forall|x: int| 0 <= x < j ==> (#[trigger] ms[x]).geometry < gs.len(),
                ms == meshes@,
                gs == geometries@,
            decreases meshes.len() - j,
        {
            if meshes[j].geometry >= geometries.len() {
                assert(!handles_valid(gs, ms));
                return Err(BuildError::UnknownGeometry);
            }
            j += 1;
        }
        let mut data = MeshDataList::default();
        let mut cache: Vec<Option<(u32, u32, u32)>> = Vec::new();
        let mut h: usize = 0;
        while h < geometries.len()
            invariant
                h <= geometries.len(),
                cache@.len() == h,
                forall|x: int| 0 <= x < h ==> (#[trigger] cache@[x]) is None,
            decreases geometries.len() - h,
        {
            cache.push(None);
            h += 1;
        }
        let mut i: usize = 0;
        while i < meshes.len()
            invariant
                i <= meshes.len(),
                ms == meshes@,
                gs == geometries@,
                handles_valid(gs, ms),
                cache@.len() == gs.len(),
                data.mesh_uniforms@.len() == i,
                data.nodes@.len() <= load(gs, ms, i as int),
                data.triangles@.len() <= load(gs, ms, i as int),
                data.nodes@.len() <= u32::MAX,
                data.triangles@.len() <= u32::MAX,
                forall|x: int|
                    0 <= x < gs.len() && (#[trigger] cache@[x]) is Some ==> {
                        &&& gs[x].indices@.len() <= u32::MAX
                        &&& holds_build(
                            data.nodes@,
                            data.triangles@,
                            cache@[x]->Some_0.0 as int,
                            cache@[x]->Some_0.1 as int,
                            cache@[x]->Some_0.2 as int,
                            gs[x],
                            quality,
                        )
                    },
                forall|x: int, y: int|
                    0 <= x < gs.len() && 0 <= y < gs.len() && x != y && (#[trigger] cache@[x]) is Some
                        && (#[trigger] cache@[y]) is Some ==> apart(
                        record(cache@[x]->Some_0, gs[x], 0),
                        record(cache@[y]->Some_0, gs[y], 0),
                    ),
                forall|x: int| 0 <= x < i ==> (#[trigger] cache@[ms[x].geometry as int]) is Some,
                forall|x: int|
                    0 <= x < gs.len() && (#[trigger] cache@[x]) is Some ==> exists|k: int|
                        0 <= k < i && #[trigger] ms[k].geometry == x,
                data.nodes@.len() == nodes_before(data.mesh_uniforms@, ms, i as int),
                data.triangles@.len() == tris_before(data.mesh_uniforms@, ms, i as int),
                forall|j: int|
                    0 <= j < i && #[trigger] first_use(ms, j) ==> data.mesh_uniforms@[j].node_offset
                        == nodes_before(data.mesh_uniforms@, ms, j)
                        && data.mesh_uniforms@[j].triangle_offset == tris_before(
                        data.mesh_uniforms@,
                        ms,
                        j,
                    ),
                forall|x: int|
                    0 <= x < i ==> #[trigger] data.mesh_uniforms@[x] == record(
                        cache@[ms[x].geometry as int]->Some_0,
                        gs[ms[x].geometry as int],
                        ms[x].material,
                    ),
            decreases meshes.len() - i,
        {
            let g = meshes[i].geometry;
            let ghost cache0 = cache@;
            let ghost u0 = data.mesh_uniforms@;
            let ghost len_n0 = data.nodes@.len();
            let ghost len_t0 = data.triangles@.len();
            assert(ms[i as int].geometry < gs.len());
            let entry = match cache[g] {
                Some(e) => e,
                None => {
                    let geo = &geometries[g];
                    if geo.indices.len() > u32::MAX as usize {
                        assert(!buildable(geometry_of(gs, ms, i as int)));
                        return Err(BuildError::CapacityExceeded);
                    }
                    let node_offset = data.nodes.len();
                    let triangle_offset = data.triangles.len();
                    let bvh = match BVH::build(&geo.vertices, &geo.indices, quality, stats) {
                        Ok(b) => b,
                        Err(e) => {
                            proof {
                                assert(geometry_of(gs, ms, i as int) == *geo);
                                if e == BuildError::CapacityExceeded {
                                    assert(!buildable(geometry_of(gs, ms, i as int)));
                                }
                            }
                            return Err(e);
                        },
                    };
                    let ghost bspans = bvh.spans@;
                    let ghost btris = bvh.build_triangles@;
                    let ghost bnodes = bvh.nodes@;
                    let ghost bpacked = bvh.packed_triangles@;
                    let ghost old_nodes = data.nodes@;
                    let ghost old_tris = data.triangles@;
                    let node_count = bvh.nodes.len();
                    let n = geo.indices.len() / 3;
                    proof {
                        lemma_load_grows(gs, ms, i + 1, ms.len() as int);
                        assert(load(gs, ms, i + 1) == load(gs, ms, i as int) + 2 * tri_count(*geo));
                    }
                    if node_offset as u64 + node_count as u64 > u32::MAX as u64 || triangle_offset as u64 + n as u64
                        > u32::MAX as u64 {
                        return Err(BuildError::CapacityExceeded);
                    }
                    let BVH { mut nodes, mut packed_triangles, .. } = bvh;
                    data.nodes.append(&mut nodes);
                    data.triangles.append(&mut packed_triangles);
                    let e = (node_offset as u32, node_count as u32, triangle_offset as u32);
                    proof {
                        assert(data.nodes@.subrange(0, old_nodes.len() as int) =~= old_nodes);
                        assert(data.triangles@.subrange(0, old_tris.len() as int) =~= old_tris);
                        assert(data.nodes@.subrange(node_offset as int, node_offset + node_count) =~= bnodes);
                        assert(data.triangles@.subrange(triangle_offset as int, triangle_offset + n) =~= bpacked);
                        assert(built_over(bnodes, bspans, btris, bpacked, geo.vertices@, geo.indices@, quality));
                        assert(holds_build(data.nodes@, data.triangles@, e.0 as int, e.1 as int, e.2 as int, gs[g as int], quality));
                        assert forall|x: int|
                            0 <= x < gs.len() && x != g && (#[trigger] cache@[x]) is Some implies holds_build(
                                data.nodes@,
                                data.triangles@,
                                cache@[x]->Some_0.0 as int,
                                cache@[x]->Some_0.1 as int,
                                cache@[x]->Some_0.2 as int,
                                gs[x],
                                quality,
                            ) by {
                            lemma_holds_build_extend(
                                old_nodes,
                                old_tris,
                                data.nodes@,
                                data.triangles@,
                                cache@[x]->Some_0.0 as int,
                                cache@[x]->Some_0.1 as int,
                                cache@[x]->Some_0.2 as int,
                                gs[x],
                                quality,
                            );
                        }
                    }
                    cache.set(g, Some(e));
                    e
                },
            };
            let u = MeshUniform {
                node_offset: entry.0,
                node_count: entry.1,
                triangle_offset: entry.2,
                triangles: (geometries[g].indices.len() / 3) as u32,
                material: meshes[i].material,
            };
            data.mesh_uniforms.push(u);
            proof {
                let un = data.mesh_uniforms@;
                assert(cache@[g as int] == Some(entry));
                if cache0[g as int] is None {
                    assert forall|k: int| 0 <= k < i implies #[trigger] ms[k].geometry != ms[i as int].geometry by {
                        assert(cache0[ms[k].geometry as int] is Some);
                    }
                    assert(first_use(ms, i as int));
                } else {
                    let k = choose|k: int| 0 <= k < i && #[trigger] ms[k].geometry == g;
                    assert(ms[k].geometry == ms[i as int].geometry);
                    assert(!first_use(ms, i as int));
                }
                lemma_before_prefix(u0, un, ms, i as int);
                assert forall|j: int| 0 <= j < i implies un[j] == u0[j] by {}
                assert forall|j: int|
                    0 <= j < i + 1 && #[trigger] first_use(ms, j) implies un[j].node_offset
                        == nodes_before(un, ms, j) && un[j].triangle_offset == tris_before(un, ms, j) by {
                    if j < i {
                        lemma_before_prefix(u0, un, ms, j);
                    }
                }
                assert forall|x: int|
                    0 <= x < gs.len() && (#[trigger] cache@[x]) is Some implies exists|k: int|
                        0 <= k < i + 1 && #[trigger] ms[k].geometry == x by {
                    if x == g {
                        assert(ms[i as int].geometry == x);
                    } else {
                        assert(cache0[x] is Some);
                    }
                }
                assert forall|x: int|
                    0 <= x < i + 1 implies (#[trigger] cache@[ms[x].geometry as int]) is Some by {
                    if x < i {
                        assert(cache0[ms[x].geometry as int] is Some);
                    }
                }
                assert forall|x: int|
                    0 <= x < i + 1 implies #[trigger] data.mesh_uniforms@[x] == record(
                        cache@[ms[x].geometry as int]->Some_0,
                        gs[ms[x].geometry as int],
                        ms[x].material,
                    ) by {
                    if x == i {
                        assert(ms[x].geometry == g);
                        assert(data.mesh_uniforms@[x] == u);
                        assert(u.triangles == tri_count(gs[g as int]) as u32);
                        assert(u == record(entry, gs[g as int], ms[x].material));
                    } else {
                        assert(data.mesh_uniforms@[x] == u0[x]);
                        assert(cache0[ms[x].geometry as int] is Some);
                        assert(cache@[ms[x].geometry as int] == cache0[ms[x].geometry as int]);
                    }
                }
            }
            i += 1;
        }
        Ok(data)
    }
}

/// A scene's geometries and instances with their packed hierarchies, built on
/// first use and kept until invalidated.
pub struct SceneBvh {
    pub geometries: Vec<MeshData>,
    pub meshes: Vec<MeshInstance>,
    pub bvh_quality: Quality,
    pub bvh_data: MeshDataList,
    pub built_bvh: bool,
}

impl SceneBvh {
    /// Whenever the data is marked built, it packs the current scene at the
    /// current quality.
    pub open spec fn current(&self) -> bool {
        self.built_bvh ==> packs_scene(self.bvh_data, self.geometries@, self.meshes@, self.bvh_quality)
    }

    /// A scene whose hierarchies are not built yet.
    pub fn new(geometries: Vec<MeshData>, meshes: Vec<MeshInstance>, quality: Quality) -> (r: SceneBvh)
        ensures
            r.geometries@ == geometries@,
            r.meshes@ == meshes@,
            r.bvh_quality == quality,
            !r.built_bvh,
            r.current(),
    {
        SceneBvh {
            geometries,
            meshes,
            bvh_quality: quality,
            bvh_data: MeshDataList::default(),
            built_bvh: false,
        }
    }

    /// Forces the next access to rebuild. Doing it twice is doing it once.
    pub fn invalidate(&mut self)
        ensures
            !final(self).built_bvh,
            final(self).geometries == old(self).geometries,
            final(self).meshes == old(self).meshes,
            final(self).bvh_quality == old(self).bvh_quality,
            final(self).current(),
    {
        self.built_bvh = false;
    }

    /// Selects the quality; a change forces the next access to rebuild.
    pub fn set_quality(&mut self, quality: Quality)
        ensures
            final(self).bvh_quality == quality,
            final(self).geometries == old(self).geometries,
            final(self).meshes == old(self).meshes,
            quality != old(self).bvh_quality ==> !final(self).built_bvh,
            quality == old(self).bvh_quality ==> final(self).built_bvh == old(self).built_bvh,
            old(self).current() ==> final(self).current(),
    {
        if quality != self.bvh_quality {
            self.bvh_quality = quality;
            self.built_bvh = false;
        }
    }

    /// Builds the hierarchies unless they are marked built. A build that
    /// succeeds packs the scene at the selected quality and marks it built; on
    /// failure nothing is marked built.
    pub fn ensure_built(&mut self, stats: &mut BVHStats) -> (r: Result<(), BuildError>)
        ensures
            final(self).geometries == old(self).geometries,
            final(self).meshes == old(self).meshes,
            final(self).bvh_quality == old(self).bvh_quality,
            old(self).current() ==> final(self).current(),
            r is Ok <==> final(self).built_bvh,
            old(self).built_bvh ==> r is Ok && final(self).bvh_data == old(self).bvh_data,
            (!old(self).built_bvh && handles_valid(old(self).geometries@, old(self).meshes@) && (
            forall|j: int|
                0 <= j < old(self).meshes@.len() ==> buildable(
                    #[trigger] geometry_of(old(self).geometries@, old(self).meshes@, j),
                )) && load(
                old(self).geometries@,
                old(self).meshes@,
                old(self).meshes@.len() as int,
            ) <= u32::MAX) ==> r is Ok,
            !old(self).built_bvh ==> (!handles_valid(old(self).geometries@, old(self).meshes@) <==> r
                == Err::<(), BuildError>(BuildError::UnknownGeometry)),
            !old(self).built_bvh && r is Ok ==> packs_scene(
                final(self).bvh_data,
                final(self).geometries@,
                final(self).meshes@,
                final(self).bvh_quality,
            ),
    {
        if self.built_bvh {
            return Ok(());
        }
        match BVH::build_per_mesh(&self.geometries, &self.meshes, self.bvh_quality, stats) {
            Ok(data) => {
                self.bvh_data = data;
                self.built_bvh = true;
                Ok(())
            },
            Err(e) => Err(e),
        }
    }
}

} // verus!
