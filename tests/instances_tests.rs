use ray_bvh::bvh::{BuildError, Quality, BVH};
use ray_bvh::geometry::{Point3, Vertex};
use ray_bvh::instances::{MeshData, MeshDataList, MeshInstance, SceneBvh};
use ray_bvh::stats::BVHStats;

fn v(x: i32, y: i32, z: i32) -> Vertex {
    Vertex::new(Point3::new(x, y, z), Point3::new(0, 0, 1))
}

fn strip(count: u32, offset: i32) -> MeshData {
    let mut vertices = Vec::new();
    let mut indices = Vec::new();
    for k in 0..count {
        let x = offset + 50 * k as i32;
        vertices.push(v(x, 0, 0));
        vertices.push(v(x + 10, 0, 0));
        vertices.push(v(x, 10, 3));
        indices.extend_from_slice(&[3 * k, 3 * k + 1, 3 * k + 2]);
    }
    MeshData { vertices, indices }
}

fn pack(geometries: &Vec<MeshData>, meshes: &Vec<MeshInstance>) -> Result<MeshDataList, BuildError> {
    let mut stats = BVHStats::start();
    BVH::build_per_mesh(geometries, meshes, Quality::High, &mut stats)
}

#[test]
fn shared_geometry_shares_offsets() {
    let geometries = vec![strip(5, 0), strip(3, 1000)];
    let meshes = vec![
        MeshInstance { geometry: 0, material: 1 },
        MeshInstance { geometry: 1, material: 2 },
        MeshInstance { geometry: 0, material: 3 },
    ];
    let data = pack(&geometries, &meshes).unwrap();
    let u = &data.mesh_uniforms;
    assert_eq!(u.len(), 3);
    assert_eq!(u[0].node_offset, u[2].node_offset);
    assert_eq!(u[0].node_count, u[2].node_count);
    assert_eq!(u[0].triangle_offset, u[2].triangle_offset);
    assert_eq!(u[0].triangles, 5);
    assert_eq!(u[2].triangles, 5);
    assert_eq!(u[1].triangles, 3);
    assert_eq!((u[0].material, u[1].material, u[2].material), (1, 2, 3));
    // the first geometry is built once, first; the second follows it
    assert_eq!(u[0].node_offset, 0);
    assert_eq!(u[0].triangle_offset, 0);
    assert_eq!(u[1].node_offset, u[0].node_count);
    assert_eq!(u[1].triangle_offset, 5);
    assert_eq!(data.triangles.len(), 8);
    assert_eq!(data.nodes.len() as u32, u[0].node_count + u[1].node_count);
}

#[test]
fn distinct_geometries_do_not_overlap() {
    let geometries = vec![strip(4, 0), strip(4, 0), strip(2, 500)];
    let meshes = vec![
        MeshInstance { geometry: 2, material: 0 },
        MeshInstance { geometry: 0, material: 0 },
        MeshInstance { geometry: 1, material: 0 },
    ];
    let data = pack(&geometries, &meshes).unwrap();
    let u = &data.mesh_uniforms;
    for a in 0..3 {
        for b in 0..3 {
            if a != b {
                let (x, y) = (u[a], u[b]);
                assert!(x.node_offset + x.node_count <= y.node_offset || y.node_offset + y.node_count <= x.node_offset);
                assert!(x.triangle_offset + x.triangles <= y.triangle_offset || y.triangle_offset + y.triangles <= x.triangle_offset);
            }
        }
    }
    // each block holds the same tree that a direct build gives
    let mut stats = BVHStats::start();
    let direct = BVH::build(&geometries[0].vertices, &geometries[0].indices, Quality::High, &mut stats).unwrap();
    let s = u[1].node_offset as usize;
    assert_eq!(&data.nodes[s..s + direct.nodes.len()], &direct.nodes[..]);
    let t = u[1].triangle_offset as usize;
    assert_eq!(&data.triangles[t..t + 4], &direct.packed_triangles[..]);
}

#[test]
fn empty_geometry_contributes_nothing() {
    let geometries = vec![MeshData { vertices: vec![], indices: vec![] }, strip(2, 0)];
    let meshes = vec![MeshInstance { geometry: 0, material: 0 }, MeshInstance { geometry: 1, material: 0 }];
    let data = pack(&geometries, &meshes).unwrap();
    assert_eq!(data.mesh_uniforms[0].node_count, 0);
    assert_eq!(data.mesh_uniforms[0].triangles, 0);
    assert_eq!(data.mesh_uniforms[1].node_offset, 0);
    assert_eq!(data.triangles.len(), 2);
}

#[test]
fn unknown_geometry_is_refused() {
    let geometries = vec![strip(2, 0)];
    let meshes = vec![MeshInstance { geometry: 0, material: 0 }, MeshInstance { geometry: 1, material: 0 }];
    assert_eq!(pack(&geometries, &meshes).err(), Some(BuildError::UnknownGeometry));
}

#[test]
fn bad_geometry_error_is_passed_on() {
    let geometries = vec![strip(2, 0), MeshData { vertices: vec![v(0, 0, 0)], indices: vec![0, 0] }];
    let meshes = vec![MeshInstance { geometry: 0, material: 0 }, MeshInstance { geometry: 1, material: 0 }];
    assert_eq!(pack(&geometries, &meshes).err(), Some(BuildError::IndexCountNotMultipleOfThree));
}

#[test]
fn no_instances_give_empty_lists() {
    let data = pack(&vec![strip(2, 0)], &vec![]).unwrap();
    assert!(data.nodes.is_empty() && data.triangles.is_empty() && data.mesh_uniforms.is_empty());
    let d = MeshDataList::default();
    assert!(d.nodes.is_empty() && d.triangles.is_empty() && d.mesh_uniforms.is_empty());
}

#[test]
fn scene_builds_on_first_use_and_rebuilds_after_invalidate() {
    let geometries = vec![strip(6, 0)];
    let meshes = vec![MeshInstance { geometry: 0, material: 4 }];
    let mut scene = SceneBvh::new(geometries, meshes, Quality::High);
    assert!(!scene.built_bvh);
    let mut stats = BVHStats::start();
    scene.ensure_built(&mut stats).unwrap();
    assert!(scene.built_bvh);
    let first = scene.bvh_data.nodes.clone();
    assert!(first.len() > 1);
    let nodes_seen = stats.node_count;
    scene.ensure_built(&mut stats).unwrap();
    assert_eq!(stats.node_count, nodes_seen);
    scene.invalidate();
    scene.invalidate();
    assert!(!scene.built_bvh);
    scene.ensure_built(&mut stats).unwrap();
    assert_eq!(scene.bvh_data.nodes, first);
    assert!(stats.node_count > nodes_seen);
}

#[test]
fn quality_change_forces_rebuild() {
    let mut scene = SceneBvh::new(vec![strip(6, 0)], vec![MeshInstance { geometry: 0, material: 0 }], Quality::High);
    let mut stats = BVHStats::start();
    scene.ensure_built(&mut stats).unwrap();
    scene.set_quality(Quality::High);
    assert!(scene.built_bvh);
    scene.set_quality(Quality::Disabled);
    assert!(!scene.built_bvh);
    scene.ensure_built(&mut stats).unwrap();
    assert_eq!(scene.bvh_data.nodes.len(), 1);
    assert_eq!(scene.bvh_data.nodes[0].count, 6);
}

#[test]
fn failed_scene_build_is_not_marked_built() {
    let mut scene = SceneBvh::new(vec![strip(1, 0)], vec![MeshInstance { geometry: 3, material: 0 }], Quality::Low);
    let mut stats = BVHStats::start();
    assert_eq!(scene.ensure_built(&mut stats).err(), Some(BuildError::UnknownGeometry));
    assert!(!scene.built_bvh);
}
