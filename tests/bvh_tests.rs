use ray_bvh::bvh::{BuildError, Node, Quality, BVH, MAX_DEPTH, MAX_NODES};
use ray_bvh::geometry::{Aabb, BVHTriangle, Centroid, Point3, Uv, Vertex};
use ray_bvh::packing::PackedTriangle;
use ray_bvh::stats::BVHStats;

fn p(x: i32, y: i32, z: i32) -> Point3 {
    Point3::new(x, y, z)
}

fn v(x: i32, y: i32, z: i32) -> Vertex {
    Vertex::new(p(x, y, z), p(0, 0, 1))
}

/// A quad of two triangles sharing four vertices.
fn quad() -> (Vec<Vertex>, Vec<u32>) {
    let vertices = vec![
        Vertex::with_uv(p(-10, -10, 0), p(0, 0, 1), Uv { u: 0, v: 0 }),
        Vertex::with_uv(p(10, -10, 0), p(0, 0, 1), Uv { u: 1, v: 0 }),
        Vertex::with_uv(p(10, 10, 0), p(0, 0, 1), Uv { u: 1, v: 1 }),
        Vertex::with_uv(p(-10, 10, 0), p(0, 0, 1), Uv { u: 0, v: 1 }),
    ];
    (vertices, vec![0, 1, 2, 0, 2, 3])
}

/// `count` small triangles spread along the x axis, each in its own cell.
fn row(count: u32) -> (Vec<Vertex>, Vec<u32>) {
    let mut vertices = Vec::new();
    let mut indices = Vec::new();
    for k in 0..count {
        let x = 100 * k as i32;
        vertices.push(v(x, 0, 0));
        vertices.push(v(x + 10, 0, 1));
        vertices.push(v(x, 10, 2));
        indices.push(3 * k);
        indices.push(3 * k + 1);
        indices.push(3 * k + 2);
    }
    (vertices, indices)
}

/// A cloud of triangles with spread in all three axes.
fn cloud(count: u32) -> (Vec<Vertex>, Vec<u32>) {
    let mut vertices = Vec::new();
    let mut indices = Vec::new();
    let mut seed: u32 = 12345;
    let mut next = || {
        seed = seed.wrapping_mul(1103515245).wrapping_add(12345);
        ((seed >> 8) % 2000) as i32 - 1000
    };
    for k in 0..count {
        let (x, y, z) = (next(), next(), next());
        vertices.push(v(x, y, z));
        vertices.push(v(x + 5 + next() % 20, y, z + 3));
        vertices.push(v(x, y + 7, z - 4 + next() % 9));
        indices.push(3 * k);
        indices.push(3 * k + 1);
        indices.push(3 * k + 2);
    }
    (vertices, indices)
}

fn build(vertices: &Vec<Vertex>, indices: &Vec<u32>, q: Quality) -> BVH {
    let mut stats = BVHStats::start();
    BVH::build(vertices, indices, q, &mut stats).expect("build should succeed")
}

/// The triangles `(first, end)` below node `i`.
fn span(nodes: &[Node], i: usize) -> (usize, usize) {
    let n = &nodes[i];
    if n.count > 0 {
        (n.first as usize, (n.first + n.count) as usize)
    } else {
        (span(nodes, n.left as usize).0, span(nodes, n.right as usize).1)
    }
}

fn half_area(min: Point3, max: Point3) -> i128 {
    let ex = max.x as i128 - min.x as i128;
    let ey = max.y as i128 - min.y as i128;
    let ez = max.z as i128 - min.z as i128;
    ex * ey + ey * ez + ex * ez
}

fn holds_box(outer: &Node, inner: &Node) -> bool {
    outer.aabb_min.x <= inner.aabb_min.x
        && outer.aabb_min.y <= inner.aabb_min.y
        && outer.aabb_min.z <= inner.aabb_min.z
        && inner.aabb_max.x <= outer.aabb_max.x
        && inner.aabb_max.y <= outer.aabb_max.y
        && inner.aabb_max.z <= outer.aabb_max.z
}

/// The tight box of the triangles `lo..hi`.
fn tight_box(tris: &[BVHTriangle], lo: usize, hi: usize) -> (Point3, Point3) {
    let mut min = p(i32::MAX, i32::MAX, i32::MAX);
    let mut max = p(i32::MIN, i32::MIN, i32::MIN);
    for t in &tris[lo..hi] {
        min = p(min.x.min(t.min.x), min.y.min(t.min.y), min.z.min(t.min.z));
        max = p(max.x.max(t.max.x), max.y.max(t.max.y), max.z.max(t.max.z));
    }
    (min, max)
}

fn centroid_on(c: &Centroid, a: usize) -> i64 {
    match a {
        0 => c.x,
        1 => c.y,
        _ => c.z,
    }
}

/// Checks coverage, bounding, partition and cost of a finished tree.
fn check_tree(b: &BVH, n: usize) {
    let nodes = &b.nodes;
    assert_eq!(b.n_nodes as usize, nodes.len());
    assert_eq!(b.build_triangles.len(), n);
    assert_eq!(b.packed_triangles.len(), n);
    assert_eq!(span(nodes, 0), (0, n));
    let mut owner = vec![0usize; n];
    for (i, node) in nodes.iter().enumerate() {
        if node.count > 0 {
            assert_eq!(node.left, 0);
            assert_eq!(node.right, 0);
            let lo = node.first as usize;
            let hi = lo + node.count as usize;
            for t in lo..hi {
                owner[t] += 1;
            }
            let (min, max) = tight_box(&b.build_triangles, lo, hi);
            assert_eq!(node.aabb_min, min);
            assert_eq!(node.aabb_max, max);
        } else {
            let l = node.left as usize;
            let r = node.right as usize;
            assert!(l > i);
            assert_eq!(r, l + 1);
            assert!(holds_box(node, &nodes[l]));
            assert!(holds_box(node, &nodes[r]));
            let (lo, mid) = span(nodes, l);
            let (mid2, hi) = span(nodes, r);
            let (min, max) = tight_box(&b.build_triangles, lo, hi);
            assert_eq!(node.aabb_min, min);
            assert_eq!(node.aabb_max, max);
            assert_eq!(mid, mid2);
            assert!(lo < mid && mid < hi);
            let tris = &b.build_triangles;
            let separated = (0..3).any(|a| {
                let left_max = tris[lo..mid].iter().map(|t| centroid_on(&t.centroid, a)).max();
                let right_min = tris[mid..hi].iter().map(|t| centroid_on(&t.centroid, a)).min();
                left_max.unwrap() < right_min.unwrap()
            });
            assert!(separated, "node {} is not split by any axis", i);
            let parent = half_area(node.aabb_min, node.aabb_max) * (hi - lo) as i128;
            let children = half_area(nodes[l].aabb_min, nodes[l].aabb_max) * (mid - lo) as i128
                + half_area(nodes[r].aabb_min, nodes[r].aabb_max) * (hi - mid) as i128;
            assert!(children < parent);
        }
    }
    assert!(owner.iter().all(|&c| c == 1));
    let mut sources: Vec<u32> = b.build_triangles.iter().map(|t| t.source_index).collect();
    sources.sort();
    assert_eq!(sources, (0..n as u32).collect::<Vec<u32>>());
}

#[test]
fn quad_high_quality_is_valid() {
    let (vertices, indices) = quad();
    let b = build(&vertices, &indices, Quality::High);
    check_tree(&b, 2);
    // parent cost 2 * 400 equals the cost of every split, so the quad stays one leaf
    assert_eq!(b.n_nodes, 1);
    assert_eq!(b.nodes[0].count, 2);
    assert_eq!(b.nodes[0].first, 0);
    assert_eq!(b.nodes[0].aabb_min, p(-10, -10, 0));
    assert_eq!(b.nodes[0].aabb_max, p(10, 10, 0));
}

#[test]
fn high_quality_build_is_deterministic() {
    let (vertices, indices) = cloud(200);
    let a = build(&vertices, &indices, Quality::High);
    let b = build(&vertices, &indices, Quality::High);
    assert_eq!(a.nodes, b.nodes);
    assert_eq!(a.build_triangles, b.build_triangles);
    assert_eq!(a.packed_triangles, b.packed_triangles);
}

#[test]
fn empty_geometry_builds_empty() {
    let vertices = vec![v(0, 0, 0)];
    let indices: Vec<u32> = vec![];
    for q in [Quality::Low, Quality::High, Quality::Disabled] {
        let b = build(&vertices, &indices, q);
        assert_eq!(b.n_nodes, 0);
        assert!(b.nodes.is_empty());
        assert!(b.packed_triangles.is_empty());
    }
}

#[test]
fn disabled_twice_gives_one_leaf() {
    let (vertices, indices) = cloud(40);
    let a = build(&vertices, &indices, Quality::Disabled);
    let b = build(&vertices, &indices, Quality::Disabled);
    for t in [&a, &b] {
        assert_eq!(t.nodes.len(), 1);
        assert_eq!(t.nodes[0].count, 40);
        check_tree(t, 40);
    }
    assert_eq!(a.nodes, b.nodes);
}

#[test]
fn high_quality_cloud_is_valid() {
    let (vertices, indices) = cloud(300);
    let b = build(&vertices, &indices, Quality::High);
    assert!(b.nodes.len() > 1);
    assert!(b.nodes.len() <= 2 * 300 - 1);
    check_tree(&b, 300);
}

#[test]
fn low_quality_cloud_is_valid() {
    let (vertices, indices) = cloud(300);
    let b = build(&vertices, &indices, Quality::Low);
    assert!(b.nodes.len() > 1);
    check_tree(&b, 300);
}

#[test]
fn separated_row_splits() {
    let (vertices, indices) = row(8);
    let b = build(&vertices, &indices, Quality::High);
    check_tree(&b, 8);
    assert_eq!(b.nodes.len(), 15);
}

#[test]
fn coincident_centroids_stay_one_leaf() {
    let mut vertices = Vec::new();
    let mut indices = Vec::new();
    for k in 0..6u32 {
        vertices.push(v(0, 0, 0));
        vertices.push(v(30, 0, 0));
        vertices.push(v(0, 30, 0));
        indices.extend_from_slice(&[3 * k, 3 * k + 1, 3 * k + 2]);
    }
    let b = build(&vertices, &indices, Quality::High);
    assert_eq!(b.nodes.len(), 1);
    check_tree(&b, 6);
}

#[test]
fn packed_triangles_round_trip() {
    let (vertices, indices) = cloud(64);
    let b = build(&vertices, &indices, Quality::High);
    for (k, packed) in b.packed_triangles.iter().enumerate() {
        let t = &b.build_triangles[k];
        assert_eq!(packed.centroid(), t.centroid);
        let s = t.source_index as usize;
        assert_eq!(packed.v1, vertices[indices[3 * s] as usize].pos);
        assert_eq!(packed.v2, vertices[indices[3 * s + 1] as usize].pos);
        assert_eq!(packed.v3, vertices[indices[3 * s + 2] as usize].pos);
        assert_eq!(packed.vertex(0), vertices[indices[3 * s] as usize]);
    }
}

#[test]
fn packed_triangle_keeps_vertex_data() {
    let a = Vertex::with_uv(p(1, 2, 3), p(0, 1, 0), Uv { u: 5, v: 6 });
    let b = Vertex::with_uv(p(4, 5, 6), p(1, 0, 0), Uv { u: 7, v: 8 });
    let c = Vertex::with_uv(p(7, 8, 9), p(0, 0, 1), Uv { u: 9, v: 10 });
    let t = PackedTriangle::new(a, b, c);
    assert_eq!(t.vertex(0), a);
    assert_eq!(t.vertex(1), b);
    assert_eq!(t.vertex(2), c);
    assert_eq!(t.centroid(), Centroid { x: 12, y: 15, z: 18 });
}

#[test]
fn index_count_not_multiple_of_three() {
    let (vertices, _) = quad();
    let mut stats = BVHStats::start();
    let r = BVH::build(&vertices, &vec![0, 1, 2, 3], Quality::High, &mut stats);
    assert_eq!(r.err(), Some(BuildError::IndexCountNotMultipleOfThree));
}

#[test]
fn index_out_of_range() {
    let (vertices, _) = quad();
    let mut stats = BVHStats::start();
    let r = BVH::build(&vertices, &vec![0, 1, 4], Quality::Low, &mut stats);
    assert_eq!(r.err(), Some(BuildError::IndexOutOfRange));
}

#[test]
fn capacity_exceeded() {
    let (vertices, indices) = row(8);
    let mut stats = BVHStats::start();
    let r = BVH::build_with_capacity(&vertices, &indices, Quality::High, &mut stats, 5);
    assert_eq!(r.err(), Some(BuildError::CapacityExceeded));
    let r = BVH::build_with_capacity(&vertices, &indices, Quality::Disabled, &mut stats, 0);
    assert_eq!(r.err(), Some(BuildError::CapacityExceeded));
    let r = BVH::build_with_capacity(&vertices, &indices, Quality::Disabled, &mut stats, 1);
    assert_eq!(r.map(|b| b.nodes.len()).ok(), Some(1));
    let r = BVH::build_with_capacity(&vertices, &indices, Quality::High, &mut stats, 15);
    assert!(r.is_ok());
}

#[test]
fn constants() {
    assert_eq!(MAX_NODES, 520000);
    assert_eq!(MAX_DEPTH, 32);
    assert_eq!(Quality::default(), Quality::High);
}

#[test]
fn half_area_and_cost() {
    let b = Aabb { min: p(0, 0, 0), max: p(2, 3, 4) };
    assert_eq!(b.half_area(), 2 * 3 + 3 * 4 + 2 * 4);
    let node = Node { left: 0, right: 0, first: 0, count: 5, aabb_min: p(-1, -1, -1), aabb_max: p(1, 2, 3) };
    assert_eq!(node.cost(), (2 * 3 + 3 * 4 + 2 * 4) * 5);
    let wide = Aabb { min: p(i32::MIN, i32::MIN, i32::MIN), max: p(i32::MAX, i32::MAX, i32::MAX) };
    assert_eq!(wide.half_area(), 3 * (u32::MAX as u128) * (u32::MAX as u128));
}

#[test]
fn aabb_grow_and_empty() {
    let mut b = Aabb::empty();
    assert_eq!(b, Aabb::default());
    let t = BVHTriangle::from_corners(p(1, 5, 3), p(4, 2, 6), p(0, 8, -1), 7);
    assert_eq!(t.min, p(0, 2, -1));
    assert_eq!(t.max, p(4, 8, 6));
    assert_eq!(t.centroid, Centroid { x: 5, y: 15, z: 8 });
    assert_eq!(t.source_index, 7);
    b.grow(&t);
    assert_eq!(b, Aabb { min: p(0, 2, -1), max: p(4, 8, 6) });
}

#[test]
fn evaluate_sah_exact() {
    let (vertices, indices) = row(2);
    let b = build(&vertices, &indices, Quality::Disabled);
    // centroids (scaled by three) on x: 10 and 310
    assert_eq!(b.build_triangles[0].centroid.x, 10);
    assert_eq!(b.build_triangles[1].centroid.x, 310);
    // each side holds one triangle with box 10 x 10 x 2: half area 100 + 20 + 20
    assert_eq!(b.evaluate_sah(0, 100, 0, 2), Some(140 + 140));
    assert_eq!(b.evaluate_sah(0, 5, 0, 2), None);
    assert_eq!(b.evaluate_sah(0, 1000, 0, 2), None);
}

#[test]
fn find_best_split_low_and_high() {
    let (vertices, indices) = row(2);
    let mut b = build(&vertices, &indices, Quality::Disabled);
    let root = b.nodes[0];
    assert_eq!(b.find_best_split(&root, 0, 2), None);
    b.quality = Quality::Low;
    let s = b.find_best_split(&root, 0, 2).unwrap();
    assert_eq!(s.axis, 0);
    assert_eq!(s.pos, 165);
    assert_eq!(s.cost, 280);
    b.quality = Quality::High;
    let s = b.find_best_split(&root, 0, 2).unwrap();
    assert_eq!(s.axis, 0);
    assert_eq!(s.cost, 280);
    // the first of the equally cheap candidates: box x from 0 to 110, 50 tests,
    // position 3 * 110 * 1 / 51 = 6 leaves both on the right; 3 * 110 * 2 / 51 = 12 is the first that splits
    assert_eq!(s.pos, 12);
}

#[test]
fn stats_record_leaves() {
    let mut s = BVHStats::start();
    s.record_node();
    s.record_leaf_node(4, 3);
    s.record_leaf_node(2, 5);
    assert_eq!(s.node_count, 3);
    assert_eq!(s.leaf_count, 2);
    assert_eq!(s.leaf_min_depth, 3);
    assert_eq!(s.leaf_max_depth, 5);
    assert_eq!(s.sum_depth, 8);
    assert_eq!(s.min_tris, 2);
    assert_eq!(s.max_tris, 4);
    assert_eq!(s.sum_tris, 6);
}

#[test]
fn empty_bvh() {
    let b = BVH::empty();
    assert_eq!(b.n_nodes, 0);
    assert!(b.nodes.is_empty());
    assert_eq!(b.quality, Quality::Disabled);
}

#[test]
fn build_records_one_stat_per_node_and_leaf() {
    let (vertices, indices) = row(8);
    let mut stats = BVHStats::start();
    let b = BVH::build(&vertices, &indices, Quality::High, &mut stats).unwrap();
    assert_eq!(b.nodes.len(), 15);
    assert_eq!(stats.node_count, 15);
    assert_eq!(stats.leaf_count, 8);
    assert_eq!(stats.sum_tris, 8);
    assert_eq!(stats.min_tris, 1);
    assert_eq!(stats.max_tris, 1);
}
