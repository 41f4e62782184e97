//! The flat per-triangle record that the GPU reads.
use vstd::prelude::*;
use crate::geometry::{Centroid, Point3, Uv, Vertex, corner_sum};

verus! {

/// A triangle's three vertices flattened into one record: positions, normals
/// and texture coordinates, in vertex order.
#[derive(Clone, Copy, Debug, PartialEq, Eq, Structural)]
pub struct PackedTriangle {
    pub v1: Point3,
    pub v2: Point3,
    pub v3: Point3,
    pub n1: Point3,
    pub n2: Point3,
    pub n3: Point3,
    pub uv1: Uv,
    pub uv2: Uv,
    pub uv3: Uv,
}

/// The packed record of the triangle with vertices `a`, `b`, `c`.
pub open spec fn packed_of(a: Vertex, b: Vertex, c: Vertex) -> PackedTriangle {
    PackedTriangle {
        v1: a.pos,
        v2: b.pos,
        v3: c.pos,
        n1: a.normal,
        n2: b.normal,
        n3: c.normal,
        uv1: a.uv,
        uv2: b.uv,
        uv3: c.uv,
    }
}

impl PackedTriangle {
    pub fn new(v1: Vertex, v2: Vertex, v3: Vertex) -> (r: PackedTriangle)
        ensures
            r == packed_of(v1, v2, v3),
    {
        PackedTriangle {
            v1: v1.pos,
            v2: v2.pos,
            v3: v3.pos,
            n1: v1.normal,
            n2: v2.normal,
            n3: v3.normal,
            uv1: v1.uv,
            uv2: v2.uv,
            uv3: v3.uv,
        }
    }

    /// The vertex `k` (0, 1 or 2) read back out of the record.
    pub open spec fn vertex_spec(self, k: int) -> Vertex {
        if k == 0 {
            Vertex { pos: self.v1, normal: self.n1, uv: self.uv1 }
        } else if k == 1 {
            Vertex { pos: self.v2, normal: self.n2, uv: self.uv2 }
        } else {
            Vertex { pos: self.v3, normal: self.n3, uv: self.uv3 }
        }
    }

    pub fn vertex(&self, k: usize) -> (r: Vertex)
        requires
            k < 3,
        ensures
            r == self.vertex_spec(k as int),
    {
        if k == 0 {
            Vertex { pos: self.v1, normal: self.n1, uv: self.uv1 }
        } else if k == 1 {
            Vertex { pos: self.v2, normal: self.n2, uv: self.uv2 }
        } else {
            Vertex { pos: self.v3, normal: self.n3, uv: self.uv3 }
        }
    }

    /// The sum of the three stored positions: the centroid in the scale the
    /// builder places triangles by.
    pub fn centroid(&self) -> (r: Centroid)
        ensures
            r == corner_sum(self.v1, self.v2, self.v3),
    {
        crate::geometry::centroid_of(self.v1, self.v2, self.v3)
    }
}

} // verus!
