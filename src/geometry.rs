//! Points, vertices, per-triangle build records and axis-aligned boxes.
//!
//! Coordinates are fixed-point integers: a scene unit is whatever the caller
//! scaled its positions by before handing them over.
use vstd::prelude::*;

verus! {

/// A point or a vector in fixed-point scene units.
#[derive(Clone, Copy, Debug, PartialEq, Eq, Structural)]
pub struct Point3 {
    pub x: i32,
    pub y: i32,
    pub z: i32,
}

impl Point3 {
    /// The coordinate on axis `a` (0 = x, 1 = y, anything else = z).
    pub open spec fn coord(self, a: int) -> int {
        if a == 0 {
            self.x as int
        } else if a == 1 {
            self.y as int
        } else {
            self.z as int
        }
    }

    pub fn new(x: i32, y: i32, z: i32) -> (r: Point3)
        ensures
            r == (Point3 { x, y, z }),
    {
        Point3 { x, y, z }
    }

    pub fn axis(&self, a: usize) -> (r: i32)
        ensures
            r as int == self.coord(a as int),
    {
        if a == 0 {
            self.x
        } else if a == 1 {
            self.y
        } else {
            self.z
        }
    }
}

/// The sum of a triangle's three corners: its centroid scaled by three, which
/// keeps it exact in integers. Split positions are given in the same scale.
#[derive(Clone, Copy, Debug, PartialEq, Eq, Structural)]
pub struct Centroid {
    pub x: i64,
    pub y: i64,
    pub z: i64,
}

impl Centroid {
    pub open spec fn coord(self, a: int) -> int {
        if a == 0 {
            self.x as int
        } else if a == 1 {
            self.y as int
        } else {
            self.z as int
        }
    }

    pub fn axis(&self, a: usize) -> (r: i64)
        ensures
            r as int == self.coord(a as int),
    {
        if a == 0 {
            self.x
        } else if a == 1 {
            self.y
        } else {
            self.z
        }
    }
}

pub open spec fn corner_sum(a: Point3, b: Point3, c: Point3) -> Centroid {
    Centroid {
        x: (a.x + b.x + c.x) as i64,
        y: (a.y + b.y + c.y) as i64,
        z: (a.z + b.z + c.z) as i64,
    }
}

/// Three times the centroid of the triangle `(a, b, c)`.
pub fn centroid_of(a: Point3, b: Point3, c: Point3) -> (r: Centroid)
    ensures
        r == corner_sum(a, b, c),
        forall|ax: int| #[trigger] r.coord(ax) == a.coord(ax) + b.coord(ax) + c.coord(ax),
{
    Centroid {
        x: a.x as i64 + b.x as i64 + c.x as i64,
        y: a.y as i64 + b.y as i64 + c.y as i64,
        z: a.z as i64 + b.z as i64 + c.z as i64,
    }
}

/// Texture coordinates in fixed-point units.
#[derive(Clone, Copy, Debug, PartialEq, Eq, Structural)]
pub struct Uv {
    pub u: i32,
    pub v: i32,
}

/// A mesh vertex: position, normal and texture coordinates, all fixed-point.
#[derive(Clone, Copy, Debug, PartialEq, Eq, Structural)]
pub struct Vertex {
    pub pos: Point3,
    pub normal: Point3,
    pub uv: Uv,
}

impl Vertex {
    pub fn new(pos: Point3, normal: Point3) -> (r: Vertex)
        ensures
            r.pos == pos,
            r.normal == normal,
            r.uv == (Uv { u: 0, v: 0 }),
    {
        Vertex { pos, normal, uv: Uv { u: 0, v: 0 } }
    }

    pub fn with_uv(pos: Point3, normal: Point3, uv: Uv) -> (r: Vertex)
        ensures
            r == (Vertex { pos, normal, uv }),
    {
        Vertex { pos, normal, uv }
    }
}

pub open spec fn min_i(a: int, b: int) -> int {
    if a <= b {
        a
    } else {
        b
    }
}

pub open spec fn max_i(a: int, b: int) -> int {
    if a >= b {
        a
    } else {
        b
    }
}

pub open spec fn min_point(a: Point3, b: Point3) -> Point3 {
    Point3 {
        x: min_i(a.x as int, b.x as int) as i32,
        y: min_i(a.y as int, b.y as int) as i32,
        z: min_i(a.z as int, b.z as int) as i32,
    }
}

pub open spec fn max_point(a: Point3, b: Point3) -> Point3 {
    Point3 {
        x: max_i(a.x as int, b.x as int) as i32,
        y: max_i(a.y as int, b.y as int) as i32,
        z: max_i(a.z as int, b.z as int) as i32,
    }
}

fn min32(a: i32, b: i32) -> (r: i32)
    ensures
        r as int == min_i(a as int, b as int),
{
    if a <= b {
        a
    } else {
        b
    }
}

fn max32(a: i32, b: i32) -> (r: i32)
    ensures
        r as int == max_i(a as int, b as int),
{
    if a >= b {
        a
    } else {
        b
    }
}

pub fn point_min(a: Point3, b: Point3) -> (r: Point3)
    ensures
        r == min_point(a, b),
{
    Point3 { x: min32(a.x, b.x), y: min32(a.y, b.y), z: min32(a.z, b.z) }
}

pub fn point_max(a: Point3, b: Point3) -> (r: Point3)
    ensures
        r == max_point(a, b),
{
    Point3 { x: max32(a.x, b.x), y: max32(a.y, b.y), z: max32(a.z, b.z) }
}

/// The record that the builder moves around for one triangle: the sum of its
/// corners, its own bounds, and the number of the source triangle it stands for
/// (triangle `t` is made of `indices[3t..3t+3]`).
#[derive(Clone, Copy, Debug, PartialEq, Eq, Structural)]
pub struct BVHTriangle {
    pub centroid: Centroid,
    pub min: Point3,
    pub max: Point3,
    pub source_index: u32,
}

/// The build record of the triangle with corners `a`, `b`, `c`.
pub open spec fn triangle_record(a: Point3, b: Point3, c: Point3, source: int) -> BVHTriangle {
    BVHTriangle {
        centroid: corner_sum(a, b, c),
        min: min_point(a, min_point(b, c)),
        max: max_point(a, max_point(b, c)),
        source_index: source as u32,
    }
}

impl BVHTriangle {
    /// The triangle's own lower corner is below its upper corner on every axis.
    pub open spec fn is_ordered(self) -> bool {
        &&& self.min.x <= self.max.x
        &&& self.min.y <= self.max.y
        &&& self.min.z <= self.max.z
    }

    pub fn from_corners(a: Point3, b: Point3, c: Point3, source: u32) -> (r: BVHTriangle)
        ensures
            r == triangle_record(a, b, c, source as int),
            r.is_ordered(),
    {
        BVHTriangle {
            centroid: centroid_of(a, b, c),
            min: point_min(a, point_min(b, c)),
            max: point_max(a, point_max(b, c)),
            source_index: source,
        }
    }
}

/// An axis-aligned box. The empty box has `min` above `max` on every axis.
#[derive(Clone, Copy, Debug, PartialEq, Eq, Structural)]
pub struct Aabb {
    pub min: Point3,
    pub max: Point3,
}

pub open spec fn empty_box() -> Aabb {
    Aabb {
        min: Point3 { x: i32::MAX, y: i32::MAX, z: i32::MAX },
        max: Point3 { x: i32::MIN, y: i32::MIN, z: i32::MIN },
    }
}

impl Aabb {
    /// The box grown to take in a triangle's corners.
    pub open spec fn grown(self, t: BVHTriangle) -> Aabb {
        Aabb { min: min_point(self.min, t.min), max: max_point(self.max, t.max) }
    }

    /// `e.x*e.y + e.y*e.z + e.x*e.z`, where `e = max - min`.
    pub open spec fn half_area_spec(self) -> int {
        let ex = self.max.x - self.min.x;
        let ey = self.max.y - self.min.y;
        let ez = self.max.z - self.min.z;
        ex * ey + ey * ez + ex * ez
    }

    /// No axis has `min` above `max`.
    pub open spec fn is_nonempty(self) -> bool {
        &&& self.min.x <= self.max.x
        &&& self.min.y <= self.max.y
        &&& self.min.z <= self.max.z
    }

    /// The box holds both corners of the triangle's own bounds.
    pub open spec fn holds(self, t: BVHTriangle) -> bool {
        forall|a: int|
            0 <= a < 3 ==> self.min.coord(a) <= #[trigger] t.min.coord(a) && t.max.coord(a)
                <= self.max.coord(a)
    }

    /// The box holds the other box.
    pub open spec fn holds_box(self, o: Aabb) -> bool {
        forall|a: int|
            0 <= a < 3 ==> self.min.coord(a) <= #[trigger] o.min.coord(a) && o.max.coord(a)
                <= self.max.coord(a)
    }

    /// The extent of the box on axis `a`.
    pub open spec fn extent(self, a: int) -> int {
        self.max.coord(a) - self.min.coord(a)
    }

    pub fn empty() -> (r: Aabb)
        ensures
            r == empty_box(),
    {
        Aabb {
            min: Point3 { x: i32::MAX, y: i32::MAX, z: i32::MAX },
            max: Point3 { x: i32::MIN, y: i32::MIN, z: i32::MIN },
        }
    }

    pub fn grow(&mut self, t: &BVHTriangle)
        ensures
            *final(self) == old(self).grown(*t),
    {
        self.min = point_min(self.min, t.min);
        self.max = point_max(self.max, t.max);
    }

    /// The SAH area proxy. Only defined for a box that holds something.
    pub fn half_area(&self) -> (r: u128)
        requires
            self.is_nonempty(),
        ensures
            r as int == self.half_area_spec(),
    {
        let ex = (self.max.x as i64 - self.min.x as i64) as u128;
        let ey = (self.max.y as i64 - self.min.y as i64) as u128;
        let ez = (self.max.z as i64 - self.min.z as i64) as u128;
        assert(ex * ey <= 0xffff_ffff * 0xffff_ffff) by (nonlinear_arith)
            requires
                ex <= 0xffff_ffff,
                ey <= 0xffff_ffff,
        ;
        assert(ey * ez <= 0xffff_ffff * 0xffff_ffff) by (nonlinear_arith)
            requires
                ez <= 0xffff_ffff,
                ey <= 0xffff_ffff,
        ;
        assert(ex * ez <= 0xffff_ffff * 0xffff_ffff) by (nonlinear_arith)
            requires
                ex <= 0xffff_ffff,
                ez <= 0xffff_ffff,
        ;
        ex * ey + ey * ez + ex * ez
    }
}

/// The half area of a box with `i32` corners stays within three squares of
/// the widest `i32` extent.
pub proof fn lemma_half_area_bound(b: Aabb)
    requires
        b.is_nonempty(),
    ensures
        0 <= b.half_area_spec() <= 3 * 0xffff_ffff * 0xffff_ffff,
{
    let ex = b.max.x - b.min.x;
    let ey = b.max.y - b.min.y;
    let ez = b.max.z - b.min.z;
    assert(0 <= ex * ey <= 0xffff_ffff * 0xffff_ffff) by (nonlinear_arith)
        requires
            0 <= ex <= 0xffff_ffff,
            0 <= ey <= 0xffff_ffff,
    ;
    assert(0 <= ey * ez <= 0xffff_ffff * 0xffff_ffff) by (nonlinear_arith)
        requires
            0 <= ez <= 0xffff_ffff,
            0 <= ey <= 0xffff_ffff,
    ;
    assert(0 <= ex * ez <= 0xffff_ffff * 0xffff_ffff) by (nonlinear_arith)
        requires
            0 <= ex <= 0xffff_ffff,
            0 <= ez <= 0xffff_ffff,
    ;
}

impl Default for Aabb {
    fn default() -> (r: Aabb)
        ensures
            r == empty_box(),
    {
        Aabb::empty()
    }
}

} // verus!
