//! Counters that a build keeps for diagnostics.
use vstd::prelude::*;

verus! {

/// Node and leaf counts, leaf depths and leaf sizes seen during builds.
/// Counters stop at their largest value instead of wrapping.
#[derive(Clone, Copy, Debug, PartialEq, Eq, Structural)]
pub struct BVHStats {
    pub leaf_count: u32,
    pub leaf_min_depth: u32,
    pub leaf_max_depth: u32,
    pub sum_depth: u64,
    pub min_tris: u32,
    pub max_tris: u32,
    pub sum_tris: u64,
    pub node_count: u32,
}

/// `v` stopped at the largest `u32`.
pub open spec fn sat32(v: int) -> u32 {
    if v <= u32::MAX {
        v as u32
    } else {
        u32::MAX
    }
}

/// `v` stopped at the largest `u64`.
pub open spec fn sat64(v: int) -> u64 {
    if v <= u64::MAX {
        v as u64
    } else {
        u64::MAX
    }
}

pub open spec fn bump32(v: u32) -> u32 {
    sat32(v + 1)
}

pub open spec fn add64(v: u64, d: u64) -> u64 {
    sat64(v + d)
}

/// The counters after recording one leaf of `count` triangles at `depth`.
pub open spec fn after_leaf(s: BVHStats, count: u32, depth: u32) -> BVHStats {
    BVHStats {
        node_count: bump32(s.node_count),
        leaf_count: bump32(s.leaf_count),
        sum_depth: add64(s.sum_depth, depth as u64),
        leaf_min_depth: if depth < s.leaf_min_depth {
            depth
        } else {
            s.leaf_min_depth
        },
        leaf_max_depth: if depth > s.leaf_max_depth {
            depth
        } else {
            s.leaf_max_depth
        },
        sum_tris: add64(s.sum_tris, count as u64),
        max_tris: if count > s.max_tris {
            count
        } else {
            s.max_tris
        },
        min_tris: if count < s.min_tris {
            count
        } else {
            s.min_tris
        },
    }
}

impl BVHStats {
    /// Counters before any node was recorded: minima at their largest value.
    pub fn start() -> (r: BVHStats)
        ensures
            r == (BVHStats {
                leaf_count: 0,
                leaf_min_depth: u32::MAX,
                leaf_max_depth: 0,
                sum_depth: 0,
                min_tris: u32::MAX,
                max_tris: 0,
                sum_tris: 0,
                node_count: 0,
            }),
    {
        BVHStats {
            leaf_count: 0,
            leaf_min_depth: u32::MAX,
            leaf_max_depth: 0,
            sum_depth: 0,
            min_tris: u32::MAX,
            max_tris: 0,
            sum_tris: 0,
            node_count: 0,
        }
    }

    pub fn record_node(&mut self)
        ensures
            *final(self) == (BVHStats { node_count: bump32(old(self).node_count), ..*old(self) }),
    {
        if self.node_count < u32::MAX {
            self.node_count = self.node_count + 1;
        }
    }

    /// Records a leaf of `triangle_count` triangles at `depth`.
    pub fn record_leaf_node(&mut self, triangle_count: u32, depth: u32)
        ensures
            *final(self) == after_leaf(*old(self), triangle_count, depth),
    {
        self.record_node();
        if self.leaf_count < u32::MAX {
            self.leaf_count = self.leaf_count + 1;
        }
        self.sum_depth = if self.sum_depth <= u64::MAX - depth as u64 {
            self.sum_depth + depth as u64
        } else {
            u64::MAX
        };
        if depth < self.leaf_min_depth {
            self.leaf_min_depth = depth;
        }
        if depth > self.leaf_max_depth {
            self.leaf_max_depth = depth;
        }
        self.sum_tris = if self.sum_tris <= u64::MAX - triangle_count as u64 {
            self.sum_tris + triangle_count as u64
        } else {
            u64::MAX
        };
        if triangle_count > self.max_tris {
            self.max_tris = triangle_count;
        }
        if triangle_count < self.min_tris {
            self.min_tris = triangle_count;
        }
    }
}

} // verus!
