//! Axis-aligned bounding boxes.

use vstd::prelude::*;
use crate::vector::{Axis, Vec3};

verus! {

/// An axis-aligned box, given by its two extreme corners.
#[derive(Clone, Copy, Debug, PartialEq, Eq, Structural)]
pub struct Aabb {
    pub mins: Vec3,
    pub maxs: Vec3,
}

pub open spec fn min_int(a: int, b: int) -> int {
    if a <= b {
        a
    } else {
        b
    }
}

pub open spec fn max_int(a: int, b: int) -> int {
    if a >= b {
        a
    } else {
        b
    }
}

pub(crate) fn min_i64(a: i64, b: i64) -> (m: i64)
    ensures
        m == min_int(a as int, b as int),
{
    if a <= b {
        a
    } else {
        b
    }
}

pub(crate) fn max_i64(a: i64, b: i64) -> (m: i64)
    ensures
        m == max_int(a as int, b as int),
{
    if a >= b {
        a
    } else {
        b
    }
}

impl Aabb {
    /// The lower corner is nowhere above the upper corner.
    pub open spec fn wf(self) -> bool {
        &&& self.mins.x <= self.maxs.x
        &&& self.mins.y <= self.maxs.y
        &&& self.mins.z <= self.maxs.z
    }

    /// The two boxes share at least one point. Boxes that only touch do.
    pub open spec fn spec_intersects(self, other: Aabb) -> bool {
        &&& self.mins.x <= other.maxs.x && other.mins.x <= self.maxs.x
        &&& self.mins.y <= other.maxs.y && other.mins.y <= self.maxs.y
        &&& self.mins.z <= other.maxs.z && other.mins.z <= self.maxs.z
    }

    /// `other` lies inside this box.
    pub open spec fn encloses(self, other: Aabb) -> bool {
        &&& self.mins.x <= other.mins.x && other.maxs.x <= self.maxs.x
        &&& self.mins.y <= other.mins.y && other.maxs.y <= self.maxs.y
        &&& self.mins.z <= other.mins.z && other.maxs.z <= self.maxs.z
    }

    /// The point `p` lies inside this box.
    pub open spec fn holds(self, p: Vec3) -> bool {
        &&& self.mins.x <= p.x <= self.maxs.x
        &&& self.mins.y <= p.y <= self.maxs.y
        &&& self.mins.z <= p.z <= self.maxs.z
    }

    /// The smallest box that encloses both boxes.
    pub open spec fn spec_merged(self, other: Aabb) -> Aabb {
        Aabb {
            mins: Vec3 {
                x: min_int(self.mins.x as int, other.mins.x as int) as i64,
                y: min_int(self.mins.y as int, other.mins.y as int) as i64,
                z: min_int(self.mins.z as int, other.mins.z as int) as i64,
            },
            maxs: Vec3 {
                x: max_int(self.maxs.x as int, other.maxs.x as int) as i64,
                y: max_int(self.maxs.y as int, other.maxs.y as int) as i64,
                z: max_int(self.maxs.z as int, other.maxs.z as int) as i64,
            },
        }
    }

    /// The width of the box along `axis`.
    pub open spec fn extent(self, axis: Axis) -> int {
        self.maxs.coord(axis) - self.mins.coord(axis)
    }

    /// Twice the coordinate of the box's centre along `axis`.
    pub open spec fn centre2(self, axis: Axis) -> int {
        self.mins.coord(axis) + self.maxs.coord(axis)
    }

    pub fn new(mins: Vec3, maxs: Vec3) -> (b: Aabb)
        ensures
            b == (Aabb { mins, maxs }),
    {
        Aabb { mins, maxs }
    }

    /// The box that holds the point `p` and nothing else.
    pub fn point(p: Vec3) -> (b: Aabb)
        ensures
            b == (Aabb { mins: p, maxs: p }),
            b.wf(),
    {
        Aabb { mins: p, maxs: p }
    }

    pub fn is_wf(&self) -> (b: bool)
        ensures
            b == self.wf(),
    {
        self.mins.x <= self.maxs.x && self.mins.y <= self.maxs.y && self.mins.z <= self.maxs.z
    }

    pub fn intersects(&self, other: &Aabb) -> (b: bool)
        ensures
            b == self.spec_intersects(*other),
    {
        self.mins.x <= other.maxs.x && other.mins.x <= self.maxs.x && self.mins.y <= other.maxs.y
            && other.mins.y <= self.maxs.y && self.mins.z <= other.maxs.z && other.mins.z
            <= self.maxs.z
    }

    pub fn contains(&self, other: &Aabb) -> (b: bool)
        ensures
            b == self.encloses(*other),
    {
        self.mins.x <= other.mins.x && other.maxs.x <= self.maxs.x && self.mins.y <= other.mins.y
            && other.maxs.y <= self.maxs.y && self.mins.z <= other.mins.z && other.maxs.z
            <= self.maxs.z
    }

    pub fn contains_point(&self, p: &Vec3) -> (b: bool)
        ensures
            b == self.holds(*p),
    {
        self.mins.x <= p.x && p.x <= self.maxs.x && self.mins.y <= p.y && p.y <= self.maxs.y
            && self.mins.z <= p.z && p.z <= self.maxs.z
    }

    pub fn merged(&self, other: &Aabb) -> (b: Aabb)
        ensures
            b == self.spec_merged(*other),
            b.encloses(*self),
            b.encloses(*other),
            self.wf() ==> b.wf(),
    {
        Aabb {
            mins: Vec3 {
                x: min_i64(self.mins.x, other.mins.x),
                y: min_i64(self.mins.y, other.mins.y),
                z: min_i64(self.mins.z, other.mins.z),
            },
            maxs: Vec3 {
                x: max_i64(self.maxs.x, other.maxs.x),
                y: max_i64(self.maxs.y, other.maxs.y),
                z: max_i64(self.maxs.z, other.maxs.z),
            },
        }
    }

    /// The axis along which the box is widest; on a tie the first of X, Y, Z.
    pub open spec fn spec_widest_axis(self) -> Axis {
        if self.extent(Axis::X) >= self.extent(Axis::Y) && self.extent(Axis::X) >= self.extent(
            Axis::Z,
        ) {
            Axis::X
        } else if self.extent(Axis::Y) >= self.extent(Axis::Z) {
            Axis::Y
        } else {
            Axis::Z
        }
    }

    pub fn widest_axis(&self) -> (axis: Axis)
        ensures
            axis == self.spec_widest_axis(),
    {
        let ex: i128 = self.maxs.x as i128 - self.mins.x as i128;
        let ey: i128 = self.maxs.y as i128 - self.mins.y as i128;
        let ez: i128 = self.maxs.z as i128 - self.mins.z as i128;
        if ex >= ey && ex >= ez {
            Axis::X
        } else if ey >= ez {
            Axis::Y
        } else {
            Axis::Z
        }
    }
}

/// A box that misses a query misses everything inside it: what lets a search
/// skip a whole subtree.
pub proof fn lemma_enclosed_intersects(outer: Aabb, inner: Aabb, query: Aabb)
    requires
        outer.encloses(inner),
        inner.spec_intersects(query),
    ensures
        outer.spec_intersects(query),
{
}

} // verus!
