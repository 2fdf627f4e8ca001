//! Rigid placements of a shape in the world.

use vstd::prelude::*;
use crate::vector::{Vec3, COORD_MAX, ONE};

verus! {

/// A rotation, as a matrix of fixed-point entries in parts of [`ONE`].
/// Each of `x`, `y`, `z` is a row: it gives one world coordinate of a
/// rotated point from the point's three local coordinates.
#[derive(Clone, Copy, Debug, PartialEq, Eq, Structural)]
pub struct Rotation {
    pub x: Vec3,
    pub y: Vec3,
    pub z: Vec3,
}

/// A rotation followed by a translation.
#[derive(Clone, Copy, Debug, PartialEq, Eq, Structural)]
pub struct Isometry {
    pub translation: Vec3,
    pub rotation: Rotation,
}

/// The placement of an entity, as the scene stores it: where it is, how it
/// is turned, and whether it has moved since the scene last looked.
#[derive(Clone, Copy, Debug, PartialEq, Eq, Structural)]
pub struct LocalTransform {
    pub translation: Vec3,
    pub rotation: Rotation,
    pub dirty: bool,
}

/// A point with rational coordinates `x / den`, `y / den`, `z / den`.
pub struct Point {
    pub x: int,
    pub y: int,
    pub z: int,
    pub den: int,
}

/// The square of the length of `row`.
pub open spec fn norm2(row: Vec3) -> int {
    row.x * row.x + row.y * row.y + row.z * row.z
}

/// A row of a rotation is no longer than one.
pub open spec fn unit_row(row: Vec3) -> bool {
    row.within(ONE as int) && norm2(row) <= ONE * ONE
}

/// The product of `row` with the numerators of `p`.
pub open spec fn dot(row: Vec3, p: Point) -> int {
    row.x * p.x + row.y * p.y + row.z * p.z
}

pub(crate) fn is_unit_row(row: &Vec3) -> (b: bool)
    ensures
        b == unit_row(*row),
{
    if !row.is_within(ONE) {
        return false;
    }
    assert(row.x * row.x <= ONE * ONE && row.y * row.y <= ONE * ONE && row.z * row.z <= ONE * ONE)
        by (nonlinear_arith)
        requires
            -ONE <= row.x <= ONE,
            -ONE <= row.y <= ONE,
            -ONE <= row.z <= ONE,
    ;
    assert(row.x * row.x >= 0 && row.y * row.y >= 0 && row.z * row.z >= 0) by (nonlinear_arith);
    row.x * row.x + row.y * row.y + row.z * row.z <= ONE * ONE
}

impl Rotation {
    /// No row is longer than one, so that turning a point never moves it
    /// away from the origin.
    pub open spec fn wf(self) -> bool {
        unit_row(self.x) && unit_row(self.y) && unit_row(self.z)
    }

    /// The rotation that turns nothing.
    pub open spec fn spec_identity() -> Rotation {
        Rotation {
            x: Vec3 { x: ONE, y: 0, z: 0 },
            y: Vec3 { x: 0, y: ONE, z: 0 },
            z: Vec3 { x: 0, y: 0, z: ONE },
        }
    }

    pub fn identity() -> (r: Rotation)
        ensures
            r == Rotation::spec_identity(),
            r.wf(),
    {
        assert(ONE * ONE + 0 * 0 + 0 * 0 <= ONE * ONE);
        assert(0 * 0 + ONE * ONE + 0 * 0 <= ONE * ONE);
        assert(0 * 0 + 0 * 0 + ONE * ONE <= ONE * ONE);
        Rotation {
            x: Vec3 { x: ONE, y: 0, z: 0 },
            y: Vec3 { x: 0, y: ONE, z: 0 },
            z: Vec3 { x: 0, y: 0, z: ONE },
        }
    }

    /// The rotation with the rows `x`, `y`, `z`, if none of them is longer
    /// than one.
    pub fn new(x: Vec3, y: Vec3, z: Vec3) -> (r: Option<Rotation>)
        ensures
            (Rotation { x, y, z }).wf() ==> r == Some(Rotation { x, y, z }),
            !(Rotation { x, y, z }).wf() ==> r is None,
    {
        if is_unit_row(&x) && is_unit_row(&y) && is_unit_row(&z) {
            Some(Rotation { x, y, z })
        } else {
            None
        }
    }

    pub fn is_wf(&self) -> (b: bool)
        ensures
            b == self.wf(),
    {
        is_unit_row(&self.x) && is_unit_row(&self.y) && is_unit_row(&self.z)
    }
}

impl Isometry {
    /// The translation lies in the world and the rotation is one.
    pub open spec fn wf(self) -> bool {
        self.translation.within(COORD_MAX as int) && self.rotation.wf()
    }

    /// The placement that leaves every point where it is.
    pub open spec fn spec_identity() -> Isometry {
        Isometry { translation: Vec3 { x: 0, y: 0, z: 0 }, rotation: Rotation::spec_identity() }
    }

    /// Where the local point `p` comes to lie in the world: turned, then
    /// moved.
    pub open spec fn spec_apply(self, p: Point) -> Point {
        Point {
            x: ONE * p.den * self.translation.x + dot(self.rotation.x, p),
            y: ONE * p.den * self.translation.y + dot(self.rotation.y, p),
            z: ONE * p.den * self.translation.z + dot(self.rotation.z, p),
            den: ONE * p.den,
        }
    }

    pub fn identity() -> (m: Isometry)
        ensures
            m == Isometry::spec_identity(),
            m.wf(),
    {
        Isometry { translation: Vec3::zero(), rotation: Rotation::identity() }
    }

    /// The placement that moves by `translation` and turns nothing.
    pub fn from_translation(translation: Vec3) -> (m: Isometry)
        ensures
            m == (Isometry { translation, rotation: Rotation::spec_identity() }),
            translation.within(COORD_MAX as int) ==> m.wf(),
    {
        Isometry { translation, rotation: Rotation::identity() }
    }

    pub fn is_wf(&self) -> (b: bool)
        ensures
            b == self.wf(),
    {
        self.translation.is_within(COORD_MAX) && self.rotation.is_wf()
    }
}

impl LocalTransform {
    /// The translation lies in the world and the rotation is one.
    pub open spec fn wf(self) -> bool {
        self.translation.within(COORD_MAX as int) && self.rotation.wf()
    }

    /// The isometry that this transform stands for.
    pub open spec fn isometry(self) -> Isometry {
        Isometry { translation: self.translation, rotation: self.rotation }
    }

    /// A transform at `translation`, turned by `rotation`, not marked as
    /// moved.
    pub fn new(translation: Vec3, rotation: Rotation) -> (local: LocalTransform)
        ensures
            local == (LocalTransform { translation, rotation, dirty: false }),
    {
        LocalTransform { translation, rotation, dirty: false }
    }

    pub fn is_wf(&self) -> (b: bool)
        ensures
            b == self.wf(),
    {
        self.translation.is_within(COORD_MAX) && self.rotation.is_wf()
    }

    /// Marks the transform as moved, or clears the mark.
    pub fn flag(&mut self, dirty: bool)
        ensures
            *final(self) == (LocalTransform { dirty, ..*old(self) }),
    {
        self.dirty = dirty;
    }
}

/// The rigid placement that a stored transform describes.
pub fn local_transform_to_isometry(local: &LocalTransform) -> (m: Isometry)
    ensures
        m == local.isometry(),
        local.wf() ==> m.wf(),
{
    Isometry { translation: local.translation, rotation: local.rotation }
}

} // verus!
