//! Contacts between two shapes, and the displacement that resolves them.

use vstd::prelude::*;
use crate::isometry::unit_row;
use crate::vector::{Vec3, COORD_MAX, ONE};

verus! {

/// Where two shapes penetrate: the direction in which the first has entered
/// the second, as a fixed-point vector no longer than one, and how deep.
#[derive(Clone, Copy, Debug, PartialEq, Eq, Structural)]
pub struct Contact {
    pub normal: Vec3,
    pub depth: i64,
}

/// The quotient of `a` by the positive `b`, rounded toward zero.
pub open spec fn trunc_div(a: int, b: int) -> int {
    if a >= 0 {
        a / b
    } else {
        -((-a) / b)
    }
}

fn scaled(component: i64, depth: i64) -> (q: i64)
    requires
        -ONE <= component <= ONE,
        0 <= depth <= COORD_MAX,
    ensures
        q == trunc_div(component * depth, ONE as int),
        -depth <= q <= depth,
{
    if component >= 0 {
        assert(0 <= component * depth <= ONE * depth) by (nonlinear_arith)
            requires
                0 <= component <= ONE,
                0 <= depth,
        ;
        component * depth / ONE
    } else {
        let magnitude = -component;
        assert(0 <= magnitude * depth <= ONE * depth && component * depth == -(magnitude * depth))
            by (nonlinear_arith)
            requires
                0 < magnitude <= ONE,
                magnitude == -component,
                0 <= depth,
        ;
        -(magnitude * depth / ONE)
    }
}

impl Contact {
    /// The normal is no longer than one and the depth is not negative.
    pub open spec fn wf(self) -> bool {
        unit_row(self.normal) && 0 <= self.depth <= COORD_MAX
    }

    /// How far the contact reaches along the normal: the normal scaled by
    /// the depth, each component rounded toward zero.
    pub open spec fn spec_penetration(self) -> Vec3 {
        Vec3 {
            x: trunc_div(self.normal.x * self.depth, ONE as int) as i64,
            y: trunc_div(self.normal.y * self.depth, ONE as int) as i64,
            z: trunc_div(self.normal.z * self.depth, ONE as int) as i64,
        }
    }

    /// Where a body at `translation` comes to lie when the contact is
    /// resolved: moved against the normal by the depth.
    pub open spec fn spec_resolve(self, translation: Vec3) -> Vec3 {
        let p = self.spec_penetration();
        Vec3 {
            x: (translation.x - p.x) as i64,
            y: (translation.y - p.y) as i64,
            z: (translation.z - p.z) as i64,
        }
    }

    /// Resolving the contact leaves a body at `translation` in the world.
    pub open spec fn spec_fits(self, translation: Vec3) -> bool {
        let p = self.spec_penetration();
        &&& -COORD_MAX <= translation.x - p.x <= COORD_MAX
        &&& -COORD_MAX <= translation.y - p.y <= COORD_MAX
        &&& -COORD_MAX <= translation.z - p.z <= COORD_MAX
    }

    /// A contact with the given normal and depth, if the normal is no
    /// longer than one and the depth is neither negative nor beyond the
    /// world.
    pub fn new(normal: Vec3, depth: i64) -> (c: Option<Contact>)
        ensures
            (Contact { normal, depth }).wf() ==> c == Some(Contact { normal, depth }),
            !(Contact { normal, depth }).wf() ==> c is None,
    {
        let contact = Contact { normal, depth };
        if contact.is_wf() {
            Some(contact)
        } else {
            None
        }
    }

    pub fn is_wf(&self) -> (b: bool)
        ensures
            b == self.wf(),
    {
        crate::isometry::is_unit_row(&self.normal) && 0 <= self.depth && self.depth <= COORD_MAX
    }

    /// The normal scaled by the depth.
    pub fn penetration(&self) -> (p: Vec3)
        requires
            self.wf(),
        ensures
            p == self.spec_penetration(),
            p.within(self.depth as int),
    {
        Vec3 {
            x: scaled(self.normal.x, self.depth),
            y: scaled(self.normal.y, self.depth),
            z: scaled(self.normal.z, self.depth),
        }
    }

    /// Tells whether resolving the contact leaves a body at `translation`
    /// in the world.
    pub fn fits(&self, translation: &Vec3) -> (b: bool)
        requires
            self.wf(),
            translation.within(COORD_MAX as int),
        ensures
            b == self.spec_fits(*translation),
    {
        let p = self.penetration();
        let moved = Vec3 { x: translation.x - p.x, y: translation.y - p.y, z: translation.z - p.z };
        moved.is_within(COORD_MAX)
    }

    /// Moves `translation` against the normal by the depth.
    pub fn resolve(&self, translation: &Vec3) -> (moved: Vec3)
        requires
            self.wf(),
            translation.within(COORD_MAX as int),
        ensures
            moved == self.spec_resolve(*translation),
            self.spec_fits(*translation) ==> moved.within(COORD_MAX as int),
    {
        let p = self.penetration();
        Vec3 { x: translation.x - p.x, y: translation.y - p.y, z: translation.z - p.z }
    }
}

/// Resolving a contact never moves a body along the normal, only against
/// it: the displacement and the normal point apart.
pub proof fn lemma_resolve_opposes_normal(c: Contact, translation: Vec3)
    requires
        c.wf(),
        translation.within(COORD_MAX as int),
    ensures
        c.normal.x * (c.spec_resolve(translation).x - translation.x) + c.normal.y * (c.spec_resolve(
            translation,
        ).y - translation.y) + c.normal.z * (c.spec_resolve(translation).z - translation.z) <= 0,
{
    lemma_component_opposes(c.normal.x as int, c.depth as int);
    lemma_component_opposes(c.normal.y as int, c.depth as int);
    lemma_component_opposes(c.normal.z as int, c.depth as int);
}

/// A component of the normal and the same component of the penetration
/// never have opposite signs, and the penetration is no deeper than the
/// depth.
proof fn lemma_component_opposes(n: int, depth: int)
    requires
        -ONE <= n <= ONE,
        0 <= depth,
    ensures
        n * (-trunc_div(n * depth, ONE as int)) <= 0,
        -depth <= trunc_div(n * depth, ONE as int) <= depth,
{
    let q = trunc_div(n * depth, ONE as int);
    if n >= 0 {
        assert(0 <= n * depth <= ONE * depth) by (nonlinear_arith)
            requires
                0 <= n <= ONE,
                0 <= depth,
        ;
        assert(0 <= q <= depth);
        assert(n * (-q) <= 0) by (nonlinear_arith)
            requires
                n >= 0,
                q >= 0,
        ;
    } else {
        assert(-(ONE * depth) <= n * depth <= 0) by (nonlinear_arith)
            requires
                -ONE <= n < 0,
                0 <= depth,
        ;
        assert(-depth <= q <= 0);
        assert(n * (-q) <= 0) by (nonlinear_arith)
            requires
                n < 0,
                q <= 0,
        ;
    }
}

/// A contact whose normal is a whole unit along one axis moves a body by
/// exactly the depth along that axis, and not at all along the others.
pub proof fn lemma_resolve_along_axis(c: Contact, translation: Vec3)
    requires
        c.wf(),
        translation.within(COORD_MAX as int),
    ensures
        c.normal == (Vec3 { x: 0, y: ONE, z: 0 }) ==> c.spec_resolve(translation) == (Vec3 {
            x: translation.x,
            y: (translation.y - c.depth) as i64,
            z: translation.z,
        }),
        c.normal == (Vec3 { x: 0, y: (-ONE) as i64, z: 0 }) ==> c.spec_resolve(translation) == (Vec3 {
            x: translation.x,
            y: (translation.y + c.depth) as i64,
            z: translation.z,
        }),
        c.normal == (Vec3 { x: ONE, y: 0, z: 0 }) ==> c.spec_resolve(translation) == (Vec3 {
            x: (translation.x - c.depth) as i64,
            y: translation.y,
            z: translation.z,
        }),
        c.normal == (Vec3 { x: (-ONE) as i64, y: 0, z: 0 }) ==> c.spec_resolve(translation) == (Vec3 {
            x: (translation.x + c.depth) as i64,
            y: translation.y,
            z: translation.z,
        }),
        c.normal == (Vec3 { x: 0, y: 0, z: ONE }) ==> c.spec_resolve(translation) == (Vec3 {
            x: translation.x,
            y: translation.y,
            z: (translation.z - c.depth) as i64,
        }),
        c.normal == (Vec3 { x: 0, y: 0, z: (-ONE) as i64 }) ==> c.spec_resolve(translation) == (Vec3 {
            x: translation.x,
            y: translation.y,
            z: (translation.z + c.depth) as i64,
        }),
{
    let d = c.depth as int;
    assert(0 * d == 0) by (nonlinear_arith);
    assert(ONE * d == 65536 * d && (-ONE) * d == -(65536 * d)) by (nonlinear_arith);
    assert(trunc_div(0, ONE as int) == 0);
    assert(trunc_div(65536 * d, ONE as int) == d);
    assert(trunc_div(-(65536 * d), ONE as int) == -d);
}

} // verus!
