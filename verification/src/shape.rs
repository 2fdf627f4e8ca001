//! The shapes that can collide, and the colliders made of them.

use vstd::prelude::*;
use crate::aabb::{max_i64, max_int, min_i64, min_int, Aabb};
use crate::isometry::{Isometry, LocalTransform};
use crate::tree::{
    enclosure,
    is_enclosure,
    lemma_enclosure_exists,
    lemma_enclosure_of_reordered,
    BoundingVolumeTree,
    Leaf,
};
use crate::vector::{abs, Vec3, COORD_MAX, ONE};

verus! {

/// Whether a collider stays where it was indexed, or moves and is resolved
/// against those that stay.
#[derive(Clone, Copy, Debug, PartialEq, Eq, Structural)]
pub enum ColliderLayer {
    Static,
    Object,
}

/// What can go wrong in collision handling.
#[derive(Clone, Copy, Debug, PartialEq, Eq, Structural)]
pub enum CollisionError {
    /// A shape has no volume to bound: a mesh without triangles, or a
    /// dimension that is negative or beyond the world.
    InvalidGeometry,
    /// An entity that a collision names has lost its collider or its
    /// transform.
    MissingComponent,
    /// No contact can be computed between the two kinds of shape.
    UnsupportedShapePair,
}

/// A triangle, by its three corners.
#[derive(Clone, Copy, Debug, PartialEq, Eq, Structural)]
pub struct Triangle {
    pub a: Vec3,
    pub b: Vec3,
    pub c: Vec3,
}

/// A triangle mesh with the bounding hierarchy of its triangles, which is
/// computed once, when the mesh is made.
///
/// Its view is the sequence of its triangles.
pub struct TriMesh {
    triangles: Vec<Triangle>,
    hierarchy: BoundingVolumeTree,
}

/// The geometry of a collider, in its own frame.
pub enum ColliderShape {
    /// A ball around the origin, by its radius.
    Sphere(i64),
    /// A box around the origin, by its half-extents along the three axes.
    Cuboid(Vec3),
    Mesh(TriMesh),
}

/// A shape together with the layer it collides on.
pub struct Collider {
    shape: ColliderShape,
    layer: ColliderLayer,
}

/// The leaves of a mesh's hierarchy: for each triangle the box around it,
/// under the triangle's index.
pub open spec fn mesh_leaves(triangles: Seq<Triangle>) -> Seq<Leaf> {
    Seq::new(
        triangles.len(),
        |k: int| Leaf { id: k as usize, aabb: triangles[k].spec_bounds() },
    )
}

/// How far a cuboid with the half-extents `half` reaches along the world
/// axis that `row` of a rotation gives: the half-extents weighted with the
/// magnitudes of the row's entries, rounded up to a whole unit.
pub open spec fn spread(row: Vec3, half: Vec3) -> int {
    (abs(row.x as int) * half.x + abs(row.y as int) * half.y + abs(row.z as int) * half.z + (ONE
        - 1)) / (ONE as int)
}

fn abs_i64(v: i64) -> (a: i64)
    requires
        v > i64::MIN,
    ensures
        a == abs(v as int),
{
    if v < 0 {
        -v
    } else {
        v
    }
}

fn spread_along(row: &Vec3, half: &Vec3) -> (s: i64)
    requires
        row.within(ONE as int),
        half.non_negative(),
        half.within(COORD_MAX as int),
    ensures
        s == spread(*row, *half),
        0 <= s <= 3 * COORD_MAX,
{
    let rx = abs_i64(row.x);
    let ry = abs_i64(row.y);
    let rz = abs_i64(row.z);
    assert(0 <= rx * half.x <= ONE * COORD_MAX && 0 <= ry * half.y <= ONE * COORD_MAX && 0 <= rz
        * half.z <= ONE * COORD_MAX) by (nonlinear_arith)
        requires
            0 <= rx <= ONE,
            0 <= ry <= ONE,
            0 <= rz <= ONE,
            0 <= half.x <= COORD_MAX,
            0 <= half.y <= COORD_MAX,
            0 <= half.z <= COORD_MAX,
    ;
    let total = rx * half.x + ry * half.y + rz * half.z;
    (total + (ONE - 1)) / ONE
}

impl Triangle {
    /// The smallest box around the triangle.
    pub open spec fn spec_bounds(self) -> Aabb {
        Aabb {
            mins: Vec3 {
                x: min_int(self.a.x as int, min_int(self.b.x as int, self.c.x as int)) as i64,
                y: min_int(self.a.y as int, min_int(self.b.y as int, self.c.y as int)) as i64,
                z: min_int(self.a.z as int, min_int(self.b.z as int, self.c.z as int)) as i64,
            },
            maxs: Vec3 {
                x: max_int(self.a.x as int, max_int(self.b.x as int, self.c.x as int)) as i64,
                y: max_int(self.a.y as int, max_int(self.b.y as int, self.c.y as int)) as i64,
                z: max_int(self.a.z as int, max_int(self.b.z as int, self.c.z as int)) as i64,
            },
        }
    }

    pub fn new(a: Vec3, b: Vec3, c: Vec3) -> (t: Triangle)
        ensures
            t == (Triangle { a, b, c }),
    {
        Triangle { a, b, c }
    }

    pub fn bounds(&self) -> (b: Aabb)
        ensures
            b == self.spec_bounds(),
            b.wf(),
            b.holds(self.a) && b.holds(self.b) && b.holds(self.c),
    {
        Aabb {
            mins: Vec3 {
                x: min_i64(self.a.x, min_i64(self.b.x, self.c.x)),
                y: min_i64(self.a.y, min_i64(self.b.y, self.c.y)),
                z: min_i64(self.a.z, min_i64(self.b.z, self.c.z)),
            },
            maxs: Vec3 {
                x: max_i64(self.a.x, max_i64(self.b.x, self.c.x)),
                y: max_i64(self.a.y, max_i64(self.b.y, self.c.y)),
                z: max_i64(self.a.z, max_i64(self.b.z, self.c.z)),
            },
        }
    }
}

impl View for TriMesh {
    type V = Seq<Triangle>;

    closed spec fn view(&self) -> Seq<Triangle> {
        self.triangles@
    }
}

impl TriMesh {
    #[verifier::type_invariant]
    spec fn inv(self) -> bool {
        self.wf()
    }

    /// The hierarchy is a tree over the boxes of the triangles.
    pub closed spec fn wf(self) -> bool {
        &&& self.hierarchy.wf()
        &&& self.hierarchy@.to_multiset() == mesh_leaves(self.triangles@).to_multiset()
    }

    /// The smallest box around the triangles; none for a mesh without
    /// triangles.
    pub open spec fn spec_bounds(self) -> Option<Aabb> {
        if self@.len() == 0 {
            None
        } else {
            Some(enclosure(mesh_leaves(self@)))
        }
    }

    /// The mesh of `triangles`, with its hierarchy built.
    pub fn new(triangles: Vec<Triangle>) -> (mesh: TriMesh)
        ensures
            mesh@ == triangles@,
            mesh.wf(),
    {
        let mut leaves: Vec<Leaf> = Vec::new();
        let mut k: usize = 0;
        while k < triangles.len()
            invariant
                k <= triangles@.len(),
                leaves@.len() == k,
                forall|i: int| 0 <= i < k ==> #[trigger] leaves@[i] == mesh_leaves(triangles@)[i],
            decreases triangles@.len() - k,
        {
            leaves.push(Leaf { id: k, aabb: triangles[k].bounds() });
            k += 1;
        }
        assert(leaves@ =~= mesh_leaves(triangles@));
        let hierarchy = BoundingVolumeTree::build(leaves);
        TriMesh { triangles, hierarchy }
    }

    /// The number of triangles.
    pub fn len(&self) -> (n: usize)
        ensures
            n == self@.len(),
    {
        self.triangles.len()
    }

    pub fn is_empty(&self) -> (b: bool)
        ensures
            b == (self@.len() == 0),
    {
        self.triangles.len() == 0
    }

    pub fn triangles(&self) -> (t: &Vec<Triangle>)
        ensures
            t@ == self@,
    {
        &self.triangles
    }

    /// The smallest box around the triangles, as the hierarchy holds it at
    /// its root; none for a mesh without triangles.
    pub fn bounding_volume(&self) -> (bounds: Option<Aabb>)
        ensures
            bounds == self.spec_bounds(),
            bounds is None <==> self@.len() == 0,
            bounds matches Some(b) ==> is_enclosure(b, mesh_leaves(self@)),
    {
        proof {
            use_type_invariant(self);
            vstd::seq_lib::to_multiset_len(self.hierarchy@);
            vstd::seq_lib::to_multiset_len(mesh_leaves(self@));
            if self@.len() > 0 {
                lemma_enclosure_of_reordered(mesh_leaves(self@), self.hierarchy@);
                lemma_enclosure_exists(mesh_leaves(self@));
            }
        }
        self.hierarchy.root_bounding_volume()
    }
}

impl ColliderShape {
    /// The dimensions are not negative and not beyond the world.
    pub open spec fn wf(self) -> bool {
        match self {
            ColliderShape::Sphere(radius) => 0 <= radius <= COORD_MAX,
            ColliderShape::Cuboid(half) => half.non_negative() && half.within(COORD_MAX as int),
            ColliderShape::Mesh(mesh) => mesh.wf(),
        }
    }

    /// The shape is a mesh without triangles.
    pub open spec fn is_empty_mesh(self) -> bool {
        self matches ColliderShape::Mesh(mesh) && mesh@.len() == 0
    }

    /// The shape has a bounding volume.
    pub open spec fn valid(self) -> bool {
        self.wf() && !self.is_empty_mesh()
    }

    /// The bounding box of the shape placed by `m`. Around a sphere it
    /// reaches the radius from the centre along each axis; around a cuboid,
    /// along each axis, as far as the turned half-extents do. A mesh has the
    /// box at the root of its hierarchy, wherever it is placed.
    pub open spec fn spec_aabb(self, m: Isometry) -> Aabb
        recommends
            self.valid(),
            m.wf(),
    {
        let t = m.translation;
        match self {
            ColliderShape::Sphere(radius) => Aabb {
                mins: Vec3 {
                    x: (t.x - radius) as i64,
                    y: (t.y - radius) as i64,
                    z: (t.z - radius) as i64,
                },
                maxs: Vec3 {
                    x: (t.x + radius) as i64,
                    y: (t.y + radius) as i64,
                    z: (t.z + radius) as i64,
                },
            },
            ColliderShape::Cuboid(half) => Aabb {
                mins: Vec3 {
                    x: (t.x - spread(m.rotation.x, half)) as i64,
                    y: (t.y - spread(m.rotation.y, half)) as i64,
                    z: (t.z - spread(m.rotation.z, half)) as i64,
                },
                maxs: Vec3 {
                    x: (t.x + spread(m.rotation.x, half)) as i64,
                    y: (t.y + spread(m.rotation.y, half)) as i64,
                    z: (t.z + spread(m.rotation.z, half)) as i64,
                },
            },
            ColliderShape::Mesh(mesh) => mesh.spec_bounds().unwrap(),
        }
    }

    /// A cuboid with the given half-extents.
    pub fn new_cuboid(half_extends: Vec3) -> (shape: ColliderShape)
        ensures
            shape == ColliderShape::Cuboid(half_extends),
    {
        ColliderShape::Cuboid(half_extends)
    }

    /// A sphere with the given radius.
    pub fn new_sphere(radius: i64) -> (shape: ColliderShape)
        ensures
            shape == ColliderShape::Sphere(radius),
    {
        ColliderShape::Sphere(radius)
    }

    /// The mesh of the given triangles.
    pub fn new_mesh(triangles: Vec<Triangle>) -> (shape: ColliderShape)
        ensures
            shape matches ColliderShape::Mesh(mesh) && mesh@ == triangles@ && mesh.wf(),
    {
        ColliderShape::Mesh(TriMesh::new(triangles))
    }

    /// Tells whether the shape has a bounding volume: its dimensions are in
    /// range, and a mesh has a triangle.
    pub fn is_valid(&self) -> (b: bool)
        ensures
            b == self.valid(),
    {
        match self {
            ColliderShape::Sphere(radius) => 0 <= *radius && *radius <= COORD_MAX,
            ColliderShape::Cuboid(half) => half.x >= 0 && half.y >= 0 && half.z >= 0
                && half.is_within(COORD_MAX),
            ColliderShape::Mesh(mesh) => {
                proof {
                    use_type_invariant(mesh);
                }
                !mesh.is_empty()
            },
        }
    }

    /// The bounding box of the shape placed by `m`.
    pub fn aabb(&self, m: &Isometry) -> (bounds: Aabb)
        requires
            self.valid(),
            m.wf(),
        ensures
            bounds == self.spec_aabb(*m),
            bounds.wf(),
    {
        let t = m.translation;
        match self {
            ColliderShape::Sphere(radius) => {
                let r = *radius;
                Aabb {
                    mins: Vec3 { x: t.x - r, y: t.y - r, z: t.z - r },
                    maxs: Vec3 { x: t.x + r, y: t.y + r, z: t.z + r },
                }
            },
            ColliderShape::Cuboid(half) => {
                let sx = spread_along(&m.rotation.x, half);
                let sy = spread_along(&m.rotation.y, half);
                let sz = spread_along(&m.rotation.z, half);
                Aabb {
                    mins: Vec3 { x: t.x - sx, y: t.y - sy, z: t.z - sz },
                    maxs: Vec3 { x: t.x + sx, y: t.y + sy, z: t.z + sz },
                }
            },
            ColliderShape::Mesh(mesh) => {
                let bounds = mesh.bounding_volume();
                proof {
                    let b = bounds.unwrap();
                    let leaves = mesh_leaves(mesh@);
                    let i = choose|i: int|
                        0 <= i < leaves.len() && (#[trigger] leaves[i]).aabb.mins.x == b.mins.x;
                    assert(b.encloses(leaves[i].aabb));
                    assert(leaves[i].aabb.wf());
                }
                bounds.unwrap()
            },
        }
    }

    /// Tells whether a contact can be computed between this shape and
    /// `other`: between spheres and cuboids, in any pairing.
    pub open spec fn spec_pairs_with(self, other: ColliderShape) -> bool {
        !(self is Mesh) && !(other is Mesh)
    }

    pub fn pairs_with(&self, other: &ColliderShape) -> (b: bool)
        ensures
            b == self.spec_pairs_with(*other),
    {
        let mine = match self {
            ColliderShape::Mesh(_) => false,
            _ => true,
        };
        let theirs = match other {
            ColliderShape::Mesh(_) => false,
            _ => true,
        };
        mine && theirs
    }
}

impl Collider {
    #[verifier::type_invariant]
    spec fn inv(self) -> bool {
        self.wf()
    }

    /// The shape has a bounding volume.
    pub closed spec fn wf(self) -> bool {
        self.shape.valid()
    }

    pub closed spec fn spec_shape(self) -> ColliderShape {
        self.shape
    }

    pub closed spec fn spec_layer(self) -> ColliderLayer {
        self.layer
    }

    /// The bounding box of the collider placed by `m`.
    pub open spec fn spec_aabb(self, m: Isometry) -> Aabb {
        self.spec_shape().spec_aabb(m)
    }

    /// A collider of the given shape on the given layer. A shape without a
    /// bounding volume is refused: a mesh without triangles, or a sphere or
    /// cuboid with a dimension that is negative or beyond the world.
    pub fn new(shape: ColliderShape, layer: ColliderLayer) -> (made: Result<
        Collider,
        CollisionError,
    >)
        ensures
            shape.valid() ==> (made matches Ok(c) && c.spec_shape() == shape && c.spec_layer()
                == layer && c.wf()),
            !shape.valid() ==> made == Err::<Collider, CollisionError>(
                CollisionError::InvalidGeometry,
            ),
            shape.is_empty_mesh() ==> made == Err::<Collider, CollisionError>(
                CollisionError::InvalidGeometry,
            ),
    {
        if shape.is_valid() {
            Ok(Collider { shape, layer })
        } else {
            Err(CollisionError::InvalidGeometry)
        }
    }

    /// The exact geometry of the collider.
    pub fn shape(&self) -> (shape: &ColliderShape)
        ensures
            *shape == self.spec_shape(),
            shape.valid(),
    {
        proof {
            use_type_invariant(self);
        }
        &self.shape
    }

    pub fn layer(&self) -> (layer: ColliderLayer)
        ensures
            layer == self.spec_layer(),
    {
        self.layer
    }

    /// The bounding box of the collider placed by `local`.
    pub fn aabb(&self, local: &LocalTransform) -> (bounds: Aabb)
        requires
            local.wf(),
        ensures
            bounds == self.spec_aabb(local.isometry()),
            bounds.wf(),
    {
        proof {
            use_type_invariant(self);
        }
        let m = crate::isometry::local_transform_to_isometry(local);
        self.shape.aabb(&m)
    }
}

} // verus!
