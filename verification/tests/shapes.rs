use physics::aabb::Aabb;
use physics::isometry::{local_transform_to_isometry, Isometry, LocalTransform, Rotation};
use physics::shape::{Collider, ColliderLayer, ColliderShape, CollisionError, TriMesh, Triangle};
use physics::vector::{Vec3, COORD_MAX, ONE};

fn quarter_turn_about_z() -> Rotation {
    Rotation::new(Vec3::new(0, -ONE, 0), Vec3::new(ONE, 0, 0), Vec3::new(0, 0, ONE)).unwrap()
}

fn eighth_turn_about_z() -> Rotation {
    // the cosine and the sine of 45 degrees, rounded toward zero
    let c = 46340;
    Rotation::new(Vec3::new(c, -c, 0), Vec3::new(c, c, 0), Vec3::new(0, 0, ONE)).unwrap()
}

fn tetrahedron() -> Vec<Triangle> {
    let a = Vec3::new(0, 0, 0);
    let b = Vec3::new(1000, 0, 0);
    let c = Vec3::new(0, 2000, 0);
    let d = Vec3::new(0, 0, -3000);
    vec![
        Triangle::new(a, b, c),
        Triangle::new(a, b, d),
        Triangle::new(a, c, d),
        Triangle::new(b, c, d),
    ]
}

#[test]
fn sphere_box_reaches_the_radius_from_the_centre() {
    let shape = ColliderShape::new_sphere(500);
    let m = Isometry::from_translation(Vec3::new(1000, 2000, -3000));
    assert_eq!(
        shape.aabb(&m),
        Aabb::new(Vec3::new(500, 1500, -3500), Vec3::new(1500, 2500, -2500))
    );
    let turned = Isometry { translation: m.translation, rotation: eighth_turn_about_z() };
    assert_eq!(shape.aabb(&turned), shape.aabb(&m));
}

#[test]
fn cuboid_box_reaches_the_half_extents_when_not_turned() {
    let shape = ColliderShape::new_cuboid(Vec3::new(500, 300, 100));
    let m = Isometry::from_translation(Vec3::new(0, 2000, 0));
    assert_eq!(
        shape.aabb(&m),
        Aabb::new(Vec3::new(-500, 1700, -100), Vec3::new(500, 2300, 100))
    );
}

#[test]
fn cuboid_box_follows_a_quarter_turn() {
    let shape = ColliderShape::new_cuboid(Vec3::new(500, 300, 100));
    let m = Isometry { translation: Vec3::new(10, 20, 30), rotation: quarter_turn_about_z() };
    assert_eq!(
        shape.aabb(&m),
        Aabb::new(Vec3::new(-290, -480, -70), Vec3::new(310, 520, 130))
    );
}

#[test]
fn cuboid_box_is_rounded_outward() {
    let shrinking = Rotation::new(
        Vec3::new(32768, 32768, 0),
        Vec3::new(-32768, 32768, 0),
        Vec3::new(0, 0, ONE),
    )
    .unwrap();
    let shape = ColliderShape::new_cuboid(Vec3::new(3, 0, 0));
    let m = Isometry { translation: Vec3::zero(), rotation: shrinking };
    // half of three is one and a half, which is rounded up to two
    assert_eq!(shape.aabb(&m), Aabb::new(Vec3::new(-2, -2, 0), Vec3::new(2, 2, 0)));
}

#[test]
fn cuboid_box_under_an_eighth_turn_holds_every_corner() {
    let half = Vec3::new(700, 200, 50);
    let shape = ColliderShape::new_cuboid(half);
    let rotation = eighth_turn_about_z();
    let t = Vec3::new(-300, 4000, 12);
    let bounds = shape.aabb(&Isometry { translation: t, rotation });
    // 46340 * 900 / 65536 = 636.4, rounded up
    assert_eq!(bounds, Aabb::new(Vec3::new(-937, 3363, -38), Vec3::new(337, 4637, 62)));
    for sx in [-1i64, 0, 1] {
        for sy in [-1i64, 0, 1] {
            for sz in [-1i64, 0, 1] {
                let p = Vec3::new(sx * half.x, sy * half.y, sz * half.z);
                // the turned point, scaled by ONE
                let wx = ONE * t.x + rotation.x.x * p.x + rotation.x.y * p.y + rotation.x.z * p.z;
                let wy = ONE * t.y + rotation.y.x * p.x + rotation.y.y * p.y + rotation.y.z * p.z;
                let wz = ONE * t.z + rotation.z.x * p.x + rotation.z.y * p.y + rotation.z.z * p.z;
                assert!(ONE * bounds.mins.x <= wx && wx <= ONE * bounds.maxs.x);
                assert!(ONE * bounds.mins.y <= wy && wy <= ONE * bounds.maxs.y);
                assert!(ONE * bounds.mins.z <= wz && wz <= ONE * bounds.maxs.z);
            }
        }
    }
}

#[test]
fn sphere_box_holds_every_turned_point_of_the_sphere() {
    let radius = 1000;
    let shape = ColliderShape::new_sphere(radius);
    let rotation = eighth_turn_about_z();
    let t = Vec3::new(5, -6, 7);
    let bounds = shape.aabb(&Isometry { translation: t, rotation });
    let points = [
        Vec3::new(1000, 0, 0),
        Vec3::new(0, -1000, 0),
        Vec3::new(0, 0, 1000),
        Vec3::new(707, 707, 0),
        Vec3::new(-577, 577, -577),
        Vec3::new(600, 0, 800),
    ];
    for p in points {
        assert!(p.x * p.x + p.y * p.y + p.z * p.z <= radius * radius);
        let wx = ONE * t.x + rotation.x.x * p.x + rotation.x.y * p.y + rotation.x.z * p.z;
        let wy = ONE * t.y + rotation.y.x * p.x + rotation.y.y * p.y + rotation.y.z * p.z;
        let wz = ONE * t.z + rotation.z.x * p.x + rotation.z.y * p.y + rotation.z.z * p.z;
        assert!(ONE * bounds.mins.x <= wx && wx <= ONE * bounds.maxs.x);
        assert!(ONE * bounds.mins.y <= wy && wy <= ONE * bounds.maxs.y);
        assert!(ONE * bounds.mins.z <= wz && wz <= ONE * bounds.maxs.z);
    }
}

#[test]
fn mesh_box_is_the_root_of_its_hierarchy() {
    let mesh = TriMesh::new(tetrahedron());
    assert_eq!(mesh.len(), 4);
    assert!(!mesh.is_empty());
    assert_eq!(mesh.triangles(), &tetrahedron());
    let expected = Aabb::new(Vec3::new(0, 0, -3000), Vec3::new(1000, 2000, 0));
    assert_eq!(mesh.bounding_volume(), Some(expected));
    let shape = ColliderShape::new_mesh(tetrahedron());
    assert_eq!(shape.aabb(&Isometry::identity()), expected);
    // the hierarchy is computed once and does not move with the mesh
    let moved = Isometry::from_translation(Vec3::new(100, 100, 100));
    assert_eq!(shape.aabb(&moved), expected);
}

#[test]
fn triangle_bounds_hold_its_corners() {
    let t = Triangle::new(Vec3::new(3, -1, 0), Vec3::new(-2, 5, 9), Vec3::new(0, 0, -4));
    assert_eq!(t.bounds(), Aabb::new(Vec3::new(-2, -1, -4), Vec3::new(3, 5, 9)));
}

#[test]
fn collider_of_an_empty_mesh_is_invalid_geometry() {
    let empty = ColliderShape::new_mesh(Vec::new());
    assert!(!empty.is_valid());
    let made = Collider::new(empty, ColliderLayer::Static);
    assert_eq!(made.err(), Some(CollisionError::InvalidGeometry));
    let made = Collider::new(ColliderShape::Mesh(TriMesh::new(Vec::new())), ColliderLayer::Object);
    assert_eq!(made.err(), Some(CollisionError::InvalidGeometry));
    assert_eq!(TriMesh::new(Vec::new()).bounding_volume(), None);
}

#[test]
fn collider_of_a_shape_out_of_range_is_invalid_geometry() {
    let made = Collider::new(ColliderShape::Sphere(-1), ColliderLayer::Object);
    assert_eq!(made.err(), Some(CollisionError::InvalidGeometry));
    let made = Collider::new(ColliderShape::Sphere(COORD_MAX + 1), ColliderLayer::Object);
    assert_eq!(made.err(), Some(CollisionError::InvalidGeometry));
    let made = Collider::new(ColliderShape::new_cuboid(Vec3::new(1, -1, 1)), ColliderLayer::Static);
    assert_eq!(made.err(), Some(CollisionError::InvalidGeometry));
    let made = Collider::new(
        ColliderShape::new_cuboid(Vec3::new(1, 1, COORD_MAX + 1)),
        ColliderLayer::Static,
    );
    assert_eq!(made.err(), Some(CollisionError::InvalidGeometry));
}

#[test]
fn collider_keeps_its_shape_and_layer() {
    let collider =
        Collider::new(ColliderShape::new_cuboid(Vec3::new(500, 500, 500)), ColliderLayer::Object)
            .ok()
            .unwrap();
    assert_eq!(collider.layer(), ColliderLayer::Object);
    assert!(matches!(collider.shape(), ColliderShape::Cuboid(h) if *h == Vec3::new(500, 500, 500)));
    let local = LocalTransform::new(Vec3::new(0, 2000, 0), Rotation::identity());
    assert_eq!(
        collider.aabb(&local),
        Aabb::new(Vec3::new(-500, 1500, -500), Vec3::new(500, 2500, 500))
    );
    let ball = Collider::new(ColliderShape::Sphere(0), ColliderLayer::Static).ok().unwrap();
    assert_eq!(ball.layer(), ColliderLayer::Static);
    assert_eq!(ball.aabb(&local), Aabb::point(Vec3::new(0, 2000, 0)));
    let mesh = Collider::new(ColliderShape::new_mesh(tetrahedron()), ColliderLayer::Static);
    assert!(mesh.is_ok());
}

#[test]
fn contacts_are_computed_between_spheres_and_cuboids_only() {
    let sphere = ColliderShape::new_sphere(1);
    let cuboid = ColliderShape::new_cuboid(Vec3::new(1, 1, 1));
    let mesh = ColliderShape::new_mesh(tetrahedron());
    assert!(sphere.pairs_with(&sphere));
    assert!(sphere.pairs_with(&cuboid));
    assert!(cuboid.pairs_with(&sphere));
    assert!(cuboid.pairs_with(&cuboid));
    assert!(!mesh.pairs_with(&sphere));
    assert!(!cuboid.pairs_with(&mesh));
    assert!(!mesh.pairs_with(&mesh));
}

#[test]
fn rotation_rows_are_no_longer_than_one() {
    assert!(Rotation::identity().is_wf());
    assert_eq!(
        Rotation::new(Vec3::new(ONE, 0, 0), Vec3::new(0, ONE, 0), Vec3::new(0, 0, ONE)),
        Some(Rotation::identity())
    );
    assert_eq!(
        Rotation::new(Vec3::new(ONE, 1, 0), Vec3::new(0, ONE, 0), Vec3::new(0, 0, ONE)),
        None
    );
    assert_eq!(
        Rotation::new(Vec3::new(ONE, 0, 0), Vec3::new(0, ONE + 1, 0), Vec3::new(0, 0, ONE)),
        None
    );
    assert_eq!(
        Rotation::new(Vec3::new(ONE, 0, 0), Vec3::new(0, ONE, 0), Vec3::new(46341, 46341, 0)),
        None
    );
    assert!(Rotation::new(Vec3::new(46340, 46340, 0), Vec3::zero(), Vec3::new(0, 0, -ONE)).is_some());
}

#[test]
fn local_transform_gives_its_isometry() {
    let rotation = quarter_turn_about_z();
    let mut local = LocalTransform::new(Vec3::new(1, 2, 3), rotation);
    assert!(!local.dirty);
    assert!(local.is_wf());
    let m = local_transform_to_isometry(&local);
    assert_eq!(m, Isometry { translation: Vec3::new(1, 2, 3), rotation });
    assert!(m.is_wf());
    local.flag(true);
    assert!(local.dirty);
    assert_eq!(local_transform_to_isometry(&local), m);
    local.flag(false);
    assert_eq!(local, LocalTransform::new(Vec3::new(1, 2, 3), rotation));
    let outside = LocalTransform::new(Vec3::new(COORD_MAX + 1, 0, 0), rotation);
    assert!(!outside.is_wf());
    assert!(!local_transform_to_isometry(&outside).is_wf());
    assert_eq!(Isometry::identity(), Isometry::from_translation(Vec3::zero()));
}
