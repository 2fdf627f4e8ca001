use physics::aabb::Aabb;
use physics::contact::Contact;
use physics::input::DeltaMosue;
use physics::isometry::{LocalTransform, Rotation};
use physics::shape::{Collider, ColliderLayer, ColliderShape, CollisionError, Triangle};
use physics::tree::Leaf;
use physics::vector::{Vec3, COORD_MAX, ONE};
use physics::world::{transforms_valid, Pair, Resolution, StaticWorld};

fn cuboid(half: i64, layer: ColliderLayer) -> Option<Collider> {
    Collider::new(ColliderShape::new_cuboid(Vec3::new(half, half, half)), layer).ok()
}

fn sphere(radius: i64, layer: ColliderLayer) -> Option<Collider> {
    Collider::new(ColliderShape::new_sphere(radius), layer).ok()
}

fn at(x: i64, y: i64, z: i64) -> Option<LocalTransform> {
    Some(LocalTransform::new(Vec3::new(x, y, z), Rotation::identity()))
}

fn half_extents(collider: &Collider) -> Vec3 {
    match collider.shape() {
        ColliderShape::Cuboid(half) => *half,
        ColliderShape::Sphere(radius) => Vec3::new(*radius, *radius, *radius),
        ColliderShape::Mesh(_) => panic!("no half-extents"),
    }
}

/// An exact contact test for cuboids that are not turned, and for a sphere
/// right above or beside such a cuboid: the axis of least overlap, pointing
/// from the first body to the second.
fn axis_contact(
    colliders: &[Option<Collider>],
    locals: &[Option<LocalTransform>],
    pair: Pair,
) -> Option<Contact> {
    let a = locals[pair.object].as_ref()?.translation;
    let b = locals[pair.fixed].as_ref()?.translation;
    let ha = half_extents(colliders[pair.object].as_ref()?);
    let hb = half_extents(colliders[pair.fixed].as_ref()?);
    let overlap = [
        ha.x + hb.x - (a.x - b.x).abs(),
        ha.y + hb.y - (a.y - b.y).abs(),
        ha.z + hb.z - (a.z - b.z).abs(),
    ];
    if overlap.iter().any(|o| *o <= 0) {
        return None;
    }
    let towards = [b.x - a.x, b.y - a.y, b.z - a.z];
    let mut axis = 0;
    for i in 1..3 {
        if overlap[i] < overlap[axis] {
            axis = i;
        }
    }
    let sign = if towards[axis] >= 0 { ONE } else { -ONE };
    let mut normal = [0i64; 3];
    normal[axis] = sign;
    Contact::new(Vec3::new(normal[0], normal[1], normal[2]), overlap[axis])
}

/// Runs one pass to its end and returns how many pairs had a contact.
fn resolve_tick(
    world: &StaticWorld,
    colliders: &Vec<Option<Collider>>,
    locals: &mut Vec<Option<LocalTransform>>,
) -> usize {
    let mut pass = world.resolve_collisions(colliders, locals);
    let mut contacts = 0;
    while let Some(pair) = pass.pending() {
        let contact = axis_contact(colliders, locals, pair);
        assert!(Resolution::accepts(colliders, locals, pair, &contact));
        if pass.step(colliders, locals, contact) == Ok(true) {
            contacts += 1;
        }
    }
    assert!(pass.is_finished());
    contacts
}

fn falling_box_scene() -> (Vec<Option<Collider>>, Vec<Option<LocalTransform>>) {
    // one unit of length is a thousand units of the world
    let colliders = vec![cuboid(500, ColliderLayer::Static), cuboid(500, ColliderLayer::Object)];
    let locals = vec![at(0, 0, 0), at(0, 2000, 0)];
    (colliders, locals)
}

#[test]
fn construct_indexes_the_static_bodies_only() {
    let colliders = vec![
        cuboid(500, ColliderLayer::Static),
        cuboid(500, ColliderLayer::Object),
        None,
        sphere(100, ColliderLayer::Static),
        sphere(100, ColliderLayer::Static),
    ];
    let locals = vec![at(0, 0, 0), at(0, 2000, 0), at(5, 5, 5), at(3000, 0, 0), None];
    let world = StaticWorld::construct(&colliders, &locals);
    assert_eq!(world.tree().len(), 2);
    let everywhere = Aabb::new(
        Vec3::new(-COORD_MAX, -COORD_MAX, -COORD_MAX),
        Vec3::new(COORD_MAX, COORD_MAX, COORD_MAX),
    );
    let mut ids = world.tree().overlapping(&everywhere);
    ids.sort();
    assert_eq!(ids, vec![0, 3]);
    assert_eq!(
        world.tree().root_bounding_volume(),
        Some(Aabb::new(Vec3::new(-500, -500, -500), Vec3::new(3100, 500, 500)))
    );
}

#[test]
fn construct_takes_tables_of_different_lengths() {
    let colliders = vec![cuboid(1, ColliderLayer::Static), cuboid(1, ColliderLayer::Static)];
    let locals = vec![at(0, 0, 0)];
    let world = StaticWorld::construct(&colliders, &locals);
    assert_eq!(world.tree().len(), 1);
    let world = StaticWorld::construct(&Vec::new(), &locals);
    assert!(world.tree().is_empty());
    assert_eq!(world.broad_phase(&colliders, &locals), Vec::<Pair>::new());
}

#[test]
fn broad_phase_pairs_each_moving_body_with_the_static_boxes_it_meets() {
    let colliders = vec![
        cuboid(500, ColliderLayer::Static),
        cuboid(500, ColliderLayer::Object),
        cuboid(500, ColliderLayer::Static),
        sphere(200, ColliderLayer::Object),
        sphere(200, ColliderLayer::Object),
    ];
    let locals = vec![
        at(0, 0, 0),
        at(400, 900, 0),
        at(1000, 1000, 0),
        at(-600, 0, 0),
        at(5000, 0, 0),
    ];
    let world = StaticWorld::construct(&colliders, &locals);
    let mut pairs = world.broad_phase(&colliders, &locals);
    assert_eq!(pairs.len(), 3);
    // the pairs of one moving body stand together, bodies in their order
    assert_eq!(pairs[0].object, 1);
    assert_eq!(pairs[1].object, 1);
    assert_eq!(pairs[2], Pair { object: 3, fixed: 0 });
    pairs.sort_by_key(|pair| (pair.object, pair.fixed));
    assert_eq!(
        pairs,
        vec![
            Pair { object: 1, fixed: 0 },
            Pair { object: 1, fixed: 2 },
            Pair { object: 3, fixed: 0 },
        ]
    );
}

#[test]
fn overlapping_static_colliders_are_never_paired_or_moved() {
    let colliders = vec![
        cuboid(500, ColliderLayer::Static),
        cuboid(500, ColliderLayer::Static),
        sphere(500, ColliderLayer::Static),
    ];
    let mut locals = vec![at(0, 0, 0), at(100, 100, 100), at(-100, 0, 0)];
    let before = locals.clone();
    let world = StaticWorld::construct(&colliders, &locals);
    assert_eq!(world.broad_phase(&colliders, &locals), Vec::<Pair>::new());
    let pass = world.resolve_collisions(&colliders, &locals);
    assert!(pass.is_finished());
    assert_eq!(pass.pending(), None);
    assert_eq!(resolve_tick(&world, &colliders, &mut locals), 0);
    assert_eq!(locals, before);
}

#[test]
fn moving_bodies_are_not_tested_against_each_other() {
    let colliders = vec![cuboid(500, ColliderLayer::Object), cuboid(500, ColliderLayer::Object)];
    let mut locals = vec![at(0, 0, 0), at(100, 0, 0)];
    let before = locals.clone();
    let world = StaticWorld::construct(&colliders, &locals);
    assert!(world.tree().is_empty());
    assert_eq!(resolve_tick(&world, &colliders, &mut locals), 0);
    assert_eq!(locals, before);
}

#[test]
fn a_pass_without_contacts_leaves_every_transform_as_it_was() {
    let (colliders, mut locals) = falling_box_scene();
    let world = StaticWorld::construct(&colliders, &locals);
    // the boxes meet at a face: a candidate pair, but no penetration
    locals[1] = at(0, 1000, 0);
    let before = locals.clone();
    let mut pass = world.resolve_collisions(&colliders, &locals);
    assert_eq!(pass.pairs(), &vec![Pair { object: 1, fixed: 0 }]);
    assert_eq!(pass.pending(), Some(Pair { object: 1, fixed: 0 }));
    assert_eq!(pass.step(&colliders, &mut locals, None), Ok(false));
    assert_eq!(pass.cursor(), 1);
    assert!(pass.is_finished());
    assert_eq!(locals, before);
    assert!(!locals[1].unwrap().dirty);
    // a second pass changes nothing either
    assert_eq!(resolve_tick(&world, &colliders, &mut locals), 0);
    assert_eq!(locals, before);
    // and a pass that is over takes no further step
    assert_eq!(pass.step(&colliders, &mut locals, Contact::new(Vec3::new(0, ONE, 0), 5)), Ok(false));
    assert_eq!(locals, before);
}

#[test]
fn a_falling_box_is_pushed_back_out_in_the_tick_it_penetrates() {
    let (colliders, mut locals) = falling_box_scene();
    let world = StaticWorld::construct(&colliders, &locals);
    let mut resolved_at = None;
    for tick in 1..=20 {
        // a tenth of a second at one unit of length per second, downward
        let fallen = locals[1].unwrap().translation.y - 100;
        locals[1] = at(0, fallen, 0);
        let contacts = resolve_tick(&world, &colliders, &mut locals);
        let y = locals[1].unwrap().translation.y;
        if fallen < 1000 {
            assert_eq!(contacts, 1, "tick {}", tick);
            assert_eq!(y, 1000, "tick {}", tick);
            assert!(locals[1].unwrap().dirty);
            resolved_at.get_or_insert(tick);
        } else {
            assert_eq!(contacts, 0, "tick {}", tick);
            assert_eq!(y, fallen);
        }
        // the static box never moves
        assert_eq!(locals[0], at(0, 0, 0));
        assert_eq!(locals[1].unwrap().translation.x, 0);
        assert_eq!(locals[1].unwrap().translation.z, 0);
    }
    assert_eq!(resolved_at, Some(11));
    // resting on the box, the distance is the sum of the half-extents
    assert_eq!(locals[1].unwrap().translation, Vec3::new(0, 1000, 0));
}

#[test]
fn resolution_moves_a_cuboid_away_from_the_cuboid_it_penetrates() {
    for (start, expected) in [
        (Vec3::new(0, 900, 0), Vec3::new(0, 1000, 0)),
        (Vec3::new(0, -700, 0), Vec3::new(0, -1000, 0)),
        (Vec3::new(950, 10, 0), Vec3::new(1000, 10, 0)),
        (Vec3::new(-10, 20, -999), Vec3::new(-10, 20, -1000)),
    ] {
        let colliders = vec![cuboid(500, ColliderLayer::Static), cuboid(500, ColliderLayer::Object)];
        let mut locals = vec![at(0, 0, 0), Some(LocalTransform::new(start, Rotation::identity()))];
        let world = StaticWorld::construct(&colliders, &locals);
        let pair = Pair { object: 1, fixed: 0 };
        let contact = axis_contact(&colliders, &locals, pair).unwrap();
        // the normal points from the moving body to the static one
        let towards = Vec3::new(-start.x, -start.y, -start.z);
        assert!(
            contact.normal.x * towards.x + contact.normal.y * towards.y + contact.normal.z * towards.z
                > 0
        );
        assert_eq!(resolve_tick(&world, &colliders, &mut locals), 1);
        let end = locals[1].unwrap().translation;
        assert_eq!(end, expected);
        let before = start.x.abs().max(start.y.abs()).max(start.z.abs());
        let after = end.x.abs().max(end.y.abs()).max(end.z.abs());
        assert!(after > before);
        // resolved once, the pair is not resolved again
        assert_eq!(resolve_tick(&world, &colliders, &mut locals), 0);
        assert_eq!(locals[1].unwrap().translation, expected);
    }
}

#[test]
fn resolution_moves_a_sphere_away_from_the_cuboid_it_penetrates() {
    let colliders = vec![cuboid(500, ColliderLayer::Static), sphere(250, ColliderLayer::Object)];
    let mut locals = vec![at(0, 0, 0), at(0, 600, 0)];
    let world = StaticWorld::construct(&colliders, &locals);
    let pair = Pair { object: 1, fixed: 0 };
    let contact = axis_contact(&colliders, &locals, pair).unwrap();
    assert_eq!(contact, Contact { normal: Vec3::new(0, -ONE, 0), depth: 150 });
    assert_eq!(resolve_tick(&world, &colliders, &mut locals), 1);
    assert_eq!(locals[1].unwrap().translation, Vec3::new(0, 750, 0));
    assert_eq!(locals[0], at(0, 0, 0));
    // the other way round: a cuboid that has entered a static sphere
    let colliders = vec![sphere(250, ColliderLayer::Static), cuboid(500, ColliderLayer::Object)];
    let mut locals = vec![at(0, 0, 0), at(-700, 0, 0)];
    let world = StaticWorld::construct(&colliders, &locals);
    assert_eq!(resolve_tick(&world, &colliders, &mut locals), 1);
    assert_eq!(locals[1].unwrap().translation, Vec3::new(-750, 0, 0));
}

#[test]
fn later_corrections_build_on_earlier_ones_within_a_tick() {
    let colliders = vec![
        cuboid(500, ColliderLayer::Static),
        cuboid(500, ColliderLayer::Static),
        cuboid(500, ColliderLayer::Object),
    ];
    let mut locals = vec![at(0, 0, 0), at(1000, 0, 0), at(500, 900, 0)];
    let world = StaticWorld::construct(&colliders, &locals);
    let mut pass = world.resolve_collisions(&colliders, &locals);
    assert_eq!(pass.pairs().len(), 2);
    let first = pass.pending().unwrap();
    let contact = axis_contact(&colliders, &locals, first);
    assert_eq!(contact, Contact::new(Vec3::new(0, -ONE, 0), 100));
    assert_eq!(pass.step(&colliders, &mut locals, contact), Ok(true));
    assert_eq!(locals[2].unwrap().translation, Vec3::new(500, 1000, 0));
    // the second pair is tested where the first has left the body
    let second = pass.pending().unwrap();
    assert_ne!(second.fixed, first.fixed);
    assert_eq!(axis_contact(&colliders, &locals, second), None);
    assert_eq!(pass.step(&colliders, &mut locals, None), Ok(false));
    assert!(pass.is_finished());
    assert_eq!(locals[2].unwrap().translation, Vec3::new(500, 1000, 0));
    assert_eq!(locals[0], at(0, 0, 0));
    assert_eq!(locals[1], at(1000, 0, 0));
}

#[test]
fn a_pair_with_a_destroyed_entity_is_a_missing_component() {
    let (colliders, mut locals) = falling_box_scene();
    let world = StaticWorld::construct(&colliders, &locals);
    locals[1] = at(0, 900, 0);
    let mut pass = world.resolve_collisions(&colliders, &locals);
    let pair = Pair { object: 1, fixed: 0 };
    assert_eq!(pass.pending(), Some(pair));
    // the static entity loses its transform after the broad phase
    locals[0] = None;
    assert_eq!(
        Resolution::check(&colliders, &locals, pair),
        Some(CollisionError::MissingComponent)
    );
    let before = locals.clone();
    let contact = Contact::new(Vec3::new(0, -ONE, 0), 100);
    assert_eq!(
        pass.step(&colliders, &mut locals, contact),
        Err(CollisionError::MissingComponent)
    );
    assert_eq!(locals, before);
    assert_eq!(pass.pending(), Some(pair));
    assert_eq!(pass.cursor(), 0);
    // so does a pair whose collider is gone, or whose entity never was
    let mut fewer = falling_box_scene().0;
    fewer[1] = None;
    assert_eq!(
        Resolution::check(&fewer, &falling_box_scene().1, pair),
        Some(CollisionError::MissingComponent)
    );
    assert_eq!(
        Resolution::check(&colliders, &before, Pair { object: 1, fixed: 9 }),
        Some(CollisionError::MissingComponent)
    );
}

#[test]
fn a_pair_with_a_mesh_is_an_unsupported_shape_pair() {
    let ground = vec![
        Triangle::new(Vec3::new(-1000, 0, -1000), Vec3::new(1000, 0, -1000), Vec3::new(0, 0, 1000)),
    ];
    let colliders = vec![
        Collider::new(ColliderShape::new_mesh(ground), ColliderLayer::Static).ok(),
        sphere(100, ColliderLayer::Object),
        cuboid(500, ColliderLayer::Static),
    ];
    let mut locals = vec![at(0, 0, 0), at(0, 50, 0), at(0, -450, 0)];
    let world = StaticWorld::construct(&colliders, &locals);
    let mut pass = world.resolve_collisions(&colliders, &locals);
    let mut pairs = pass.pairs().clone();
    pairs.sort_by_key(|pair| pair.fixed);
    assert_eq!(pairs, vec![Pair { object: 1, fixed: 0 }, Pair { object: 1, fixed: 2 }]);
    let mut unsupported = 0;
    let mut resolved = 0;
    while let Some(pair) = pass.pending() {
        let before = locals.clone();
        if pair.fixed == 0 {
            assert_eq!(
                Resolution::check(&colliders, &locals, pair),
                Some(CollisionError::UnsupportedShapePair)
            );
            let contact = Contact::new(Vec3::new(0, -ONE, 0), 50);
            assert_eq!(
                pass.step(&colliders, &mut locals, contact),
                Err(CollisionError::UnsupportedShapePair)
            );
            // the pair counts as not colliding, and the pass goes on
            assert_eq!(locals, before);
            unsupported += 1;
        } else {
            assert_eq!(Resolution::check(&colliders, &locals, pair), None);
            let contact = axis_contact(&colliders, &locals, pair);
            assert_eq!(pass.step(&colliders, &mut locals, contact), Ok(true));
            resolved += 1;
        }
    }
    assert_eq!((unsupported, resolved), (1, 1));
    assert_eq!(locals[1].unwrap().translation, Vec3::new(0, 150, 0));
}

#[test]
fn a_contact_moves_a_body_against_its_normal_by_its_depth() {
    let t = Vec3::new(10, 20, 30);
    let c = Contact::new(Vec3::new(0, -ONE, 0), 7).unwrap();
    assert_eq!(c.penetration(), Vec3::new(0, -7, 0));
    assert_eq!(c.resolve(&t), Vec3::new(10, 27, 30));
    let c = Contact::new(Vec3::new(ONE, 0, 0), 7).unwrap();
    assert_eq!(c.resolve(&t), Vec3::new(3, 20, 30));
    // half a unit along x and z: three halves are rounded toward zero
    let c = Contact::new(Vec3::new(32768, 0, -32768), 3).unwrap();
    assert_eq!(c.penetration(), Vec3::new(1, 0, -1));
    assert_eq!(c.resolve(&t), Vec3::new(9, 20, 31));
    // a slanted normal of length one: (0.6, 0.8, 0) of depth 1000
    let c = Contact::new(Vec3::new(39321, 52428, 0), 1000).unwrap();
    assert_eq!(c.penetration(), Vec3::new(599, 799, 0));
    assert_eq!(c.resolve(&t), Vec3::new(-589, -779, 30));
    let c = Contact::new(Vec3::new(0, ONE, 0), 0).unwrap();
    assert_eq!(c.resolve(&t), t);
}

#[test]
fn a_contact_has_a_normal_no_longer_than_one_and_a_depth_in_range() {
    assert_eq!(
        Contact::new(Vec3::new(0, ONE, 0), 5),
        Some(Contact { normal: Vec3::new(0, ONE, 0), depth: 5 })
    );
    assert_eq!(Contact::new(Vec3::new(0, ONE, 0), -1), None);
    assert_eq!(Contact::new(Vec3::new(0, ONE, 0), COORD_MAX + 1), None);
    assert_eq!(Contact::new(Vec3::new(1, ONE, 0), 5), None);
    assert_eq!(Contact::new(Vec3::new(0, 0, -ONE - 1), 5), None);
    assert!(Contact::new(Vec3::zero(), COORD_MAX).is_some());
    assert!(!Contact { normal: Vec3::new(ONE, ONE, 0), depth: 1 }.is_wf());
}

#[test]
fn a_contact_that_leads_out_of_the_world_is_not_accepted() {
    let colliders = vec![cuboid(500, ColliderLayer::Static), cuboid(500, ColliderLayer::Object)];
    let locals = vec![at(0, COORD_MAX - 400, 0), at(0, COORD_MAX, 0)];
    let pair = Pair { object: 1, fixed: 0 };
    let outward = Contact::new(Vec3::new(0, -ONE, 0), 600);
    assert!(!outward.unwrap().fits(&Vec3::new(0, COORD_MAX, 0)));
    assert!(!Resolution::accepts(&colliders, &locals, pair, &outward));
    let inward = Contact::new(Vec3::new(0, ONE, 0), 600);
    assert!(inward.unwrap().fits(&Vec3::new(0, COORD_MAX, 0)));
    assert!(Resolution::accepts(&colliders, &locals, pair, &inward));
    assert!(Resolution::accepts(&colliders, &locals, pair, &None));
    let bent = Some(Contact { normal: Vec3::new(ONE, ONE, 0), depth: 1 });
    assert!(!Resolution::accepts(&colliders, &locals, pair, &bent));
    // where the pair cannot be tested, a contact moves nothing and is accepted
    assert!(Resolution::accepts(&colliders, &locals, Pair { object: 1, fixed: 5 }, &outward));
}

#[test]
fn a_pass_can_be_made_of_given_pairs() {
    let (colliders, mut locals) = falling_box_scene();
    let pairs = vec![Pair { object: 1, fixed: 0 }, Pair { object: 1, fixed: 0 }];
    let mut pass = Resolution::new(pairs.clone(), &locals);
    assert_eq!(pass.pairs(), &pairs);
    assert_eq!(pass.cursor(), 0);
    let contact = Contact::new(Vec3::new(0, -ONE, 0), 30);
    assert_eq!(pass.step(&colliders, &mut locals, contact), Ok(true));
    assert_eq!(pass.step(&colliders, &mut locals, contact), Ok(true));
    assert_eq!(pass.cursor(), 2);
    assert_eq!(pass.pending(), None);
    assert_eq!(locals[1].unwrap().translation, Vec3::new(0, 2060, 0));
    assert_eq!(locals[0], at(0, 0, 0));
}

#[test]
fn leaves_and_pairs_are_plain_values() {
    let leaf = Leaf { id: 3, aabb: Aabb::point(Vec3::new(1, 1, 1)) };
    assert_eq!(leaf, leaf.clone());
    let pair = Pair { object: 1, fixed: 2 };
    assert_ne!(pair, Pair { object: 2, fixed: 1 });
}

#[test]
fn delta_mouse_starts_at_rest() {
    let dm = DeltaMosue::new();
    assert_eq!((dm.last_x, dm.last_y, dm.delta_x, dm.delta_y), (0, 0, 0, 0));
}

#[test]
fn delta_mouse_follows_the_pointer() {
    let mut dm = DeltaMosue::new();
    dm.moved_to(10, -4);
    assert_eq!(dm, DeltaMosue { last_x: 10, last_y: -4, delta_x: 10, delta_y: -4 });
    dm.moved_to(7, 6);
    assert_eq!(dm, DeltaMosue { last_x: 7, last_y: 6, delta_x: -3, delta_y: 10 });
    dm.moved_to(7, 6);
    assert_eq!((dm.delta_x, dm.delta_y), (0, 0));
}

#[test]
fn transforms_beyond_the_world_are_told_apart() {
    let mut locals = vec![at(0, 0, 0), None, at(COORD_MAX, -COORD_MAX, 5)];
    assert!(transforms_valid(&locals));
    assert!(transforms_valid(&Vec::new()));
    locals.push(at(0, COORD_MAX + 1, 0));
    assert!(!transforms_valid(&locals));
    locals.pop();
    let bent = Rotation { x: Vec3::new(ONE, ONE, 0), y: Vec3::zero(), z: Vec3::zero() };
    locals[1] = Some(LocalTransform::new(Vec3::zero(), bent));
    assert!(!transforms_valid(&locals));
}
