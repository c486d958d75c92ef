use part_world::world::bodies::BodyStatus;
use part_world::world::bodies::RigidBody;
use part_world::world::parts::AttachedPartFacing;
use part_world::world::parts::AttachmentPointDetails;
use part_world::world::parts::Part;
use part_world::world::parts::PartKind;
use part_world::world::planets::Planets;
use part_world::world::planets::EARTH_ID;
use part_world::world::simulation::MouseDrag;
use part_world::world::simulation::Simulation;
use part_world::world::simulation::DRAG_MAX_FORCE;
use part_world::world::Handle;
use part_world::world::World;
use part_world::world::WorldAddHandle;
use part_world::world::WorldlyObject;

fn plain_kind() -> PartKind {
    PartKind::new([
        Some(AttachmentPointDetails { facing: AttachedPartFacing::Up }),
        Some(AttachmentPointDetails { facing: AttachedPartFacing::Right }),
        Some(AttachmentPointDetails { facing: AttachedPartFacing::Down }),
        Some(AttachmentPointDetails { facing: AttachedPartFacing::Left }),
    ])
}

fn add_part(world: &mut World, mass: u32, player: Option<u16>) -> Handle {
    let part = Part::new(plain_kind(), RigidBody::dynamic(mass, 0, 0), player);
    WorldAddHandle::from(world).add_now(WorldlyObject::Part(part))
}

#[test]
fn default_world_holds_only_the_reference_point() {
    let mut world = World::default();
    let anchor = world.reference_point_body();
    assert!(world.contains(anchor));
    let body = world.get_rigid(anchor).expect("the reference point has a body");
    assert_eq!(body.status, BodyStatus::Static);
    assert_eq!(body.mass, 0);
    assert!(world.get_part(anchor).is_none());
    assert!(world.iter_parts_mut().is_empty());
    assert_eq!(world.pop_removal_event(), None);
}

#[test]
fn reads_of_a_live_handle_agree() {
    let mut world = World::default();
    let first = add_part(&mut world, 7, Some(3));
    let second = add_part(&mut world, 9, None);
    for _ in 0..3 {
        assert_eq!(world.get_part(first).unwrap().body().mass, 7);
        assert_eq!(world.get_part(first).unwrap().part_of_player(), Some(3));
        assert_eq!(world.get_part(second).unwrap().body().mass, 9);
        assert_eq!(world.get_rigid(second).unwrap().mass, 9);
    }
    assert_ne!(first, second);
}

#[test]
fn a_removed_handle_stays_stale_when_its_slot_is_used_again() {
    let mut world = World::default();
    let old = add_part(&mut world, 1, None);
    let removed = world.remove_part_unprotected(old);
    assert_eq!(removed.body().mass, 1);
    assert!(world.get_part(old).is_none());
    assert!(world.get_rigid(old).is_none());
    assert!(!world.contains(old));
    let new = add_part(&mut world, 2, None);
    assert_eq!(new.index, old.index);
    assert_ne!(new.generation, old.generation);
    assert_ne!(new, old);
    assert!(world.get_part(old).is_none());
    assert!(world.get_part_mut(old).is_none());
    assert!(world.get_rigid_mut(old).is_none());
    assert_eq!(world.get_part(new).unwrap().body().mass, 2);
    let copy_of_old = Handle { index: old.index, generation: old.generation };
    assert!(world.get_part(copy_of_old).is_none());
    assert!(world.get(copy_of_old).is_none());
    assert!(matches!(world.get(new), Some(WorldlyObject::Part(_))));
    assert!(matches!(world.get(world.reference_point_body()), Some(WorldlyObject::CelestialObject(_))));
}

#[test]
fn writes_through_a_handle_are_read_back() {
    let mut world = World::default();
    let handle = add_part(&mut world, 5, None);
    let other = add_part(&mut world, 6, None);
    world.get_rigid_mut(handle).unwrap().mass = 50;
    world.get_part_mut(handle).unwrap().part_of_player = Some(8);
    assert_eq!(world.get_part(handle).unwrap().body().mass, 50);
    assert_eq!(world.get_part(handle).unwrap().part_of_player(), Some(8));
    assert_eq!(world.get_part(other).unwrap().body().mass, 6);
    assert_eq!(world.get_part(other).unwrap().part_of_player(), None);
}

#[test]
fn a_reserved_handle_has_no_body_until_it_is_filled() {
    let mut world = World::default();
    let reserved = {
        let mut adder = WorldAddHandle::from(&mut world);
        adder.add_later()
    };
    assert!(!world.contains(reserved));
    assert!(world.get_rigid(reserved).is_none());
    assert!(world.get_part(reserved).is_none());
    {
        let mut adder = WorldAddHandle::from(&mut world);
        let part = Part::new(plain_kind(), RigidBody::dynamic(4, 1, 2), Some(1));
        adder.add_its_later(reserved, WorldlyObject::Part(part));
        let back: &mut World = adder.deconstruct();
        assert!(back.contains(reserved));
    }
    assert_eq!(world.get_part(reserved).unwrap().body().mass, 4);
    assert_eq!(world.get_rigid(reserved).unwrap().x, 1);
    assert_eq!(world.get_rigid(reserved).unwrap().y, 2);
}

#[test]
fn removals_are_reported_once_oldest_first() {
    let mut world = World::default();
    let a = add_part(&mut world, 1, None);
    let b = add_part(&mut world, 2, None);
    let c = add_part(&mut world, 3, None);
    world.remove_part_unprotected(b);
    world.remove_part_unprotected(a);
    assert_eq!(world.pop_removal_event(), Some(b));
    world.remove_part_unprotected(c);
    assert_eq!(world.pop_removal_event(), Some(a));
    assert_eq!(world.pop_removal_event(), Some(c));
    assert_eq!(world.pop_removal_event(), None);
    assert_eq!(world.pop_removal_event(), None);
}

#[test]
fn iteration_gives_the_live_parts_by_slot() {
    let mut world = World::default();
    let a = add_part(&mut world, 1, None);
    let planet = world.add_celestial_object(RigidBody::reference_point());
    let b = add_part(&mut world, 2, None);
    let reserved = WorldAddHandle::from(&mut world).add_later();
    let c = add_part(&mut world, 3, None);
    assert_eq!(world.iter_parts_mut(), vec![a, b, c]);
    world.remove_part_unprotected(b);
    assert_eq!(world.iter_parts_mut(), vec![a, c]);
    assert!(world.contains(planet));
    assert!(!world.contains(reserved));
}

#[test]
fn the_earth_is_registered_with_its_body() {
    let mut world = World::default();
    let planets = Planets::new(&mut world);
    let [earth] = planets.celestial_objects();
    assert_eq!(earth.name, "earth");
    assert_eq!(earth.display_name, "Earth");
    assert_eq!(earth.radius, 25);
    assert_eq!(earth.mass, 500);
    assert_eq!(earth.position, (0, 0));
    assert_eq!(earth.id, EARTH_ID);
    assert_eq!(earth.tag().id, earth.id);
    assert_ne!(earth.body, world.reference_point_body());
    let body = world.get_rigid(earth.body).unwrap();
    assert_eq!(body.status, BodyStatus::Static);
    assert_eq!(body.mass, 500);
    assert!(!body.gravity_enabled);
    assert_eq!((body.x, body.y), (0, 0));
    assert!(world.get_part(earth.body).is_none());
}

#[test]
fn a_drag_is_anchored_to_the_reference_point() {
    let mut simulation = Simulation::new();
    let part = add_part(&mut simulation.world, 1, Some(2));
    let drag = simulation.equip_mouse_dragging(part);
    assert_eq!(
        drag,
        MouseDrag { part, anchor: simulation.world.reference_point_body(), max_force: 1000 }
    );
    assert_eq!(DRAG_MAX_FORCE, 1000);
    assert_ne!(drag.anchor, simulation.planets.earth.body);
}

#[test]
fn a_joint_that_is_gone_is_broken() {
    assert!(Simulation::is_constraint_broken(None));
    assert!(Simulation::is_constraint_broken(Some(true)));
    assert!(!Simulation::is_constraint_broken(Some(false)));
}

#[test]
fn bodies_are_listed_by_slot_without_reserved_handles() {
    let mut world = World::default();
    let anchor = world.reference_point_body();
    let planets = Planets::new(&mut world);
    let a = add_part(&mut world, 1, None);
    let reserved = WorldAddHandle::from(&mut world).add_later();
    let b = add_part(&mut world, 2, None);
    assert_eq!(world.body_handles(), vec![anchor, planets.earth.body, a, b]);
    assert_eq!(world.iter_parts_mut(), vec![a, b]);
    world.remove_part_unprotected(a);
    assert_eq!(world.body_handles(), vec![anchor, planets.earth.body, b]);
    assert!(!world.body_handles().contains(&reserved));
}

#[test]
fn every_object_but_a_reserved_one_has_a_body() {
    let part = Part::new(plain_kind(), RigidBody::dynamic(4, -2, 6), Some(1));
    let mut object = WorldlyObject::Part(part);
    assert_eq!(object.rigid(), Some(&RigidBody::dynamic(4, -2, 6)));
    object.rigid_mut().unwrap().mass = 5;
    assert_eq!(object.rigid().unwrap().mass, 5);
    let mut planet = WorldlyObject::CelestialObject(RigidBody::reference_point());
    assert_eq!(planet.rigid().unwrap().status, BodyStatus::Static);
    planet.rigid_mut().unwrap().gravity_enabled = false;
    assert!(!planet.rigid().unwrap().gravity_enabled);
    let mut reserved = WorldlyObject::Uninitialized;
    assert!(reserved.rigid().is_none());
    assert!(reserved.rigid_mut().is_none());
}

#[test]
fn a_checked_removal_takes_out_live_parts_only() {
    let mut world = World::default();
    assert_eq!(world.removals_left(), u64::MAX);
    let part = add_part(&mut world, 3, Some(2));
    let anchor = world.reference_point_body();
    assert!(world.try_remove_part(anchor).is_none());
    assert!(world.contains(anchor));
    assert_eq!(world.removals_left(), u64::MAX);
    let removed = world.try_remove_part(part).expect("the part is live");
    assert_eq!(removed.body().mass, 3);
    assert_eq!(world.removals_left(), u64::MAX - 1);
    assert!(world.get_part(part).is_none());
    assert!(world.get_rigid(part).is_none());
    assert!(!world.contains(part));
    assert!(world.try_remove_part(part).is_none());
    assert_eq!(world.removals_left(), u64::MAX - 1);
    assert_eq!(world.pop_removal_event(), Some(part));
    assert_eq!(world.pop_removal_event(), None);
    let next = add_part(&mut world, 4, None);
    assert_eq!(next.generation, 1);
    assert_ne!(next, part);
    assert!(world.get_rigid(part).is_none());
    assert_eq!(world.get_rigid(next).unwrap().mass, 4);
}

#[test]
fn handles_are_ordered_by_slot_and_then_generation() {
    let low = Handle { index: 1, generation: 9 };
    let high = Handle { index: 2, generation: 0 };
    let later = Handle { index: 2, generation: 3 };
    assert!(low < high);
    assert!(high < later);
    let set: std::collections::BTreeSet<Handle> = [later, low, high, low].into_iter().collect();
    assert_eq!(set.into_iter().collect::<Vec<Handle>>(), vec![low, high, later]);
}

#[test]
fn a_part_finds_the_first_slot_of_a_child() {
    let child = Handle { index: 3, generation: 9 };
    let other = Handle { index: 4, generation: 9 };
    let mut part = Part::new(plain_kind(), RigidBody::dynamic(4, 0, 0), None);
    assert_eq!(part.slot_of(child), None);
    part.attach_part_player_agnostic(3, child, AttachedPartFacing::Left);
    part.attach_part_player_agnostic(0, other, AttachedPartFacing::Up);
    part.attach_part_player_agnostic(1, child, AttachedPartFacing::Right);
    assert_eq!(part.slot_of(child), Some(1));
    assert_eq!(part.slot_of(other), Some(0));
    assert_eq!(part.slot_of(Handle { index: 3, generation: 8 }), None);
}

#[test]
fn a_part_keeps_what_it_is_given() {
    let child = Handle { index: 3, generation: 9 };
    let mut part = Part::new(plain_kind(), RigidBody::dynamic(4, 0, 0), Some(12));
    assert_eq!(part.part_of_player(), Some(12));
    assert_eq!(part.kind().attachment_locations()[1].unwrap().facing, AttachedPartFacing::Right);
    assert!(part.attachments().iter().all(|slot| slot.is_none()));
    part.attach_part_player_agnostic(2, child, AttachedPartFacing::Down);
    assert_eq!(part.attachments()[2].unwrap().part, child);
    assert_eq!(part.attachments()[2].unwrap().facing, AttachedPartFacing::Down);
    assert!(part.attachments()[0].is_none());
    assert_eq!(part.detach_part_player_agnostic(0), None);
    assert_eq!(part.detach_part_player_agnostic(2), Some(child));
    assert!(part.attachments()[2].is_none());
    part.body_mut().mass = 8;
    assert_eq!(part.body().mass, 8);
    assert_eq!(part.remove_from(), Some(12));
    assert_eq!(part.part_of_player(), None);
    assert_eq!(part.remove_from(), None);
}
