use part_world::world::bodies::RigidBody;
use part_world::world::parts::AttachedPartFacing;
use part_world::world::parts::AttachedPartFacing::Down;
use part_world::world::parts::AttachedPartFacing::Left;
use part_world::world::parts::AttachedPartFacing::Right;
use part_world::world::parts::AttachedPartFacing::Up;
use part_world::world::parts::AttachmentPointDetails;
use part_world::world::parts::Part;
use part_world::world::parts::PartKind;
use part_world::world::simulation::Simulation;
use part_world::world::traversal::PartVisitHandle;
use part_world::world::traversal_mut::PartVisitHandleMut;
use part_world::world::tree::PartVisit;
use part_world::world::Handle;
use part_world::world::PartVisitDetails;
use part_world::world::ToClientMsg;
use part_world::world::World;
use part_world::world::WorldAddHandle;
use part_world::world::WorldlyObject;

fn compass_kind() -> PartKind {
    PartKind::new([
        Some(AttachmentPointDetails { facing: AttachedPartFacing::Up }),
        Some(AttachmentPointDetails { facing: AttachedPartFacing::Right }),
        Some(AttachmentPointDetails { facing: AttachedPartFacing::Down }),
        Some(AttachmentPointDetails { facing: AttachedPartFacing::Left }),
    ])
}

fn new_part(world: &mut World, player: Option<u16>) -> Handle {
    let part = Part::new(compass_kind(), RigidBody::dynamic(1, 0, 0), player);
    WorldAddHandle::from(world).add_now(WorldlyObject::Part(part))
}

fn attach(world: &mut World, parent: Handle, slot: usize, child: Handle) {
    let facing = world.get_part(parent).unwrap().kind().attachment_locations()[slot].unwrap().facing;
    world.get_part_mut(parent).unwrap().attach_part_player_agnostic(slot, child, facing);
}

fn details(x: i32, y: i32, my_facing: AttachedPartFacing, true_facing: AttachedPartFacing) -> PartVisitDetails {
    PartVisitDetails { part_rel_x: x, part_rel_y: y, my_facing, true_facing }
}

fn seen_by_recurse_part(world: &World, root: Handle) -> Vec<PartVisit> {
    let mut seen = Vec::new();
    world.recurse_part(root, PartVisitDetails::default(), &mut |visit: PartVisitHandle| {
        seen.push(PartVisit { handle: visit.handle(), details: *visit.details() })
    });
    seen
}

#[test]
fn facings_turn_by_quarters() {
    assert_eq!(Up.compute_true_facing(Up), Up);
    assert_eq!(Right.compute_true_facing(Up), Right);
    assert_eq!(Up.compute_true_facing(Left), Left);
    assert_eq!(Right.compute_true_facing(Right), Down);
    assert_eq!(Left.compute_true_facing(Right), Up);
    assert_eq!(Down.compute_true_facing(Down), Up);
    assert_eq!(Left.compute_true_facing(Left), Down);
    assert_eq!(Down.compute_true_facing(Left), Right);
    assert_eq!(Up.delta_rel_part(), (0, 1));
    assert_eq!(Right.delta_rel_part(), (1, 0));
    assert_eq!(Down.delta_rel_part(), (0, -1));
    assert_eq!(Left.delta_rel_part(), (-1, 0));
}

#[test]
fn default_details_are_at_the_root_facing_up() {
    assert_eq!(
        PartVisitDetails::default(),
        details(0, 0, AttachedPartFacing::Up, AttachedPartFacing::Up)
    );
}

#[test]
fn a_chain_of_three_composes_facings_and_adds_offsets() {
    let mut world = World::default();
    let root = new_part(&mut world, None);
    let child = new_part(&mut world, None);
    let grandchild = new_part(&mut world, None);
    attach(&mut world, root, 1, child);
    attach(&mut world, child, 3, grandchild);
    assert_eq!(
        seen_by_recurse_part(&world, root),
        vec![
            PartVisit { handle: root, details: details(0, 0, Up, Up) },
            PartVisit { handle: child, details: details(1, 0, Right, Right) },
            PartVisit { handle: grandchild, details: details(1, 1, Left, Up) },
        ]
    );
}

#[test]
fn a_traversal_goes_parents_first_and_by_slot() {
    let mut world = World::default();
    let root = new_part(&mut world, None);
    let up = new_part(&mut world, None);
    let down = new_part(&mut world, None);
    let left_of_down = new_part(&mut world, None);
    let left = new_part(&mut world, None);
    attach(&mut world, root, 3, left);
    attach(&mut world, root, 2, down);
    attach(&mut world, root, 0, up);
    attach(&mut world, down, 3, left_of_down);
    assert_eq!(
        seen_by_recurse_part(&world, root),
        vec![
            PartVisit { handle: root, details: details(0, 0, Up, Up) },
            PartVisit { handle: up, details: details(0, 1, Up, Up) },
            PartVisit { handle: down, details: details(0, -1, Down, Down) },
            PartVisit { handle: left_of_down, details: details(1, -1, Left, Right) },
            PartVisit { handle: left, details: details(-1, 0, Left, Left) },
        ]
    );
    assert_eq!(
        seen_by_recurse_part(&world, down),
        vec![
            PartVisit { handle: down, details: details(0, 0, Up, Up) },
            PartVisit { handle: left_of_down, details: details(-1, 0, Left, Left) },
        ]
    );
}

#[test]
fn a_traversal_passes_over_what_is_gone_and_what_has_no_geometry() {
    let mut world = World::default();
    let root = new_part(&mut world, None);
    let gone = new_part(&mut world, None);
    let hidden = new_part(&mut world, None);
    let kept = new_part(&mut world, None);
    attach(&mut world, root, 0, gone);
    attach(&mut world, root, 1, hidden);
    attach(&mut world, root, 2, kept);
    world.get_part_mut(root).unwrap().kind.attachment_locations[1] = None;
    world.remove_part_unprotected(gone);
    let handles: Vec<Handle> = seen_by_recurse_part(&world, root).iter().map(|visit| visit.handle).collect();
    assert_eq!(handles, vec![root, kept]);
    assert!(seen_by_recurse_part(&world, gone).is_empty());
    assert!(seen_by_recurse_part(&world, world.reference_point_body()).is_empty());
}

#[test]
fn a_traversal_with_return_stops_at_the_first_value() {
    let mut world = World::default();
    let root = new_part(&mut world, None);
    let a = new_part(&mut world, Some(4));
    let b = new_part(&mut world, Some(5));
    let c = new_part(&mut world, Some(6));
    attach(&mut world, root, 0, a);
    attach(&mut world, a, 0, b);
    attach(&mut world, root, 1, c);
    let mut calls = 0;
    let found = world.recurse_part_with_return(root, PartVisitDetails::default(), &mut |visit: PartVisitHandle| {
        calls += 1;
        visit.part().part_of_player().map(|player| (visit.handle(), player, visit.details().part_rel_y))
    });
    assert_eq!(found, Some((a, 4, 1)));
    assert_eq!(calls, 2);
    let mut calls = 0;
    let found: Option<u8> =
        world.recurse_part_with_return(root, PartVisitDetails::default(), &mut |_visit: PartVisitHandle| {
            calls += 1;
            None
        });
    assert_eq!(found, None);
    assert_eq!(calls, 4);
    let found = world.recurse_part_with_return(c, PartVisitDetails::default(), &mut |visit: PartVisitHandle| {
        visit.get_part(b).map(|part| part.part_of_player())
    });
    assert_eq!(found, Some(Some(5)));
}

#[test]
fn a_walk_without_changes_is_the_traversal() {
    let mut world = World::default();
    let root = new_part(&mut world, None);
    let a = new_part(&mut world, None);
    let b = new_part(&mut world, None);
    let c = new_part(&mut world, None);
    let d = new_part(&mut world, None);
    attach(&mut world, root, 1, a);
    attach(&mut world, a, 0, b);
    attach(&mut world, a, 2, c);
    attach(&mut world, root, 3, d);
    let mut walk = world.recurse_part_mut(root, PartVisitDetails::default());
    let mut seen = Vec::new();
    while let Some(visit) = walk.next(&world) {
        seen.push(visit);
    }
    assert_eq!(seen, seen_by_recurse_part(&world, root));
    assert_eq!(seen.len(), 5);
    assert_eq!(walk.next(&world), None);
}

#[test]
fn a_walk_sees_what_its_visitor_did_to_the_part() {
    let mut world = World::default();
    let root = new_part(&mut world, None);
    let a = new_part(&mut world, None);
    let under_a = new_part(&mut world, None);
    let b = new_part(&mut world, None);
    let under_b = new_part(&mut world, None);
    attach(&mut world, root, 0, a);
    attach(&mut world, a, 0, under_a);
    attach(&mut world, root, 1, b);
    attach(&mut world, b, 0, under_b);
    let mut walk = world.recurse_part_mut(root, PartVisitDetails::default());
    let mut seen = Vec::new();
    while let Some(visit) = walk.next(&world) {
        seen.push(visit.handle);
        let mut shown = PartVisitHandleMut(&mut world, visit.handle, visit.details);
        assert_eq!(shown.handle(), visit.handle);
        assert_eq!(*shown.details(), visit.details);
        if visit.handle == a {
            shown.get_part_mut(a).unwrap().detach_part_player_agnostic(0);
            shown.get_rigid_mut(b).unwrap().mass = 11;
        }
        if visit.handle == root {
            assert!(shown.get_part(under_b).is_some());
            world.remove_part_unprotected(under_b);
        }
    }
    assert_eq!(seen, vec![root, a, b]);
    assert!(world.get_part(under_a).is_some());
    assert_eq!(world.get_rigid(b).unwrap().mass, 11);
}

#[test]
fn deleting_a_tree_removes_every_part_parents_first() {
    let mut world = World::default();
    let root = new_part(&mut world, Some(1));
    let first = new_part(&mut world, Some(1));
    let under_first = new_part(&mut world, Some(1));
    let third = new_part(&mut world, Some(1));
    let bystander = new_part(&mut world, Some(1));
    attach(&mut world, root, 2, third);
    attach(&mut world, root, 0, first);
    attach(&mut world, first, 1, under_first);
    world.get_part_mut(first).unwrap().kind.attachment_locations[1] = None;
    let mut messages = vec![ToClientMsg::RemovePart { id: bystander }];
    world.delete_parts_recursive(root, &mut messages);
    assert_eq!(
        messages,
        vec![
            ToClientMsg::RemovePart { id: bystander },
            ToClientMsg::RemovePart { id: root },
            ToClientMsg::RemovePart { id: first },
            ToClientMsg::RemovePart { id: under_first },
            ToClientMsg::RemovePart { id: third },
        ]
    );
    for gone in [root, first, under_first, third] {
        assert!(world.get_part(gone).is_none());
        assert!(!world.contains(gone));
    }
    assert_eq!(world.iter_parts_mut(), vec![bystander]);
    for live in world.iter_parts_mut() {
        for slot in world.get_part(live).unwrap().attachments().iter() {
            assert!(slot.is_none());
        }
    }
    assert_eq!(world.pop_removal_event(), Some(root));
    assert_eq!(world.pop_removal_event(), Some(first));
    assert_eq!(world.pop_removal_event(), Some(under_first));
    assert_eq!(world.pop_removal_event(), Some(third));
    assert_eq!(world.pop_removal_event(), None);
    assert!(world.contains(world.reference_point_body()));
}

#[test]
fn deleting_what_is_gone_does_nothing() {
    let mut simulation = Simulation::new();
    let part = new_part(&mut simulation.world, None);
    assert_eq!(simulation.delete_parts_recursive(part), vec![ToClientMsg::RemovePart { id: part }]);
    assert_eq!(simulation.delete_parts_recursive(part), vec![]);
    assert_eq!(simulation.world.pop_removal_event(), Some(part));
    assert_eq!(simulation.world.pop_removal_event(), None);
    assert!(simulation.world.contains(simulation.planets.earth.body));
}

#[test]
fn detaching_one_slot_frees_the_child_and_keeps_what_hangs_on_it() {
    let mut world = World::default();
    let root = new_part(&mut world, Some(7));
    let child = new_part(&mut world, Some(7));
    let grandchild = new_part(&mut world, Some(7));
    attach(&mut world, root, 2, child);
    attach(&mut world, child, 0, grandchild);
    let mut affected = Vec::new();
    assert_eq!(world.recursive_detach_one(root, 1, &mut affected), None);
    assert!(affected.is_empty());
    assert_eq!(world.recursive_detach_one(root, 2, &mut affected), Some(child));
    assert_eq!(affected, vec![child]);
    assert!(world.get_part(root).unwrap().attachments()[2].is_none());
    assert_eq!(world.get_part(root).unwrap().part_of_player(), Some(7));
    assert_eq!(world.get_part(child).unwrap().part_of_player(), None);
    assert_eq!(world.get_part(child).unwrap().attachments()[0].unwrap().part, grandchild);
    assert_eq!(world.get_part(grandchild).unwrap().part_of_player(), Some(7));
    assert_eq!(world.recursive_detach_one(root, 2, &mut affected), None);
    assert_eq!(affected, vec![child]);
    assert_eq!(world.pop_removal_event(), None);
    world.remove_part_unprotected(root);
    assert_eq!(world.recursive_detach_one(root, 2, &mut affected), None);
    assert_eq!(affected, vec![child]);
}

#[test]
fn detaching_all_slots_affects_each_child_once() {
    let mut world = World::default();
    let root = new_part(&mut world, Some(2));
    let a = new_part(&mut world, Some(2));
    let b = new_part(&mut world, None);
    let c = new_part(&mut world, Some(2));
    let under_c = new_part(&mut world, Some(2));
    attach(&mut world, root, 0, a);
    attach(&mut world, root, 1, b);
    attach(&mut world, root, 3, c);
    attach(&mut world, c, 0, under_c);
    let mut affected = vec![b];
    world.recursive_detach_all(root, &mut affected);
    assert_eq!(affected, vec![b, a, c]);
    for slot in world.get_part(root).unwrap().attachments().iter() {
        assert!(slot.is_none());
    }
    assert_eq!(world.get_part(root).unwrap().part_of_player(), Some(2));
    for child in [a, b, c] {
        assert_eq!(world.get_part(child).unwrap().part_of_player(), None);
    }
    assert_eq!(world.get_part(c).unwrap().attachments()[0].unwrap().part, under_c);
    assert_eq!(world.get_part(under_c).unwrap().part_of_player(), Some(2));
    let mut again = Vec::new();
    world.recursive_detach_all(root, &mut again);
    assert!(again.is_empty());
    world.recursive_detach_all(world.reference_point_body(), &mut again);
    assert!(again.is_empty());
}

#[test]
fn detaching_all_of_three_gives_three_affected() {
    let mut world = World::default();
    let root = new_part(&mut world, None);
    let children = [new_part(&mut world, None), new_part(&mut world, None), new_part(&mut world, None)];
    attach(&mut world, root, 0, children[0]);
    attach(&mut world, root, 2, children[1]);
    attach(&mut world, root, 3, children[2]);
    let mut affected = Vec::new();
    world.recursive_detach_all(root, &mut affected);
    assert_eq!(affected.len(), 3);
    assert_eq!(affected, children.to_vec());
    for child in children {
        assert!(world.get_part(child).is_some());
    }
}

#[test]
fn a_visitor_reads_the_part_it_is_shown() {
    let mut world = World::default();
    let root = new_part(&mut world, Some(3));
    let child = new_part(&mut world, Some(4));
    attach(&mut world, root, 2, child);
    let mut owners = Vec::new();
    world.recurse_part(root, PartVisitDetails::default(), &mut |visit: PartVisitHandle| {
        owners.push((visit.part_of_player(), visit.get_rigid(visit.handle()).map(|body| body.mass)));
        assert!(visit.get_part(root).is_some());
    });
    assert_eq!(owners, vec![(Some(3), Some(1)), (Some(4), Some(1))]);
}

#[test]
fn deleting_an_attached_part_empties_the_slot_it_sat_in() {
    let mut world = World::default();
    let root = new_part(&mut world, Some(1));
    let kept = new_part(&mut world, Some(1));
    let child = new_part(&mut world, Some(1));
    let grandchild = new_part(&mut world, Some(1));
    attach(&mut world, root, 0, kept);
    attach(&mut world, root, 2, child);
    attach(&mut world, child, 1, grandchild);
    assert_eq!(world.parent_of(child), Some((root, 2)));
    assert_eq!(world.parent_of(grandchild), Some((child, 1)));
    assert_eq!(world.parent_of(root), None);
    let mut messages = Vec::new();
    world.delete_parts_recursive(child, &mut messages);
    assert_eq!(messages, vec![ToClientMsg::RemovePart { id: child }, ToClientMsg::RemovePart { id: grandchild }]);
    assert!(world.get_part(child).is_none());
    assert!(world.get_part(grandchild).is_none());
    let parent = world.get_part(root).unwrap();
    assert!(parent.attachments()[2].is_none());
    assert_eq!(parent.attachments()[0].unwrap().part, kept);
    assert_eq!(parent.part_of_player(), Some(1));
    assert_eq!(world.parent_of(child), None);
    assert_eq!(world.parent_of(kept), Some((root, 0)));
    for live in world.iter_parts_mut() {
        for slot in world.get_part(live).unwrap().attachments().iter().flatten() {
            assert!(world.get_part(slot.part).is_some());
        }
    }
    let mut more = Vec::new();
    world.delete_parts_recursive(root, &mut more);
    assert_eq!(more, vec![ToClientMsg::RemovePart { id: root }, ToClientMsg::RemovePart { id: kept }]);
    assert!(world.iter_parts_mut().is_empty());
}

#[test]
fn a_simulation_deletes_a_tree_of_four_and_nothing_else() {
    let mut simulation = Simulation::new();
    let holder = new_part(&mut simulation.world, None);
    let root = new_part(&mut simulation.world, None);
    let a = new_part(&mut simulation.world, None);
    let b = new_part(&mut simulation.world, None);
    let c = new_part(&mut simulation.world, None);
    attach(&mut simulation.world, holder, 3, root);
    attach(&mut simulation.world, root, 0, a);
    attach(&mut simulation.world, root, 1, b);
    attach(&mut simulation.world, a, 0, c);
    let messages = simulation.delete_parts_recursive(root);
    assert_eq!(messages.len(), 4);
    assert_eq!(
        messages,
        vec![
            ToClientMsg::RemovePart { id: root },
            ToClientMsg::RemovePart { id: a },
            ToClientMsg::RemovePart { id: c },
            ToClientMsg::RemovePart { id: b },
        ]
    );
    for gone in [root, a, b, c] {
        assert!(simulation.world.get_part(gone).is_none());
    }
    assert!(simulation.world.get_part(holder).unwrap().attachments().iter().all(|slot| slot.is_none()));
    assert!(simulation.world.contains(simulation.planets.earth.body));
    assert!(simulation.world.contains(simulation.world.reference_point_body()));
}

#[test]
fn a_walk_stops_at_the_first_value_found() {
    let mut world = World::default();
    let root = new_part(&mut world, None);
    let a = new_part(&mut world, Some(6));
    let b = new_part(&mut world, Some(7));
    attach(&mut world, root, 0, a);
    attach(&mut world, root, 1, b);
    let mut walk = world.recurse_part_mut(root, PartVisitDetails::default());
    let mut found: Option<u16> = None;
    let mut seen = Vec::new();
    while let Some(visit) = walk.next_after(&world, &found) {
        assert!(walk.can_continue(&world));
        seen.push(visit.handle);
        found = world.get_part(visit.handle).unwrap().part_of_player();
    }
    assert_eq!(found, Some(6));
    assert_eq!(seen, vec![root, a]);
    assert_eq!(walk.next_after(&world, &found), None);
    assert_eq!(walk.next(&world).map(|visit| visit.handle), Some(b));
}

#[test]
fn a_walk_cannot_continue_past_the_edge_of_the_grid() {
    let mut world = World::default();
    let root = new_part(&mut world, None);
    let right = new_part(&mut world, None);
    attach(&mut world, root, 1, right);
    let at_edge = details(i32::MAX, 0, Up, Up);
    let mut walk = world.recurse_part_mut(root, at_edge);
    assert!(walk.can_continue(&world));
    assert_eq!(walk.next(&world), Some(PartVisit { handle: root, details: at_edge }));
    assert!(!walk.can_continue(&world));
    world.get_part_mut(root).unwrap().detach_part_player_agnostic(1);
    assert!(walk.can_continue(&world));
    assert_eq!(walk.next(&world), None);
    let mut walk = world.recurse_part_mut(right, at_edge);
    assert_eq!(walk.next(&world).map(|visit| visit.handle), Some(right));
    world.remove_part_unprotected(right);
    assert!(walk.can_continue(&world));
    assert_eq!(walk.next(&world), None);
}

#[test]
fn attaching_puts_the_child_into_the_slot() {
    let mut world = World::default();
    let root = new_part(&mut world, Some(1));
    let child = new_part(&mut world, None);
    let other = new_part(&mut world, None);
    world.attach(root, 3, child, Left);
    world.attach(child, 0, other, Up);
    let slot = world.get_part(root).unwrap().attachments()[3].unwrap();
    assert_eq!(slot.part, child);
    assert_eq!(slot.facing, Left);
    assert!(world.get_part(root).unwrap().attachments()[0].is_none());
    assert_eq!(world.get_part(root).unwrap().part_of_player(), Some(1));
    assert_eq!(world.parent_of(child), Some((root, 3)));
    assert_eq!(world.parent_of(other), Some((child, 0)));
    let handles: Vec<Handle> = seen_by_recurse_part(&world, root).iter().map(|visit| visit.handle).collect();
    assert_eq!(handles, vec![root, child, other]);
}

#[test]
fn a_checked_delete_refuses_what_is_no_part() {
    let mut simulation = Simulation::new();
    let root = new_part(&mut simulation.world, None);
    let child = new_part(&mut simulation.world, None);
    attach(&mut simulation.world, root, 1, child);
    let earth = simulation.planets.earth.body;
    assert_eq!(simulation.try_delete_parts_recursive(earth), None);
    assert!(simulation.world.contains(earth));
    assert_eq!(simulation.world.pop_removal_event(), None);
    let mut messages = Vec::new();
    assert!(!simulation.world.try_delete_parts_recursive(earth, &mut messages));
    assert!(messages.is_empty());
    assert_eq!(
        simulation.try_delete_parts_recursive(child),
        Some(vec![ToClientMsg::RemovePart { id: child }])
    );
    assert!(simulation.world.get_part(root).unwrap().attachments()[1].is_none());
    assert_eq!(simulation.try_delete_parts_recursive(child), Some(vec![]));
    assert!(simulation.world.try_delete_parts_recursive(root, &mut messages));
    assert_eq!(messages, vec![ToClientMsg::RemovePart { id: root }]);
    assert!(simulation.world.iter_parts_mut().is_empty());
}

#[test]
fn a_checked_attach_refuses_what_would_not_be_a_tree() {
    let mut world = World::default();
    let root = new_part(&mut world, None);
    let child = new_part(&mut world, None);
    let grandchild = new_part(&mut world, None);
    let loose = new_part(&mut world, None);
    assert!(world.try_attach(root, 0, child, Up));
    assert!(world.try_attach(child, 2, grandchild, Down));
    assert!(world.hangs_on(grandchild, root));
    assert!(world.hangs_on(root, root));
    assert!(world.hangs_on(grandchild, child));
    assert!(!world.hangs_on(root, child));
    assert!(!world.hangs_on(loose, root));
    assert!(!world.hangs_on(root, world.reference_point_body()));
    assert!(!world.try_attach(grandchild, 0, root, Up));
    assert!(!world.try_attach(root, 0, root, Up));
    assert!(!world.try_attach(loose, 0, child, Up));
    assert!(!world.try_attach(root, 4, loose, Up));
    assert!(!world.try_attach(root, 1, world.reference_point_body(), Up));
    assert!(!world.try_attach(world.reference_point_body(), 1, loose, Up));
    world.remove_part_unprotected(loose);
    assert!(!world.try_attach(root, 1, loose, Up));
    assert!(world.get_part(root).unwrap().attachments()[1].is_none());
    assert!(world.get_part(grandchild).unwrap().attachments()[0].is_none());
    assert_eq!(world.parent_of(child), Some((root, 0)));
    assert_eq!(world.parent_of(grandchild), Some((child, 2)));
    assert_eq!(world.parent_of(root), None);
}

#[test]
fn a_subtree_counts_the_part_and_all_that_hangs_on_it() {
    let mut world = World::default();
    let root = new_part(&mut world, None);
    let a = new_part(&mut world, None);
    let b = new_part(&mut world, None);
    let c = new_part(&mut world, None);
    let loose = new_part(&mut world, None);
    attach(&mut world, root, 0, a);
    attach(&mut world, root, 3, b);
    attach(&mut world, a, 1, c);
    assert_eq!(world.subtree_len(root), 4);
    assert_eq!(world.subtree_len(a), 2);
    assert_eq!(world.subtree_len(b), 1);
    assert_eq!(world.subtree_len(loose), 1);
    assert_eq!(world.subtree_len(world.reference_point_body()), 0);
    world.remove_part_unprotected(loose);
    assert_eq!(world.subtree_len(loose), 0);
    let mut messages = Vec::new();
    world.delete_parts_recursive(root, &mut messages);
    assert_eq!(messages.len(), 4);
    assert_eq!(world.removals_left(), u64::MAX - 5);
}
