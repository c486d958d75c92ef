use vstd::prelude::*;
use super::bodies::RigidBody;
use super::contacts::classify_all;
use super::contacts::ContactEvent;
use super::contacts::SimulationEvent;
use super::delete::deleted;
use super::delete::removal_notices;
use super::planets::Planets;
use super::tree::is_part;
use super::tree::tree_wf;
use super::Handle;
use super::ToClientMsg;
use super::World;
use super::WorldView;
use super::WorldlyObject;

verus! {

/// The force beyond which a drag constraint breaks.
pub const DRAG_MAX_FORCE: u32 = 1000;

/// A drag constraint to be made: a joint that pulls the origin of the body
/// `part` towards a point of the body `anchor`, and breaks beyond `max_force`.
#[derive(Clone, Copy, Debug, PartialEq, Eq, Structural)]
pub struct MouseDrag {
    pub part: Handle,
    pub anchor: Handle,
    pub max_force: u32,
}

/// One running match: the store and the celestial objects.
pub struct Simulation {
    pub world: World,
    pub planets: Planets,
}

impl Simulation {
    /// A simulation that holds the reference point and the earth.
    pub fn new() -> (simulation: Simulation)
        ensures
            simulation.world.wf(),
            simulation.planets.earth.body != simulation.world@.reference_point_body,
            simulation.world@.objects == (Map::<Handle, WorldlyObject>::empty().insert(
                simulation.world@.reference_point_body,
                WorldlyObject::CelestialObject(RigidBody::spec_reference_point()),
            ).insert(simulation.planets.earth.body, WorldlyObject::CelestialObject(Planets::earth_body()))),
            simulation.world@.removal_events.len() == 0,
            simulation.world@.generation == 0,
            simulation.planets.earth.id == super::planets::EARTH_ID,
            tree_wf(simulation.world@.objects),
    {
        let mut world = World::default();
        let ghost before = world@.objects;
        let planets = Planets::new(&mut world);
        proof {
            super::laws::lemma_insert_keeps_trees(
                before,
                planets.earth.body,
                WorldlyObject::CelestialObject(Planets::earth_body()),
            );
        }
        Simulation { world, planets }
    }

    /// The last step of a tick: adds to `events` what the contacts that the
    /// integrator reported for the tick mean to the game, in their order.
    pub fn simulate(&self, contacts: &Vec<ContactEvent>, events: &mut Vec<SimulationEvent>)
        ensures
            final(events)@ == old(events)@ + classify_all(self.world@.objects, contacts@),
    {
        self.world.classify_contacts(contacts, events);
    }

    /// The drag constraint for the body `part`: anchored to the reference point.
    pub fn equip_mouse_dragging(&self, part: Handle) -> (drag: MouseDrag)
        requires
            self.world@.objects.dom().contains(part),
            !(self.world@.objects[part] is Uninitialized),
        ensures
            drag == (MouseDrag { part, anchor: self.world@.reference_point_body, max_force: DRAG_MAX_FORCE }),
    {
        MouseDrag { part, anchor: self.world.reference_point_body(), max_force: DRAG_MAX_FORCE }
    }

    /// Whether a drag constraint is broken, given what the joint says of
    /// itself, or `None` where the joint is gone: a joint that is gone is broken.
    pub fn is_constraint_broken(joint: Option<bool>) -> (broken: bool)
        ensures
            broken == match joint {
                Some(says) => says,
                None => true,
            },
    {
        match joint {
            Some(says) => says,
            None => true,
        }
    }

    /// As `delete_parts_recursive`, for any handle and any store whose parts
    /// form trees: deletes and returns the notices where the store can, and
    /// does nothing and returns `None` where not.
    pub fn try_delete_parts_recursive(&mut self, index: Handle) -> (removal_msgs: Option<Vec<ToClientMsg>>)
        requires
            old(self).world.wf(),
            tree_wf(old(self).world@.objects),
        ensures
            final(self).world.wf(),
            tree_wf(final(self).world@.objects),
            removal_msgs is Some == old(self).world.can_delete(index),
            removal_msgs is None ==> final(self).world@ == old(self).world@,
            match removal_msgs {
                Some(notices) => notices@ == removal_notices(old(self).world.subtree(index)) && deleted(
                    old(self).world@.objects,
                    final(self).world@.objects,
                    index,
                    old(self).world.subtree(index),
                ) && final(self).world@ == (WorldView {
                    objects: final(self).world@.objects,
                    removal_events: old(self).world@.removal_events + old(self).world.subtree(index),
                    generation: old(self).world@.generation + old(self).world.subtree(index).len(),
                    ..old(self).world@
                }),
                None => true,
            },
    {
        let mut removal_msgs = Vec::new();
        if self.world.try_delete_parts_recursive(index, &mut removal_msgs) {
            Some(removal_msgs)
        } else {
            None
        }
    }

    /// Takes the part `index` and all that hangs on it out of the store,
    /// empties the slot that `index` sat in, and returns the notices of it,
    /// parents first.
    pub fn delete_parts_recursive(&mut self, index: Handle) -> (removal_msgs: Vec<ToClientMsg>)
        requires
            old(self).world.wf(),
            tree_wf(old(self).world@.objects),
            !old(self).world@.objects.dom().contains(index) || is_part(old(self).world@.objects, index),
            old(self).world@.generation + old(self).world.subtree(index).len() <= u64::MAX,
        ensures
            final(self).world.wf(),
            tree_wf(final(self).world@.objects),
            deleted(
                old(self).world@.objects,
                final(self).world@.objects,
                index,
                old(self).world.subtree(index),
            ),
            final(self).world@ == (WorldView {
                objects: final(self).world@.objects,
                removal_events: old(self).world@.removal_events + old(self).world.subtree(index),
                generation: old(self).world@.generation + old(self).world.subtree(index).len(),
                ..old(self).world@
            }),
            removal_msgs@ == removal_notices(old(self).world.subtree(index)),
    {
        let mut removal_msgs = Vec::new();
        self.world.delete_parts_recursive(index, &mut removal_msgs);
        removal_msgs
    }
}

} // verus!
