use vstd::prelude::*;
use std::collections::VecDeque;
use generational_arena::Arena;

pub mod attach;
pub mod bodies;
pub mod contacts;
pub mod delete;
pub mod detach;
pub mod laws;
pub mod parts;
pub mod planets;
pub mod simulation;
pub mod storage;
pub mod subtrees;
pub mod traversal;
pub mod traversal_mut;
pub mod tree;

use bodies::RigidBody;
use parts::AttachedPartFacing;
use parts::Part;
use storage::arena_contents;
use storage::arena_generation;
use storage::arena_get;
use storage::arena_get_mut;
use storage::arena_handles;
use storage::arena_insert;
use storage::arena_new;
use storage::arena_remove;
use tree::is_part;
use tree::part_at;

verus! {

/// Names a slot of the store at one generation. A handle stays with the object
/// it was issued for: once that object is removed the handle names nothing,
/// also after the slot is used again.
#[derive(Clone, Copy, Debug, PartialEq, Eq, Structural, PartialOrd, Ord, Hash)]
pub struct Handle {
    pub index: usize,
    pub generation: u64,
}

/// What a slot of the store holds.
#[derive(Clone, Copy, Debug)]
pub enum WorldlyObject {
    CelestialObject(RigidBody),
    Part(Part),
    /// Reserved, to be filled once.
    Uninitialized,
}

impl WorldlyObject {
    /// The body of the object, if it has one.
    pub open spec fn spec_rigid(self) -> Option<RigidBody> {
        match self {
            WorldlyObject::Part(part) => Some(part.body),
            WorldlyObject::CelestialObject(body) => Some(body),
            WorldlyObject::Uninitialized => None,
        }
    }

    /// The object with its body replaced by `body`, if it has one.
    pub open spec fn with_rigid(self, body: RigidBody) -> WorldlyObject {
        match self {
            WorldlyObject::Part(part) => WorldlyObject::Part(Part { body, ..part }),
            WorldlyObject::CelestialObject(_) => WorldlyObject::CelestialObject(body),
            WorldlyObject::Uninitialized => WorldlyObject::Uninitialized,
        }
    }

    pub fn rigid(&self) -> (body: Option<&RigidBody>)
        ensures
            match body {
                Some(found) => self.spec_rigid() == Some(*found),
                None => self.spec_rigid() is None,
            },
    {
        match self {
            WorldlyObject::Part(part) => Some(part.body()),
            WorldlyObject::CelestialObject(body) => Some(body),
            WorldlyObject::Uninitialized => None,
        }
    }

    pub fn rigid_mut(&mut self) -> (body: Option<&mut RigidBody>)
        ensures
            match body {
                Some(found) => old(self).spec_rigid() == Some(*found) && *final(self) == old(self).with_rigid(
                    *final(found),
                ),
                None => old(self).spec_rigid() is None && *final(self) == *old(self),
            },
    {
        match self {
            WorldlyObject::Part(part) => Some(part.body_mut()),
            WorldlyObject::CelestialObject(body) => Some(body),
            WorldlyObject::Uninitialized => None,
        }
    }
}

/// Where a traversal stands: the offset of the part from the root, in grid
/// steps; the facing that its attachment point declares; and its true facing,
/// which is the declared one turned by the true facing of its parent.
#[derive(Clone, Copy, Debug, PartialEq, Eq, Structural)]
pub struct PartVisitDetails {
    pub part_rel_x: i32,
    pub part_rel_y: i32,
    pub my_facing: AttachedPartFacing,
    pub true_facing: AttachedPartFacing,
}

impl PartVisitDetails {
    /// The details of a root: no offset, facing up.
    pub open spec fn spec_default() -> PartVisitDetails {
        PartVisitDetails {
            part_rel_x: 0,
            part_rel_y: 0,
            my_facing: AttachedPartFacing::Up,
            true_facing: AttachedPartFacing::Up,
        }
    }

    /// Whether the offset of a child at a point of facing `facing` fits its type.
    pub open spec fn can_step(self, facing: AttachedPartFacing) -> bool {
        let delta = facing.true_facing(self.true_facing).delta();
        &&& i32::MIN <= self.part_rel_x + delta.0 <= i32::MAX
        &&& i32::MIN <= self.part_rel_y + delta.1 <= i32::MAX
    }

    /// The details of a child attached at a point of facing `facing`: one
    /// grid step further, in the direction of the child's true facing.
    pub open spec fn step(self, facing: AttachedPartFacing) -> PartVisitDetails {
        let true_facing = facing.true_facing(self.true_facing);
        PartVisitDetails {
            part_rel_x: (self.part_rel_x + true_facing.delta().0) as i32,
            part_rel_y: (self.part_rel_y + true_facing.delta().1) as i32,
            my_facing: facing,
            true_facing,
        }
    }
}

impl Default for PartVisitDetails {
    fn default() -> (details: PartVisitDetails)
        ensures
            details == PartVisitDetails::spec_default(),
    {
        PartVisitDetails {
            part_rel_x: 0,
            part_rel_y: 0,
            my_facing: AttachedPartFacing::Up,
            true_facing: AttachedPartFacing::Up,
        }
    }
}

/// The store: every object of a simulation under its handle, the handles
/// removed since the integrator last asked, and the body that drag
/// constraints are anchored to.
pub struct World {
    storage: Arena<WorldlyObject>,
    removal_events: VecDeque<Handle>,
    reference_point_body: Handle,
    generation: u64,
}

/// What a `World` is, to its contracts.
#[verifier::ext_equal]
pub struct WorldView {
    /// The live objects.
    pub objects: Map<Handle, WorldlyObject>,
    /// The handles of removed parts that the integrator has not been told of, oldest first.
    pub removal_events: Seq<Handle>,
    /// The anchor of drag constraints.
    pub reference_point_body: Handle,
    /// The number of removals so far; no live handle has a later generation.
    pub generation: nat,
}

impl View for World {
    type V = WorldView;

    closed spec fn view(&self) -> WorldView {
        WorldView {
            objects: arena_contents(self.storage),
            removal_events: self.removal_events@,
            reference_point_body: self.reference_point_body,
            generation: arena_generation(self.storage),
        }
    }
}

impl WorldView {
    /// Validity of a store: the count of removals fits its type, no live
    /// handle is of a generation to come, and the reference point is there.
    pub open spec fn wf(self) -> bool {
        &&& self.generation <= u64::MAX
        &&& forall|handle: Handle| #[trigger]
            self.objects.dom().contains(handle) ==> handle.generation <= self.generation
        &&& self.objects.dom().contains(self.reference_point_body)
        &&& self.objects[self.reference_point_body] is CelestialObject
    }

    /// Whether `handle` was live once and is no more, or never will be: it
    /// names nothing, and no insertion will issue it.
    pub open spec fn stale(self, handle: Handle) -> bool {
        !self.objects.dom().contains(handle) && handle.generation < self.generation
    }
}

impl World {
    /// Whether the store has kept count of its removals.
    pub closed spec fn counted(&self) -> bool {
        self.generation == arena_generation(self.storage)
    }

    /// Validity of the store.
    pub open spec fn wf(&self) -> bool {
        self@.wf() && self.counted()
    }

    /// The number of removals that the store can still make.
    pub fn removals_left(&self) -> (left: u64)
        requires
            self.wf(),
        ensures
            left == u64::MAX - self@.generation,
    {
        u64::MAX - self.generation
    }

    fn insert(&mut self, object: WorldlyObject) -> (handle: Handle)
        requires
            old(self).wf(),
        ensures
            final(self).wf(),
            !old(self)@.objects.dom().contains(handle),
            handle.generation == old(self)@.generation,
            final(self)@ == (WorldView { objects: old(self)@.objects.insert(handle, object), ..old(self)@ }),
    {
        arena_insert(&mut self.storage, object)
    }

    pub fn add_celestial_object(&mut self, body: RigidBody) -> (handle: Handle)
        requires
            old(self).wf(),
        ensures
            final(self).wf(),
            !old(self)@.objects.dom().contains(handle),
            handle.generation == old(self)@.generation,
            final(self)@ == (WorldView {
                objects: old(self)@.objects.insert(handle, WorldlyObject::CelestialObject(body)),
                ..old(self)@
            }),
    {
        self.insert(WorldlyObject::CelestialObject(body))
    }

    /// The object under `index`, if the handle is live.
    pub fn get(&self, index: Handle) -> (object: Option<&WorldlyObject>)
        ensures
            match object {
                Some(found) => self@.objects.dom().contains(index) && *found == self@.objects[index],
                None => !self@.objects.dom().contains(index),
            },
    {
        arena_get(&self.storage, index)
    }

    pub fn get_rigid(&self, index: Handle) -> (body: Option<&RigidBody>)
        ensures
            match body {
                Some(found) => self@.objects.dom().contains(index) && self@.objects[index].spec_rigid()
                    == Some(*found),
                None => !self@.objects.dom().contains(index) || self@.objects[index] is Uninitialized,
            },
    {
        match arena_get(&self.storage, index) {
            Some(object) => object.rigid(),
            None => None,
        }
    }

    pub fn get_part(&self, index: Handle) -> (part: Option<&Part>)
        ensures
            match part {
                Some(found) => is_part(self@.objects, index) && *found == part_at(self@.objects, index),
                None => !is_part(self@.objects, index),
            },
    {
        match arena_get(&self.storage, index) {
            Some(WorldlyObject::Part(part)) => Some(part),
            _ => None,
        }
    }

    pub fn get_rigid_mut(&mut self, index: Handle) -> (body: Option<&mut RigidBody>)
        ensures
            old(self).wf() ==> final(self).wf(),
            match body {
                Some(found) => old(self)@.objects.dom().contains(index) && old(self)@.objects[index].spec_rigid()
                    == Some(*found) && final(self)@ == (WorldView {
                    objects: old(self)@.objects.insert(
                        index,
                        old(self)@.objects[index].with_rigid(*final(found)),
                    ),
                    ..old(self)@
                }),
                None => (!old(self)@.objects.dom().contains(index) || old(self)@.objects[index] is Uninitialized)
                    && final(self)@ == old(self)@,
            },
    {
        match arena_get_mut(&mut self.storage, index) {
            Some(object) => object.rigid_mut(),
            None => None,
        }
    }

    pub fn get_part_mut(&mut self, index: Handle) -> (part: Option<&mut Part>)
        ensures
            old(self).wf() ==> final(self).wf(),
            match part {
                Some(found) => is_part(old(self)@.objects, index) && *found == part_at(old(self)@.objects, index)
                    && final(self)@ == (WorldView {
                    objects: old(self)@.objects.insert(index, WorldlyObject::Part(*final(found))),
                    ..old(self)@
                }),
                None => !is_part(old(self)@.objects, index) && final(self)@ == old(self)@,
            },
    {
        match arena_get_mut(&mut self.storage, index) {
            Some(WorldlyObject::Part(part)) => Some(part),
            _ => None,
        }
    }

    /// Whether `handle` names an object with a body.
    pub fn contains(&self, handle: Handle) -> (live: bool)
        ensures
            live == (self@.objects.dom().contains(handle) && !(self@.objects[handle] is Uninitialized)),
    {
        self.get_rigid(handle).is_some()
    }

    /// The anchor of drag constraints.
    pub fn reference_point_body(&self) -> (handle: Handle)
        ensures
            handle == self@.reference_point_body,
    {
        self.reference_point_body
    }

    /// Takes the part under `part_handle` out of the store, if it is live,
    /// leaving whatever is attached to it where it is, and notes the removal
    /// for the integrator.
    pub(crate) fn remove_part(&mut self, part_handle: Handle) -> (part: Option<Part>)
        requires
            old(self).wf(),
            !old(self)@.objects.dom().contains(part_handle) || is_part(old(self)@.objects, part_handle),
            old(self)@.generation < u64::MAX,
        ensures
            final(self).wf(),
            match part {
                Some(removed) => is_part(old(self)@.objects, part_handle) && removed == part_at(
                    old(self)@.objects,
                    part_handle,
                ) && final(self)@ == (WorldView {
                    objects: old(self)@.objects.remove(part_handle),
                    removal_events: old(self)@.removal_events.push(part_handle),
                    generation: old(self)@.generation + 1,
                    ..old(self)@
                }),
                None => !old(self)@.objects.dom().contains(part_handle) && final(self)@ == old(self)@,
            },
    {
        match arena_remove(&mut self.storage, part_handle) {
            Some(WorldlyObject::Part(part)) => {
                self.removal_events.push_back(part_handle);
                self.generation = self.generation + 1;
                Some(part)
            },
            _ => None,
        }
    }

    /// Takes the part under `part_handle` out of the store, leaving whatever
    /// is attached to it where it is, and notes the removal for the integrator.
    pub fn remove_part_unprotected(&mut self, part_handle: Handle) -> (part: Part)
        requires
            old(self).wf(),
            is_part(old(self)@.objects, part_handle),
            old(self)@.generation < u64::MAX,
        ensures
            final(self).wf(),
            part == part_at(old(self)@.objects, part_handle),
            final(self)@ == (WorldView {
                objects: old(self)@.objects.remove(part_handle),
                removal_events: old(self)@.removal_events.push(part_handle),
                generation: old(self)@.generation + 1,
                ..old(self)@
            }),
    {
        self.remove_part(part_handle).unwrap()
    }

    /// As `remove_part_unprotected`, for any handle and any store: takes
    /// the part out if the handle names a live part and the store can still
    /// make a removal, and does nothing if not.
    pub fn try_remove_part(&mut self, part_handle: Handle) -> (part: Option<Part>)
        requires
            old(self).wf(),
        ensures
            final(self).wf(),
            match part {
                Some(removed) => is_part(old(self)@.objects, part_handle) && old(self)@.generation < u64::MAX
                    && removed == part_at(old(self)@.objects, part_handle) && final(self)@ == (WorldView {
                    objects: old(self)@.objects.remove(part_handle),
                    removal_events: old(self)@.removal_events.push(part_handle),
                    generation: old(self)@.generation + 1,
                    ..old(self)@
                }),
                None => (!is_part(old(self)@.objects, part_handle) || old(self)@.generation == u64::MAX)
                    && final(self)@ == old(self)@,
            },
    {
        if self.generation == u64::MAX || self.get_part(part_handle).is_none() {
            None
        } else {
            self.remove_part(part_handle)
        }
    }

    /// The oldest removal that the integrator has not been told of, which is then forgotten.
    pub fn pop_removal_event(&mut self) -> (event: Option<Handle>)
        ensures
            old(self).wf() ==> final(self).wf(),
            old(self)@.removal_events.len() == 0 ==> event is None && final(self)@ == old(self)@,
            old(self)@.removal_events.len() > 0 ==> event == Some(old(self)@.removal_events[0])
                && final(self)@ == (WorldView {
                removal_events: old(self)@.removal_events.drop_first(),
                ..old(self)@
            }),
    {
        self.removal_events.pop_front()
    }

    /// The handles of the live parts, by ascending slot index.
    pub fn iter_parts_mut(&self) -> (handles: Vec<Handle>)
        ensures
            forall|handle: Handle| handles@.contains(handle) <==> is_part(self@.objects, handle),
            forall|i: int, j: int| 0 <= i < j < handles@.len() ==> handles@[i].index < handles@[j].index,
    {
        self.handles_of(true)
    }

    /// The part and the slot that `child` sits in, if it sits in one: of
    /// several, the part of the lowest slot index in the store, and its lowest slot.
    pub fn parent_of(&self, child: Handle) -> (place: Option<(Handle, usize)>)
        ensures
            match place {
                Some((parent, slot)) => tree::is_child(self@.objects, parent, slot as int, child) && forall|
                    other: Handle,
                    at: int,
                | #[trigger]
                    tree::is_child(self@.objects, other, at, child) ==> parent.index < other.index || (other
                        == parent && slot <= at),
                None => forall|other: Handle, at: int| !tree::is_child(self@.objects, other, at, child),
            },
    {
        let handles = self.iter_parts_mut();
        let mut i: usize = 0;
        while i < handles.len()
            invariant
                i <= handles.len(),
                forall|handle: Handle| handles@.contains(handle) <==> is_part(self@.objects, handle),
                forall|a: int, b: int| 0 <= a < b < handles@.len() ==> handles@[a].index < handles@[b].index,
                forall|k: int, at: int|
                    0 <= k < i ==> !#[trigger] tree::is_child(self@.objects, handles@[k], at, child),
            decreases handles.len() - i,
        {
            let handle = handles[i];
            assert(handles@.contains(handle));
            match self.get_part(handle) {
                Some(part) => match part.slot_of(child) {
                    Some(slot) => {
                        proof {
                            assert forall|other: Handle, at: int| #[trigger]
                                tree::is_child(self@.objects, other, at, child) implies handle.index
                                < other.index || (other == handle && slot <= at) by {
                                assert(handles@.contains(other));
                                let k = choose|k: int| 0 <= k < handles@.len() && handles@[k] == other;
                                if k < i {
                                    assert(!tree::is_child(self@.objects, handles@[k], at, child));
                                }
                            }
                        }
                        return Some((handle, slot));
                    },
                    None => {},
                },
                None => {},
            }
            i += 1;
        }
        proof {
            assert forall|other: Handle, at: int| !tree::is_child(self@.objects, other, at, child) by {
                if tree::is_child(self@.objects, other, at, child) {
                    assert(handles@.contains(other));
                    let k = choose|k: int| 0 <= k < handles@.len() && handles@[k] == other;
                    assert(!tree::is_child(self@.objects, handles@[k], at, child));
                }
            }
        }
        None
    }

    /// The handles of the objects that have a body, by ascending slot index.
    pub fn body_handles(&self) -> (handles: Vec<Handle>)
        ensures
            forall|handle: Handle|
                handles@.contains(handle) <==> self@.objects.dom().contains(handle)
                    && !(self@.objects[handle] is Uninitialized),
            forall|i: int, j: int| 0 <= i < j < handles@.len() ==> handles@[i].index < handles@[j].index,
    {
        self.handles_of(false)
    }

    /// Whether `handle` is live and names a part, or, if not `parts_only`, any object with a body.
    pub open spec fn wanted(&self, handle: Handle, parts_only: bool) -> bool {
        if parts_only {
            is_part(self@.objects, handle)
        } else {
            self@.objects.dom().contains(handle) && !(self@.objects[handle] is Uninitialized)
        }
    }

    fn handles_of(&self, parts_only: bool) -> (handles: Vec<Handle>)
        ensures
            forall|handle: Handle| handles@.contains(handle) <==> self.wanted(handle, parts_only),
            forall|i: int, j: int| 0 <= i < j < handles@.len() ==> handles@[i].index < handles@[j].index,
    {
        let all = arena_handles(&self.storage);
        let mut handles: Vec<Handle> = Vec::new();
        let ghost mut from: Seq<int> = Seq::empty();
        let mut i: usize = 0;
        while i < all.len()
            invariant
                i <= all.len(),
                forall|handle: Handle| all@.contains(handle) <==> self@.objects.dom().contains(handle),
                forall|a: int, b: int| 0 <= a < b < all@.len() ==> all@[a].index < all@[b].index,
                from.len() == handles@.len(),
                forall|k: int|
                    0 <= k < handles@.len() ==> 0 <= #[trigger] from[k] < i && handles@[k] == all@[from[k]]
                        && self.wanted(handles@[k], parts_only),
                forall|a: int, b: int| 0 <= a < b < from.len() ==> from[a] < from[b],
                forall|m: int|
                    0 <= m < i && self.wanted(#[trigger] all@[m], parts_only) ==> handles@.contains(all@[m]),
            decreases all.len() - i,
        {
            let handle = all[i];
            let ghost before = handles@;
            let wanted = if parts_only {
                self.get_part(handle).is_some()
            } else {
                self.get_rigid(handle).is_some()
            };
            if wanted {
                handles.push(handle);
                proof {
                    from = from.push(i as int);
                    assert(handles@[handles@.len() - 1] == handle);
                    assert forall|m: int|
                        0 <= m < i + 1 && self.wanted(#[trigger] all@[m], parts_only) implies handles@.contains(
                        all@[m],
                    ) by {
                        if m < i {
                            let k = choose|k: int| 0 <= k < before.len() && before[k] == all@[m];
                            assert(handles@[k] == all@[m]);
                        }
                    }
                }
            }
            i += 1;
        }
        proof {
            assert forall|handle: Handle| self.wanted(handle, parts_only) implies handles@.contains(handle) by {
                assert(all@.contains(handle));
                let m = choose|m: int| 0 <= m < all@.len() && all@[m] == handle;
                assert(self.wanted(all@[m], parts_only));
            }
            assert forall|handle: Handle| handles@.contains(handle) implies self.wanted(
                handle,
                parts_only,
            ) by {
                let k = choose|k: int| 0 <= k < handles@.len() && handles@[k] == handle;
                assert(0 <= from[k]);
            }
            assert forall|i: int, j: int| 0 <= i < j < handles@.len() implies handles@[i].index
                < handles@[j].index by {
                assert(from[i] < from[j]);
                assert(0 <= from[i] && from[j] < all@.len());
            }
        }
        handles
    }
}

/// The store, to one who adds to it while it is being built.
pub struct WorldAddHandle<'a>(pub &'a mut World);

impl<'a> WorldAddHandle<'a> {
    /// The store as it stands.
    pub open spec fn world(&self) -> World {
        *self.0
    }

    /// Stores `object` under a new handle.
    pub fn add_now(&mut self, object: WorldlyObject) -> (index: Handle)
        requires
            old(self).world().wf(),
        ensures
            final(self).world().wf(),
            !old(self).world()@.objects.dom().contains(index),
            index.generation == old(self).world()@.generation,
            final(self).world()@ == (WorldView {
                objects: old(self).world()@.objects.insert(index, object),
                ..old(self).world()@
            }),
            *final(final(self).0) == *final(old(self).0),
    {
        self.0.insert(object)
    }

    /// Reserves a new handle, to be filled by `add_its_later`.
    pub fn add_later(&mut self) -> (index: Handle)
        requires
            old(self).world().wf(),
        ensures
            final(self).world().wf(),
            !old(self).world()@.objects.dom().contains(index),
            index.generation == old(self).world()@.generation,
            final(self).world()@ == (WorldView {
                objects: old(self).world()@.objects.insert(index, WorldlyObject::Uninitialized),
                ..old(self).world()@
            }),
            *final(final(self).0) == *final(old(self).0),
    {
        self.0.insert(WorldlyObject::Uninitialized)
    }

    /// Fills the reserved handle `index` with `object`.
    pub fn add_its_later(&mut self, index: Handle, object: WorldlyObject)
        requires
            old(self).world().wf(),
            old(self).world()@.objects.dom().contains(index),
            old(self).world()@.objects[index] is Uninitialized,
        ensures
            final(self).world().wf(),
            final(self).world()@ == (WorldView {
                objects: old(self).world()@.objects.insert(index, object),
                ..old(self).world()@
            }),
            *final(final(self).0) == *final(old(self).0),
    {
        match arena_get_mut(&mut self.0.storage, index) {
            Some(reserved) => {
                *reserved = object;
            },
            None => {},
        }
    }

    /// The store `world`, to one who adds to it.
    pub fn from(world: &'a mut World) -> (handle: WorldAddHandle<'a>)
        ensures
            handle.world() == *old(world),
            *final(handle.0) == *final(world),
    {
        WorldAddHandle(world)
    }

    pub fn deconstruct(self) -> (world: &'a mut World)
        ensures
            *world == self.world(),
            *final(world) == *final(self.0),
    {
        self.0
    }
}

/// What clients are told.
#[derive(Clone, Copy, Debug, PartialEq, Eq, Structural)]
pub enum ToClientMsg {
    /// The part `id` is gone.
    RemovePart { id: Handle },
}

impl Default for World {
    /// A store that holds the reference point and nothing else.
    fn default() -> (world: World)
        ensures
            world.wf(),
            world@.objects == (Map::<Handle, WorldlyObject>::empty().insert(
                world@.reference_point_body,
                WorldlyObject::CelestialObject(RigidBody::spec_reference_point()),
            )),
            world@.removal_events.len() == 0,
            world@.generation == 0,
            tree::tree_wf(world@.objects),
    {
        let mut storage = arena_new();
        let reference_point_body = arena_insert(
            &mut storage,
            WorldlyObject::CelestialObject(RigidBody::reference_point()),
        );
        proof {
            laws::lemma_loose_parts_are_trees(arena_contents(storage));
        }
        World { storage, reference_point_body, removal_events: VecDeque::new(), generation: 0 }
    }
}

} // verus!
