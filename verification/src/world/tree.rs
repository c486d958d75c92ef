use vstd::prelude::*;
use super::parts::Part;
use super::Handle;
use super::PartVisitDetails;
use super::WorldlyObject;

verus! {

/// The objects of a store, by handle.
pub type Objects = Map<Handle, WorldlyObject>;

/// Whether `handle` is live and names a part.
pub open spec fn is_part(objects: Objects, handle: Handle) -> bool {
    objects.dom().contains(handle) && objects[handle] is Part
}

/// The part under `handle`, where `is_part` holds.
pub open spec fn part_at(objects: Objects, handle: Handle) -> Part {
    objects[handle]->Part_0
}

/// The handles of the live parts.
pub open spec fn parts(objects: Objects) -> Set<Handle> {
    Set::new(|handle: Handle| is_part(objects, handle))
}

/// Whether slot `slot` of the live part `parent` holds `child`.
pub open spec fn is_child(objects: Objects, parent: Handle, slot: int, child: Handle) -> bool {
    is_part(objects, parent) && 0 <= slot < 4 && part_at(objects, parent).child(slot) == Some(child)
}

/// A height for every handle.
pub type Rank = spec_fn(Handle) -> nat;

/// Whether every child stands lower than its parent: then no part is its own descendant.
pub open spec fn ranked(objects: Objects, rank: Rank) -> bool {
    forall|parent: Handle, slot: int, child: Handle| #[trigger]
        is_child(objects, parent, slot, child) ==> rank(child) < rank(parent)
}

/// Whether no part is its own descendant.
pub open spec fn acyclic(objects: Objects) -> bool {
    exists|rank: Rank| ranked(objects, rank)
}

/// A height under which every child stands lower than its parent, where there is one.
pub open spec fn tree_rank(objects: Objects) -> Rank {
    choose|rank: Rank| ranked(objects, rank)
}

/// Whether every occupied slot holds a live part.
pub open spec fn no_dangling(objects: Objects) -> bool {
    forall|parent: Handle, slot: int, child: Handle| #[trigger]
        is_child(objects, parent, slot, child) ==> is_part(objects, child)
}

/// Whether no part sits in two slots.
pub open spec fn single_parent(objects: Objects) -> bool {
    forall|parent1: Handle, slot1: int, parent2: Handle, slot2: int, child: Handle|
        #[trigger] is_child(objects, parent1, slot1, child) && #[trigger] is_child(
            objects,
            parent2,
            slot2,
            child,
        ) ==> parent1 == parent2 && slot1 == slot2
}

/// Whether the parts form trees: every occupied slot holds a live part, no
/// part sits in two slots, and no part is its own descendant.
pub open spec fn tree_wf(objects: Objects) -> bool {
    no_dangling(objects) && single_parent(objects) && acyclic(objects)
}

/// The live part `root` and its descendants through every occupied slot, each
/// part before its children and the children by slot.
pub open spec fn subtree(objects: Objects, rank: Rank, root: Handle) -> Seq<Handle>
    decreases rank(root), 5nat,
{
    if is_part(objects, root) {
        seq![root] + subtrees_until(objects, rank, root, 4)
    } else {
        Seq::empty()
    }
}

/// The subtrees of the children in the first `until` slots of `parent`, by slot.
pub open spec fn subtrees_until(objects: Objects, rank: Rank, parent: Handle, until: nat) -> Seq<Handle>
    decreases rank(parent), until,
{
    if until == 0 {
        Seq::empty()
    } else {
        subtrees_until(objects, rank, parent, (until - 1) as nat) + slot_subtree(
            objects,
            rank,
            parent,
            until - 1,
        )
    }
}

/// The subtree of the child in slot `slot` of `parent`; empty for an empty slot.
pub open spec fn slot_subtree(objects: Objects, rank: Rank, parent: Handle, slot: int) -> Seq<Handle>
    decreases rank(parent), 0nat,
{
    match part_at(objects, parent).child(slot) {
        Some(child) => if rank(child) < rank(parent) {
            subtree(objects, rank, child)
        } else {
            Seq::empty()
        },
        None => Seq::empty(),
    }
}

/// One step of a traversal: a part and where it sits relative to the root.
#[derive(Clone, Copy, Debug, PartialEq, Eq, Structural)]
pub struct PartVisit {
    pub handle: Handle,
    pub details: PartVisitDetails,
}

/// The slot through which a traversal enters: the child and the facing of the point.
pub open spec fn entered(objects: Objects, parent: Handle, slot: int) -> Option<
    (Handle, super::parts::AttachedPartFacing),
> {
    match (part_at(objects, parent).child(slot), part_at(objects, parent).kind.attachment_locations[slot]) {
        (Some(child), Some(point)) => Some((child, point.facing)),
        _ => None,
    }
}

/// The traversal from `root`, which arrives there with `details`: the live
/// part `root`, then, by slot, the traversal of each child that sits in a
/// slot of known geometry, with the details that one step gives.
pub open spec fn visits(objects: Objects, rank: Rank, root: Handle, details: PartVisitDetails) -> Seq<
    PartVisit,
>
    decreases rank(root), 5nat,
{
    if is_part(objects, root) {
        seq![PartVisit { handle: root, details }] + visits_until(objects, rank, root, details, 4)
    } else {
        Seq::empty()
    }
}

/// The traversals through the first `until` slots of `parent`, by slot.
pub open spec fn visits_until(
    objects: Objects,
    rank: Rank,
    parent: Handle,
    details: PartVisitDetails,
    until: nat,
) -> Seq<PartVisit>
    decreases rank(parent), until,
{
    if until == 0 {
        Seq::empty()
    } else {
        visits_until(objects, rank, parent, details, (until - 1) as nat) + slot_visits(
            objects,
            rank,
            parent,
            details,
            until - 1,
        )
    }
}

/// The traversal through slot `slot` of `parent`; empty where the traversal does not enter.
pub open spec fn slot_visits(
    objects: Objects,
    rank: Rank,
    parent: Handle,
    details: PartVisitDetails,
    slot: int,
) -> Seq<PartVisit>
    decreases rank(parent), 0nat,
{
    match entered(objects, parent, slot) {
        Some((child, facing)) => if rank(child) < rank(parent) {
            visits(objects, rank, child, details.step(facing))
        } else {
            Seq::empty()
        },
        None => Seq::empty(),
    }
}

/// Whether every offset that the traversal from `root` computes fits its type.
pub open spec fn visits_fit(objects: Objects, rank: Rank, root: Handle, details: PartVisitDetails) -> bool
    decreases rank(root), 5nat,
{
    is_part(objects, root) ==> visits_fit_until(objects, rank, root, details, 4)
}

/// `visits_fit`, of the traversals through the first `until` slots of `parent`.
pub open spec fn visits_fit_until(
    objects: Objects,
    rank: Rank,
    parent: Handle,
    details: PartVisitDetails,
    until: nat,
) -> bool
    decreases rank(parent), until,
{
    until == 0 || (visits_fit_until(objects, rank, parent, details, (until - 1) as nat)
        && slot_visits_fit(objects, rank, parent, details, until - 1))
}

/// `visits_fit`, of the traversal through slot `slot` of `parent`.
pub open spec fn slot_visits_fit(
    objects: Objects,
    rank: Rank,
    parent: Handle,
    details: PartVisitDetails,
    slot: int,
) -> bool
    decreases rank(parent), 0nat,
{
    match entered(objects, parent, slot) {
        Some((child, facing)) => rank(child) < rank(parent) ==> details.can_step(facing) && visits_fit(
            objects,
            rank,
            child,
            details.step(facing),
        ),
        None => true,
    }
}

} // verus!
