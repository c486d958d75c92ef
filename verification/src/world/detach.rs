use vstd::prelude::*;
use super::parts::Part;
use super::parts::ATTACHMENT_SLOTS;
use super::tree::is_part;
use super::tree::part_at;
use super::tree::Objects;
use super::Handle;
use super::World;
use super::WorldView;
use super::WorldlyObject;

verus! {

/// `affected` with `handle` at its end, unless it holds `handle` already.
pub open spec fn with_affected(affected: Seq<Handle>, handle: Handle) -> Seq<Handle> {
    if affected.contains(handle) {
        affected
    } else {
        affected.push(handle)
    }
}

/// `affected` with the children in the first `until` slots of `part`, by slot.
pub open spec fn with_children(affected: Seq<Handle>, part: Part, until: int) -> Seq<Handle>
    decreases until,
{
    if until <= 0 {
        affected
    } else {
        match part.child(until - 1) {
            Some(child) => with_affected(with_children(affected, part, until - 1), child),
            None => with_children(affected, part, until - 1),
        }
    }
}

/// Whether `child` sits in one of the first `until` slots of `part`.
pub open spec fn child_until(part: Part, until: int, child: Handle) -> bool {
    exists|slot: int| 0 <= slot < until && #[trigger] part.child(slot) == Some(child)
}

/// `object` without its owning player, if it is a part.
pub open spec fn disowned(object: WorldlyObject) -> WorldlyObject {
    match object {
        WorldlyObject::Part(part) => WorldlyObject::Part(Part { part_of_player: None, ..part }),
        other => other,
    }
}

/// Whether the objects went from `before` to `after` by emptying the first
/// `until` slots of the part `parent` and taking the owning player from each
/// part that sat in one of them: nothing else differs.
pub open spec fn detached_until(before: Objects, after: Objects, parent: Handle, until: int) -> bool {
    let was = part_at(before, parent);
    let now = part_at(after, parent);
    &&& after.dom() =~= before.dom()
    &&& is_part(after, parent)
    &&& now.body == was.body
    &&& now.kind == was.kind
    &&& now.part_of_player == if child_until(was, until, parent) {
        None
    } else {
        was.part_of_player
    }
    &&& forall|slot: int|
        0 <= slot < 4 ==> #[trigger] now.attachments[slot] == if slot < until {
            None
        } else {
            was.attachments[slot]
        }
    &&& forall|other: Handle|
        before.dom().contains(other) && other != parent ==> #[trigger] after[other] == if child_until(
            was,
            until,
            other,
        ) {
            disowned(before[other])
        } else {
            before[other]
        }
}

/// Whether the objects went from `before` to `after` by emptying slot `slot`
/// of the part `parent`, which held `child`, and taking the owning player
/// from `child`, if that is a part: nothing else differs.
pub open spec fn detached_one(before: Objects, after: Objects, parent: Handle, slot: int, child: Handle) -> bool {
    let was = part_at(before, parent);
    let now = part_at(after, parent);
    &&& after.dom() =~= before.dom()
    &&& is_part(after, parent)
    &&& now.body == was.body
    &&& now.kind == was.kind
    &&& now.part_of_player == if child == parent {
        None
    } else {
        was.part_of_player
    }
    &&& now.attachments@ =~= was.attachments@.update(slot, None)
    &&& forall|other: Handle|
        before.dom().contains(other) && other != parent ==> #[trigger] after[other] == if other == child {
            disowned(before[other])
        } else {
            before[other]
        }
}

/// Adds `handle` to `parts_affected`, which holds each handle once.
fn note_affected(parts_affected: &mut Vec<Handle>, handle: Handle)
    ensures
        final(parts_affected)@ == with_affected(old(parts_affected)@, handle),
{
    let mut i: usize = 0;
    while i < parts_affected.len()
        invariant
            i <= parts_affected.len(),
            *parts_affected == *old(parts_affected),
            forall|k: int| 0 <= k < i ==> parts_affected@[k] != handle,
        decreases parts_affected.len() - i,
    {
        if parts_affected[i] == handle {
            return ;
        }
        i += 1;
    }
    parts_affected.push(handle);
}

impl World {
    /// The child in slot `slot` of `parent`, if `parent` is a live part and the slot is occupied.
    pub open spec fn attached(&self, parent: Handle, slot: int) -> Option<Handle> {
        if is_part(self@.objects, parent) {
            part_at(self@.objects, parent).child(slot)
        } else {
            None
        }
    }

    /// Empties slot `attachment_slot` of `parent_handle` and returns the
    /// child that sat there, which stays in the store with all that is
    /// attached to it, loses its owning player and is added to
    /// `parts_affected`. Nothing happens if the parent is no live part or the
    /// slot is empty.
    pub fn recursive_detach_one(
        &mut self,
        parent_handle: Handle,
        attachment_slot: usize,
        parts_affected: &mut Vec<Handle>,
    ) -> (detached: Option<Handle>)
        requires
            attachment_slot < ATTACHMENT_SLOTS,
        ensures
            old(self).wf() ==> final(self).wf(),
            detached == old(self).attached(parent_handle, attachment_slot as int),
            final(self)@ == (WorldView { objects: final(self)@.objects, ..old(self)@ }),
            match detached {
                Some(child) => detached_one(
                    old(self)@.objects,
                    final(self)@.objects,
                    parent_handle,
                    attachment_slot as int,
                    child,
                ) && final(parts_affected)@ == with_affected(old(parts_affected)@, child),
                None => final(self)@.objects == old(self)@.objects && final(parts_affected)@ == old(
                    parts_affected,
                )@,
            },
    {
        let child = match self.get_part(parent_handle) {
            Some(parent) => match parent.attachments()[attachment_slot] {
                Some(attachment) => attachment.part,
                None => {
                    return None;
                },
            },
            None => {
                return None;
            },
        };
        match self.get_part_mut(parent_handle) {
            Some(parent) => {
                parent.detach_part_player_agnostic(attachment_slot);
            },
            None => {},
        }
        match self.get_part_mut(child) {
            Some(part) => {
                part.remove_from();
            },
            None => {},
        }
        note_affected(parts_affected, child);
        Some(child)
    }

    /// Empties every slot of `parent_handle`: `recursive_detach_one` of each slot, by slot.
    pub fn recursive_detach_all(&mut self, parent_handle: Handle, parts_affected: &mut Vec<Handle>)
        ensures
            old(self).wf() ==> final(self).wf(),
            final(self)@ == (WorldView { objects: final(self)@.objects, ..old(self)@ }),
            is_part(old(self)@.objects, parent_handle) ==> detached_until(
                old(self)@.objects,
                final(self)@.objects,
                parent_handle,
                4,
            ) && final(parts_affected)@ == with_children(
                old(parts_affected)@,
                part_at(old(self)@.objects, parent_handle),
                4,
            ),
            !is_part(old(self)@.objects, parent_handle) ==> final(self)@.objects == old(self)@.objects
                && final(parts_affected)@ == old(parts_affected)@,
    {
        if self.get_part(parent_handle).is_none() {
            return ;
        }
        let ghost was = part_at(self@.objects, parent_handle);
        let mut slot: usize = 0;
        while slot < ATTACHMENT_SLOTS
            invariant
                slot <= ATTACHMENT_SLOTS,
                is_part(old(self)@.objects, parent_handle),
                was == part_at(old(self)@.objects, parent_handle),
                old(self).wf() ==> self.wf(),
                self@ == (WorldView { objects: self@.objects, ..old(self)@ }),
                detached_until(old(self)@.objects, self@.objects, parent_handle, slot as int),
                parts_affected@ == with_children(old(parts_affected)@, was, slot as int),
            decreases ATTACHMENT_SLOTS - slot,
        {
            let ghost before = self@.objects;
            let detached = self.recursive_detach_one(parent_handle, slot, parts_affected);
            proof {
                let after = self@.objects;
                assert(part_at(before, parent_handle).attachments[slot as int] == was.attachments[slot as int]);
                assert(detached == was.child(slot as int));
                match detached {
                    Some(child) => {
                        assert forall|other: Handle| child_until(was, slot + 1, other) <==> (child_until(
                            was,
                            slot as int,
                            other,
                        ) || other == child) by {
                            if child_until(was, slot + 1, other) {
                                let s = choose|s: int| 0 <= s < slot + 1 && #[trigger] was.child(s) == Some(other);
                                if s < slot {
                                    assert(was.child(s) == Some(other));
                                }
                            }
                            if other == child {
                                assert(was.child(slot as int) == Some(other));
                            }
                            if child_until(was, slot as int, other) {
                                let s = choose|s: int| 0 <= s < slot && #[trigger] was.child(s) == Some(other);
                                assert(was.child(s) == Some(other));
                            }
                        }
                        assert forall|s: int| 0 <= s < 4 implies #[trigger] part_at(
                            after,
                            parent_handle,
                        ).attachments[s] == if s < slot + 1 {
                            None
                        } else {
                            was.attachments[s]
                        } by {
                            assert(part_at(after, parent_handle).attachments@[s] == part_at(
                                before,
                                parent_handle,
                            ).attachments@.update(slot as int, None)[s]);
                        }
                    },
                    None => {
                        assert forall|other: Handle| child_until(was, slot + 1, other) <==> child_until(
                            was,
                            slot as int,
                            other,
                        ) by {
                            if child_until(was, slot + 1, other) {
                                let s = choose|s: int| 0 <= s < slot + 1 && #[trigger] was.child(s) == Some(other);
                                assert(s < slot);
                            }
                            if child_until(was, slot as int, other) {
                                let s = choose|s: int| 0 <= s < slot && #[trigger] was.child(s) == Some(other);
                                assert(was.child(s) == Some(other));
                            }
                        }
                    },
                }
            }
            slot += 1;
        }
    }
}

} // verus!
