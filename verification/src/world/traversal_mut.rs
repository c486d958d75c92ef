use vstd::prelude::*;
use super::bodies::RigidBody;
use super::parts::Part;
use super::parts::ATTACHMENT_SLOTS;
use super::tree::entered;
use super::tree::is_child;
use super::tree::is_part;
use super::tree::part_at;
use super::tree::ranked;
use super::tree::slot_visits;
use super::tree::visits;
use super::tree::visits_until;
use super::tree::Objects;
use super::tree::PartVisit;
use super::tree::Rank;
use super::Handle;
use super::PartVisitDetails;
use super::World;
use super::WorldView;
use super::WorldlyObject;

verus! {

/// What a visitor that may change the store is given at one step of a
/// traversal: the store, the handle of the part, and where the traversal stands.
pub struct PartVisitHandleMut<'a>(pub &'a mut World, pub Handle, pub PartVisitDetails);

impl<'a> PartVisitHandleMut<'a> {
    /// The store as it stands.
    pub open spec fn world(&self) -> World {
        *self.0
    }

    pub fn get_part(&self, handle: Handle) -> (part: Option<&Part>)
        ensures
            match part {
                Some(found) => is_part(self.world()@.objects, handle) && *found == part_at(
                    self.world()@.objects,
                    handle,
                ),
                None => !is_part(self.world()@.objects, handle),
            },
    {
        self.0.get_part(handle)
    }

    pub fn get_rigid(&self, handle: Handle) -> (body: Option<&RigidBody>)
        ensures
            match body {
                Some(found) => self.world()@.objects.dom().contains(handle)
                    && self.world()@.objects[handle].spec_rigid() == Some(*found),
                None => !self.world()@.objects.dom().contains(handle)
                    || self.world()@.objects[handle] is Uninitialized,
            },
    {
        self.0.get_rigid(handle)
    }

    pub fn get_part_mut(&mut self, handle: Handle) -> (part: Option<&mut Part>)
        ensures
            final(self).1 == old(self).1,
            final(self).2 == old(self).2,
            *final(final(self).0) == *final(old(self).0),
            old(self).world().wf() ==> final(self).world().wf(),
            match part {
                Some(found) => is_part(old(self).world()@.objects, handle) && *found == part_at(
                    old(self).world()@.objects,
                    handle,
                ) && final(self).world()@ == (WorldView {
                    objects: old(self).world()@.objects.insert(handle, WorldlyObject::Part(*final(found))),
                    ..old(self).world()@
                }),
                None => !is_part(old(self).world()@.objects, handle) && final(self).world()@ == old(
                    self,
                ).world()@,
            },
    {
        self.0.get_part_mut(handle)
    }

    pub fn get_rigid_mut(&mut self, handle: Handle) -> (body: Option<&mut RigidBody>)
        ensures
            final(self).1 == old(self).1,
            final(self).2 == old(self).2,
            *final(final(self).0) == *final(old(self).0),
            old(self).world().wf() ==> final(self).world().wf(),
            match body {
                Some(found) => old(self).world()@.objects.dom().contains(handle) && old(
                    self,
                ).world()@.objects[handle].spec_rigid() == Some(*found) && final(self).world()@
                    == (WorldView {
                    objects: old(self).world()@.objects.insert(
                        handle,
                        old(self).world()@.objects[handle].with_rigid(*final(found)),
                    ),
                    ..old(self).world()@
                }),
                None => (!old(self).world()@.objects.dom().contains(handle) || old(
                    self,
                ).world()@.objects[handle] is Uninitialized) && final(self).world()@ == old(
                    self,
                ).world()@,
            },
    {
        self.0.get_rigid_mut(handle)
    }

    pub fn handle(&self) -> (handle: Handle)
        ensures
            handle == self.1,
    {
        self.1
    }

    pub fn details(&self) -> (details: &PartVisitDetails)
        ensures
            *details == self.2,
    {
        &self.2
    }

    /// The part that is visited, while it is live.
    pub fn part(&self) -> (part: &Part)
        requires
            is_part(self.world()@.objects, self.1),
        ensures
            *part == part_at(self.world()@.objects, self.1),
    {
        self.0.get_part(self.1).unwrap()
    }

    /// The part that is visited, while it is live, to be changed.
    pub fn part_mut(&mut self) -> (part: &mut Part)
        requires
            is_part(old(self).world()@.objects, old(self).1),
        ensures
            final(self).1 == old(self).1,
            final(self).2 == old(self).2,
            *final(final(self).0) == *final(old(self).0),
            old(self).world().wf() ==> final(self).world().wf(),
            *part == part_at(old(self).world()@.objects, old(self).1),
            final(self).world()@ == (WorldView {
                objects: old(self).world()@.objects.insert(old(self).1, WorldlyObject::Part(*final(part))),
                ..old(self).world()@
            }),
    {
        self.0.get_part_mut(self.1).unwrap()
    }
}

/// The visits that a traversal owes after `visit`, should the part be as
/// `objects` has it: one for each slot from `from` on that holds a child and
/// has known geometry, the highest slot first.
pub open spec fn children_from(objects: Objects, visit: PartVisit, from: nat) -> Seq<PartVisit>
    decreases 4 - from,
{
    if from >= 4 {
        Seq::empty()
    } else {
        children_from(objects, visit, from + 1) + match entered(objects, visit.handle, from as int) {
            Some((child, facing)) => seq![PartVisit { handle: child, details: visit.details.step(facing) }],
            None => Seq::empty(),
        }
    }
}

/// Whether the offsets of the visits that a traversal owes after `visit` fit their type.
pub open spec fn children_fit(objects: Objects, visit: PartVisit) -> bool {
    forall|slot: int|
        0 <= slot < 4 ==> match #[trigger] entered(objects, visit.handle, slot) {
            Some((_, facing)) => visit.details.can_step(facing),
            None => true,
        }
}

/// `pending` without the visits at its end whose part is not live.
pub open spec fn settled(objects: Objects, pending: Seq<PartVisit>) -> Seq<PartVisit>
    decreases pending.len(),
{
    if pending.len() == 0 || is_part(objects, pending.last().handle) {
        pending
    } else {
        settled(objects, pending.drop_last())
    }
}

/// What a traversal owes when its caller comes back from the visit `last`:
/// what it owed before, and then the children that `last` has now.
pub open spec fn expanded(objects: Objects, pending: Seq<PartVisit>, last: Option<PartVisit>) -> Seq<
    PartVisit,
> {
    match last {
        Some(visit) => if is_part(objects, visit.handle) {
            pending + children_from(objects, visit, 0)
        } else {
            pending
        },
        None => pending,
    }
}

/// Whether a walk that owes `pending` after the visit `last` hands out
/// `visit` next in a store that holds `objects`, and then owes `rest`: the
/// visit is the last of what it owes that is due, and there is none when
/// nothing is.
pub open spec fn hands_out(
    objects: Objects,
    pending: Seq<PartVisit>,
    last: Option<PartVisit>,
    visit: Option<PartVisit>,
    rest: Seq<PartVisit>,
) -> bool {
    let due = settled(objects, expanded(objects, pending, last));
    if due.len() == 0 {
        visit is None && rest =~= due
    } else {
        visit == Some(due.last()) && rest =~= due.drop_last()
    }
}

/// Whether `offset + step` fits, for a step of one at most.
fn one_step_fits(offset: i32, step: i32) -> (ok: bool)
    requires
        -1 <= step <= 1,
    ensures
        ok == (i32::MIN <= offset + step <= i32::MAX),
{
    if step > 0 {
        offset < i32::MAX
    } else if step < 0 {
        offset > i32::MIN
    } else {
        true
    }
}

/// A traversal that hands out one visit at a time, so that its caller may
/// change the store between two visits. Each part is handed out before its
/// children, the children by slot; the children are those that the part has
/// when the caller comes back for the next visit; and a visit whose part is
/// gone by the time it is due is passed over.
pub struct PartWalk {
    pending: Vec<PartVisit>,
    last: Option<PartVisit>,
}

impl PartWalk {
    /// The visits that are owed, the next one last.
    pub closed spec fn pending(&self) -> Seq<PartVisit> {
        self.pending@
    }

    /// The visit that was handed out last, if its children are still owed.
    pub closed spec fn last(&self) -> Option<PartVisit> {
        self.last
    }

    /// Whether the walk can take its next step in a store that holds
    /// `objects`: whether the offsets of the children of its last visit, if
    /// that part is still live, fit their type.
    pub open spec fn ready(&self, objects: Objects) -> bool {
        match self.last() {
            Some(last) => is_part(objects, last.handle) ==> children_fit(objects, last),
            None => true,
        }
    }

    /// Whether the walk can take its next step in `world`.
    pub fn can_continue(&self, world: &World) -> (ok: bool)
        ensures
            ok == self.ready(world@.objects),
    {
        match self.last {
            Some(last) => match world.get_part(last.handle) {
                Some(part) => {
                    let locations = part.kind().attachment_locations();
                    let mut slot: usize = 0;
                    while slot < ATTACHMENT_SLOTS
                        invariant
                            slot <= ATTACHMENT_SLOTS,
                            is_part(world@.objects, last.handle),
                            *part == part_at(world@.objects, last.handle),
                            locations == part.kind.attachment_locations,
                            self.last == Some(last),
                            forall|earlier: int|
                                0 <= earlier < slot ==> match #[trigger] entered(
                                    world@.objects,
                                    last.handle,
                                    earlier,
                                ) {
                                    Some((_, facing)) => last.details.can_step(facing),
                                    None => true,
                                },
                        decreases ATTACHMENT_SLOTS - slot,
                    {
                        match (part.attachments()[slot], locations[slot]) {
                            (Some(attachment), Some(point)) => {
                                assert(entered(world@.objects, last.handle, slot as int) == Some(
                                    (attachment.part, point.facing),
                                ));
                                let delta = point.facing.compute_true_facing(
                                    last.details.true_facing,
                                ).delta_rel_part();
                                if !(one_step_fits(last.details.part_rel_x, delta.0) && one_step_fits(
                                    last.details.part_rel_y,
                                    delta.1,
                                )) {
                                    assert(!last.details.can_step(point.facing));
                                    return false;
                                }
                            },
                            _ => {
                                assert(entered(world@.objects, last.handle, slot as int) is None);
                            },
                        }
                        slot += 1;
                    }
                    true
                },
                None => true,
            },
            None => true,
        }
    }

    /// The next visit of the traversal in `world`, or `None` when it is over.
    pub fn next(&mut self, world: &World) -> (visit: Option<PartVisit>)
        requires
            old(self).ready(world@.objects),
        ensures
            hands_out(world@.objects, old(self).pending(), old(self).last(), visit, final(self).pending()),
            final(self).last() == visit,
    {
        let ghost owed = expanded(world@.objects, self.pending@, self.last);
        if let Some(last) = self.last {
            if let Some(part) = world.get_part(last.handle) {
                let locations = part.kind().attachment_locations();
                let mut slot: usize = ATTACHMENT_SLOTS;
                while slot > 0
                    invariant
                        slot <= ATTACHMENT_SLOTS,
                        is_part(world@.objects, last.handle),
                        *part == part_at(world@.objects, last.handle),
                        locations == part.kind.attachment_locations,
                        children_fit(world@.objects, last),
                        self.last == Some(last),
                        self.pending@ == old(self).pending@ + children_from(world@.objects, last, slot as nat),
                    decreases slot,
                {
                    slot -= 1;
                    match (part.attachments()[slot], locations[slot]) {
                        (Some(attachment), Some(point)) => {
                            assert(entered(world@.objects, last.handle, slot as int) == Some(
                                (attachment.part, point.facing),
                            ));
                            let true_facing = point.facing.compute_true_facing(last.details.true_facing);
                            let delta = true_facing.delta_rel_part();
                            self.pending.push(
                                PartVisit {
                                    handle: attachment.part,
                                    details: PartVisitDetails {
                                        part_rel_x: last.details.part_rel_x + delta.0,
                                        part_rel_y: last.details.part_rel_y + delta.1,
                                        my_facing: point.facing,
                                        true_facing,
                                    },
                                },
                            );
                        },
                        _ => {
                            assert(entered(world@.objects, last.handle, slot as int) is None);
                        },
                    }
                    assert(self.pending@ =~= old(self).pending@ + children_from(
                        world@.objects,
                        last,
                        slot as nat,
                    ));
                }
            }
        }
        self.last = None;
        assert(self.pending@ == owed);
        while self.pending.len() > 0
            invariant
                self.last is None,
                owed == expanded(world@.objects, old(self).pending(), old(self).last()),
                settled(world@.objects, self.pending@) == settled(world@.objects, owed),
            decreases self.pending.len(),
        {
            let ghost before = self.pending@;
            let top = self.pending.pop().unwrap();
            assert(self.pending@ == before.drop_last());
            if world.get_part(top.handle).is_some() {
                self.last = Some(top);
                assert(settled(world@.objects, before) == before);
                return Some(top);
            }
            assert(settled(world@.objects, before) == settled(world@.objects, before.drop_last()));
        }
        None
    }
}

/// The traversals that the visits `pending` stand for, one after the other, the last of `pending` first.
pub open spec fn pending_visits(objects: Objects, rank: Rank, pending: Seq<PartVisit>) -> Seq<PartVisit>
    decreases pending.len(),
{
    if pending.len() == 0 {
        Seq::empty()
    } else {
        visits(objects, rank, pending.last().handle, pending.last().details) + pending_visits(
            objects,
            rank,
            pending.drop_last(),
        )
    }
}

/// What a walk that owes `pending` after the visit `last` hands out from now
/// on, if the store stays as it is.
pub open spec fn walk_rest(objects: Objects, rank: Rank, pending: Seq<PartVisit>, last: Option<PartVisit>) -> Seq<
    PartVisit,
> {
    (match last {
        Some(visit) => if is_part(objects, visit.handle) {
            visits_until(objects, rank, visit.handle, visit.details, 4)
        } else {
            Seq::empty()
        },
        None => Seq::empty(),
    }) + pending_visits(objects, rank, pending)
}

proof fn lemma_pending_single(objects: Objects, rank: Rank, visit: PartVisit)
    ensures
        pending_visits(objects, rank, seq![visit]) == visits(objects, rank, visit.handle, visit.details),
{
    let single = seq![visit];
    assert(single.len() == 1);
    assert(single.last() == visit);
    assert(single.drop_last().len() == 0);
    assert(pending_visits(objects, rank, single.drop_last()) =~= Seq::<PartVisit>::empty());
    assert(pending_visits(objects, rank, single) =~= visits(objects, rank, visit.handle, visit.details)
        + pending_visits(objects, rank, single.drop_last()));
}

proof fn lemma_pending_concat(objects: Objects, rank: Rank, under: Seq<PartVisit>, over: Seq<PartVisit>)
    ensures
        pending_visits(objects, rank, under + over) == pending_visits(objects, rank, over) + pending_visits(
            objects,
            rank,
            under,
        ),
    decreases over.len(),
{
    if over.len() == 0 {
        assert(under + over =~= under);
        assert(pending_visits(objects, rank, over) + pending_visits(objects, rank, under) =~= pending_visits(
            objects,
            rank,
            under,
        ));
    } else {
        assert((under + over).drop_last() =~= under + over.drop_last());
        assert((under + over).last() == over.last());
        lemma_pending_concat(objects, rank, under, over.drop_last());
        let top = visits(objects, rank, over.last().handle, over.last().details);
        assert(top + (pending_visits(objects, rank, over.drop_last()) + pending_visits(objects, rank, under))
            =~= (top + pending_visits(objects, rank, over.drop_last())) + pending_visits(
            objects,
            rank,
            under,
        ));
    }
}

proof fn lemma_pending_children(objects: Objects, rank: Rank, visit: PartVisit, from: nat)
    requires
        ranked(objects, rank),
        is_part(objects, visit.handle),
        from <= 4,
    ensures
        visits_until(objects, rank, visit.handle, visit.details, from) + pending_visits(
            objects,
            rank,
            children_from(objects, visit, from),
        ) == visits_until(objects, rank, visit.handle, visit.details, 4),
    decreases 4 - from,
{
    let before = visits_until(objects, rank, visit.handle, visit.details, from);
    if from >= 4 {
        assert(before + Seq::<PartVisit>::empty() =~= before);
    } else {
        let above = children_from(objects, visit, from + 1);
        let through = slot_visits(objects, rank, visit.handle, visit.details, from as int);
        let here = match entered(objects, visit.handle, from as int) {
            Some((child, facing)) => seq![PartVisit { handle: child, details: visit.details.step(facing) }],
            None => Seq::empty(),
        };
        lemma_pending_concat(objects, rank, above, here);
        assert(pending_visits(objects, rank, here) =~= through) by {
            match entered(objects, visit.handle, from as int) {
                Some((child, facing)) => {
                    assert(is_child(objects, visit.handle, from as int, child));
                    lemma_pending_single(
                        objects,
                        rank,
                        PartVisit { handle: child, details: visit.details.step(facing) },
                    );
                },
                None => {},
            }
        }
        lemma_pending_children(objects, rank, visit, from + 1);
        assert(before + (through + pending_visits(objects, rank, above)) =~= (before + through)
            + pending_visits(objects, rank, above));
    }
}

proof fn lemma_pending_settled(objects: Objects, rank: Rank, pending: Seq<PartVisit>)
    ensures
        pending_visits(objects, rank, settled(objects, pending)) == pending_visits(objects, rank, pending),
        settled(objects, pending).len() > 0 ==> is_part(objects, settled(objects, pending).last().handle),
    decreases pending.len(),
{
    if pending.len() > 0 && !is_part(objects, pending.last().handle) {
        lemma_pending_settled(objects, rank, pending.drop_last());
        assert(Seq::<PartVisit>::empty() + pending_visits(objects, rank, pending.drop_last())
            =~= pending_visits(objects, rank, pending.drop_last()));
    }
}

/// In a store that stays as it is and in which no part is its own
/// descendant, a walk hands out the traversal: it begins owing the traversal
/// from its root, and each `next` hands out the first visit of what the walk
/// owes and leaves it owing the rest.
pub proof fn lemma_walk_is_traversal(
    objects: Objects,
    rank: Rank,
    pending: Seq<PartVisit>,
    last: Option<PartVisit>,
    root: PartVisit,
)
    requires
        ranked(objects, rank),
    ensures
        walk_rest(objects, rank, seq![root], None) == visits(objects, rank, root.handle, root.details),
        ({
            let due = settled(objects, expanded(objects, pending, last));
            walk_rest(objects, rank, pending, last) == if due.len() == 0 {
                Seq::empty()
            } else {
                seq![due.last()] + walk_rest(objects, rank, due.drop_last(), Some(due.last()))
            }
        }),
{
    assert(walk_rest(objects, rank, seq![root], None) =~= visits(objects, rank, root.handle, root.details)) by {
        lemma_pending_single(objects, rank, root);
    }
    let owed = expanded(objects, pending, last);
    let due = settled(objects, owed);
    assert(pending_visits(objects, rank, owed) =~= walk_rest(objects, rank, pending, last)) by {
        match last {
            Some(visit) => {
                if is_part(objects, visit.handle) {
                    lemma_pending_concat(objects, rank, pending, children_from(objects, visit, 0));
                    lemma_pending_children(objects, rank, visit, 0);
                    assert(visits_until(objects, rank, visit.handle, visit.details, 0) + pending_visits(
                        objects,
                        rank,
                        children_from(objects, visit, 0),
                    ) =~= pending_visits(objects, rank, children_from(objects, visit, 0)));
                }
            },
            None => {},
        }
    }
    lemma_pending_settled(objects, rank, owed);
    if due.len() > 0 {
        let top = due.last();
        assert(seq![top] + (visits_until(objects, rank, top.handle, top.details, 4) + pending_visits(
            objects,
            rank,
            due.drop_last(),
        )) =~= (seq![top] + visits_until(objects, rank, top.handle, top.details, 4)) + pending_visits(
            objects,
            rank,
            due.drop_last(),
        ));
    }
}

impl PartWalk {
    /// As `next`, for a caller that stops at the first value that its visitor
    /// finds: once `found` holds a value the walk is over, and is left as it is.
    pub fn next_after<V>(&mut self, world: &World, found: &Option<V>) -> (visit: Option<PartVisit>)
        requires
            found is None ==> old(self).ready(world@.objects),
        ensures
            found is Some ==> visit is None && final(self).pending() == old(self).pending(),
            found is Some ==> final(self).last() == old(self).last(),
            found is None ==> hands_out(
                world@.objects,
                old(self).pending(),
                old(self).last(),
                visit,
                final(self).pending(),
            ) && final(self).last() == visit,
    {
        if found.is_some() {
            None
        } else {
            self.next(world)
        }
    }
}

impl World {
    /// A traversal from `part_handle`, which arrives there with `details`,
    /// for a caller that changes the store as it goes.
    pub fn recurse_part_mut(&self, part_handle: Handle, details: PartVisitDetails) -> (walk: PartWalk)
        ensures
            walk.pending() == seq![PartVisit { handle: part_handle, details }],
            walk.last() is None,
    {
        let mut pending = Vec::new();
        pending.push(PartVisit { handle: part_handle, details });
        PartWalk { pending, last: None }
    }
}

} // verus!
