use vstd::prelude::*;
use super::bodies::RigidBody;
use super::parts::Part;
use super::parts::ATTACHMENT_SLOTS;
use super::laws::lemma_slot_in_visits_until;
use super::subtrees::lemma_concat_contains;
use super::tree::acyclic;
use super::tree::is_part;
use super::tree::part_at;
use super::tree::ranked;
use super::tree::slot_visits;
use super::tree::tree_rank;
use super::tree::visits;
use super::tree::visits_fit;
use super::tree::visits_fit_until;
use super::tree::visits_until;
use super::tree::PartVisit;
use super::tree::Rank;
use super::Handle;
use super::PartVisitDetails;
use super::World;

verus! {

/// What a visitor is shown at one step of a traversal: the store, the handle
/// of the part, the part, and where the traversal stands.
pub struct PartVisitHandle<'a>(pub &'a World, pub Handle, pub &'a Part, pub PartVisitDetails);

impl<'a> PartVisitHandle<'a> {
    /// Whether this is `visit`, made in `world`.
    pub open spec fn shows(self, world: &World, visit: PartVisit) -> bool {
        &&& *self.0 == *world
        &&& self.1 == visit.handle
        &&& is_part(world@.objects, visit.handle)
        &&& *self.2 == part_at(world@.objects, visit.handle)
        &&& self.3 == visit.details
    }

    pub fn get_part(&self, handle: Handle) -> (part: Option<&Part>)
        ensures
            match part {
                Some(found) => is_part(self.0@.objects, handle) && *found == part_at(self.0@.objects, handle),
                None => !is_part(self.0@.objects, handle),
            },
    {
        self.0.get_part(handle)
    }

    pub fn get_rigid(&self, handle: Handle) -> (body: Option<&RigidBody>)
        ensures
            match body {
                Some(found) => self.0@.objects.dom().contains(handle) && self.0@.objects[handle].spec_rigid()
                    == Some(*found),
                None => !self.0@.objects.dom().contains(handle) || self.0@.objects[handle] is Uninitialized,
            },
    {
        self.0.get_rigid(handle)
    }

    pub fn handle(&self) -> (handle: Handle)
        ensures
            handle == self.1,
    {
        self.1
    }

    pub fn details(&self) -> (details: &PartVisitDetails)
        ensures
            *details == self.3,
    {
        &self.3
    }

    /// The part that is visited.
    pub fn part(&self) -> (part: &Part)
        ensures
            *part == *self.2,
    {
        self.2
    }
}

impl<'a> std::ops::Deref for PartVisitHandle<'a> {
    type Target = Part;

    fn deref(&self) -> (part: &Part)
        ensures
            *part == *self.2,
    {
        self.2
    }
}

/// Whether `func` takes each of `visits`, made in `world`.
pub open spec fn accepts<'a, O, F: FnMut(PartVisitHandle<'a>) -> O>(
    func: F,
    world: &'a World,
    visits: Seq<PartVisit>,
) -> bool {
    forall|arg: PartVisitHandle<'a>, visit: PartVisit|
        visits.contains(visit) && #[trigger] arg.shows(world, visit) ==> call_requires(func, (arg,))
}

/// A visitor that takes the visits of a traversal takes those of the traversal through each slot.
proof fn lemma_accepts_slot<'a, O, F: FnMut(PartVisitHandle<'a>) -> O>(
    func: F,
    world: &'a World,
    rank: Rank,
    parent: Handle,
    details: PartVisitDetails,
    slot: int,
)
    requires
        0 <= slot < 4,
        is_part(world@.objects, parent),
        accepts(func, world, visits(world@.objects, rank, parent, details)),
    ensures
        accepts(func, world, slot_visits(world@.objects, rank, parent, details, slot)),
{
    let first = PartVisit { handle: parent, details };
    assert forall|arg: PartVisitHandle<'a>, visit: PartVisit|
        slot_visits(world@.objects, rank, parent, details, slot).contains(visit) && #[trigger] arg.shows(
            world,
            visit,
        ) implies call_requires(func, (arg,)) by {
        lemma_slot_in_visits_until(world@.objects, rank, parent, details, 4, slot, visit);
        lemma_concat_contains(
            seq![first],
            visits_until(world@.objects, rank, parent, details, 4),
            visit,
        );
    }
}

/// Whether `func`, shown `visit` in `world`, returned `output`.
pub open spec fn returned<'a, O, F: FnMut(PartVisitHandle<'a>) -> O>(
    func: F,
    world: &'a World,
    visit: PartVisit,
    output: O,
) -> bool {
    exists|arg: PartVisitHandle<'a>| #[trigger] arg.shows(world, visit) && call_ensures(func, (arg,), output)
}

/// Whether `func` returned `output` at each of `visits`.
pub open spec fn all_returned<'a, O, F: FnMut(PartVisitHandle<'a>) -> O>(
    func: F,
    world: &'a World,
    visits: Seq<PartVisit>,
    output: O,
) -> bool {
    forall|i: int| 0 <= i < visits.len() ==> returned(func, world, #[trigger] visits[i], output)
}

/// Whether `func` returned `Some(value)` at one of `visits` and `None` at each before it.
pub open spec fn first_returned<'a, V, F: FnMut(PartVisitHandle<'a>) -> Option<V>>(
    func: F,
    world: &'a World,
    visits: Seq<PartVisit>,
    value: V,
) -> bool {
    exists|i: int|
        0 <= i < visits.len() && returned(func, world, #[trigger] visits[i], Some(value)) && all_returned(
            func,
            world,
            visits.take(i),
            None::<V>,
        )
}

proof fn lemma_all_returned_concat<'a, O, F: FnMut(PartVisitHandle<'a>) -> O>(
    func: F,
    world: &'a World,
    first: Seq<PartVisit>,
    second: Seq<PartVisit>,
    output: O,
)
    requires
        all_returned(func, world, first, output),
        all_returned(func, world, second, output),
    ensures
        all_returned(func, world, first + second, output),
{
    assert forall|i: int| 0 <= i < (first + second).len() implies returned(
        func,
        world,
        #[trigger] (first + second)[i],
        output,
    ) by {
        if i < first.len() {
            assert((first + second)[i] == first[i]);
        } else {
            assert((first + second)[i] == second[i - first.len()]);
        }
    }
}

proof fn lemma_first_returned_later<'a, V, F: FnMut(PartVisitHandle<'a>) -> Option<V>>(
    func: F,
    world: &'a World,
    first: Seq<PartVisit>,
    second: Seq<PartVisit>,
    value: V,
)
    requires
        all_returned(func, world, first, None::<V>),
        first_returned(func, world, second, value),
    ensures
        first_returned(func, world, first + second, value),
{
    let i = choose|i: int|
        0 <= i < second.len() && returned(func, world, #[trigger] second[i], Some(value)) && all_returned(
            func,
            world,
            second.take(i),
            None::<V>,
        );
    let at = first.len() + i;
    assert((first + second)[at] == second[i]);
    assert((first + second).take(at) =~= first + second.take(i));
    lemma_all_returned_concat(func, world, first, second.take(i), None::<V>);
}

proof fn lemma_first_returned_stays<'a, V, F: FnMut(PartVisitHandle<'a>) -> Option<V>>(
    func: F,
    world: &'a World,
    first: Seq<PartVisit>,
    second: Seq<PartVisit>,
    value: V,
)
    requires
        first_returned(func, world, first, value),
    ensures
        first_returned(func, world, first + second, value),
{
    let i = choose|i: int|
        0 <= i < first.len() && returned(func, world, #[trigger] first[i], Some(value)) && all_returned(
            func,
            world,
            first.take(i),
            None::<V>,
        );
    assert((first + second)[i] == first[i]);
    assert((first + second).take(i) =~= first.take(i));
}

impl World {
    /// The traversal from `part_handle`, which arrives there with `details`.
    pub open spec fn visits(&self, part_handle: Handle, details: PartVisitDetails) -> Seq<PartVisit> {
        visits(self@.objects, tree_rank(self@.objects), part_handle, details)
    }

    /// Whether every offset that the traversal from `part_handle` computes fits its type.
    pub open spec fn visits_fit(&self, part_handle: Handle, details: PartVisitDetails) -> bool {
        visits_fit(self@.objects, tree_rank(self@.objects), part_handle, details)
    }

    /// Shows `func` every visit of the traversal from `part_handle`, in order.
    pub fn recurse_part<'a, F>(&'a self, part_handle: Handle, details: PartVisitDetails, func: &mut F) where
        F: FnMut(PartVisitHandle<'a>),

        requires
            acyclic(self@.objects),
            self.visits_fit(part_handle, details),
            accepts(*old(func), self, self.visits(part_handle, details)),
        ensures
            all_returned(*old(func), self, self.visits(part_handle, details), ()),
    {
        self.walk(part_handle, details, func, Ghost(tree_rank(self@.objects)));
    }

    fn walk<'a, F>(
        &'a self,
        part_handle: Handle,
        details: PartVisitDetails,
        func: &mut F,
        Ghost(rank): Ghost<Rank>,
    ) where F: FnMut(PartVisitHandle<'a>)
        requires
            ranked(self@.objects, rank),
            visits_fit(self@.objects, rank, part_handle, details),
            accepts(*old(func), self, visits(self@.objects, rank, part_handle, details)),
        ensures
            all_returned(*old(func), self, visits(self@.objects, rank, part_handle, details), ()),
            *final(func) == *old(func),
        decreases rank(part_handle),
    {
        if let Some(part) = self.get_part(part_handle) {
            let ghost visit = PartVisit { handle: part_handle, details };
            let arg = PartVisitHandle(self, part_handle, part, details);
            assert(arg.shows(self, visit));
            assert(visits(self@.objects, rank, part_handle, details)[0] == visit);
            func(arg);
            assert(returned(*old(func), self, visit, ()));
            let attachment_dat = part.kind().attachment_locations();
            let mut i: usize = 0;
            while i < ATTACHMENT_SLOTS
                invariant
                    i <= ATTACHMENT_SLOTS,
                    ranked(self@.objects, rank),
                    is_part(self@.objects, part_handle),
                    *part == part_at(self@.objects, part_handle),
                    attachment_dat == part.kind.attachment_locations,
                    visits_fit_until(self@.objects, rank, part_handle, details, 4),
                    accepts(*func, self, visits(self@.objects, rank, part_handle, details)),
                    *func == *old(func),
                    all_returned(
                        *old(func),
                        self,
                        seq![visit] + visits_until(self@.objects, rank, part_handle, details, i as nat),
                        (),
                    ),
                decreases ATTACHMENT_SLOTS - i,
            {
                let ghost before = seq![visit] + visits_until(
                    self@.objects,
                    rank,
                    part_handle,
                    details,
                    i as nat,
                );
                let ghost through = slot_visits(self@.objects, rank, part_handle, details, i as int);
                proof {
                    lemma_fit_slots(self@.objects, rank, part_handle, details, i as int);
                    lemma_accepts_slot(*func, self, rank, part_handle, details, i as int);
                }
                match (part.attachments()[i], attachment_dat[i]) {
                    (Some(attachment), Some(point)) => {
                        assert(super::tree::is_child(self@.objects, part_handle, i as int, attachment.part));
                        let true_facing = point.facing.compute_true_facing(details.true_facing);
                        let delta = true_facing.delta_rel_part();
                        self.walk(
                            attachment.part,
                            PartVisitDetails {
                                part_rel_x: details.part_rel_x + delta.0,
                                part_rel_y: details.part_rel_y + delta.1,
                                my_facing: point.facing,
                                true_facing,
                            },
                            func,
                            Ghost(rank),
                        );
                    },
                    _ => {},
                }
                proof {
                    lemma_all_returned_concat(*old(func), self, before, through, ());
                    assert(before + through =~= seq![visit] + visits_until(
                        self@.objects,
                        rank,
                        part_handle,
                        details,
                        (i + 1) as nat,
                    ));
                }
                i += 1;
            }
        }
    }
}

impl World {
    /// Shows `func` the visits of the traversal from `part_handle`, in order,
    /// until it returns a value, and returns that value.
    pub fn recurse_part_with_return<'a, V, F>(
        &'a self,
        part_handle: Handle,
        details: PartVisitDetails,
        func: &mut F,
    ) -> (result: Option<V>) where F: FnMut(PartVisitHandle<'a>) -> Option<V>
        requires
            acyclic(self@.objects),
            self.visits_fit(part_handle, details),
            accepts(*old(func), self, self.visits(part_handle, details)),
        ensures
            match result {
                Some(value) => first_returned(*old(func), self, self.visits(part_handle, details), value),
                None => all_returned(*old(func), self, self.visits(part_handle, details), None::<V>),
            },
    {
        self.walk_with_return(part_handle, details, func, Ghost(tree_rank(self@.objects)))
    }

    fn walk_with_return<'a, V, F>(
        &'a self,
        part_handle: Handle,
        details: PartVisitDetails,
        func: &mut F,
        Ghost(rank): Ghost<Rank>,
    ) -> (result: Option<V>) where F: FnMut(PartVisitHandle<'a>) -> Option<V>
        requires
            ranked(self@.objects, rank),
            visits_fit(self@.objects, rank, part_handle, details),
            accepts(*old(func), self, visits(self@.objects, rank, part_handle, details)),
        ensures
            match result {
                Some(value) => first_returned(
                    *old(func),
                    self,
                    visits(self@.objects, rank, part_handle, details),
                    value,
                ),
                None => all_returned(
                    *old(func),
                    self,
                    visits(self@.objects, rank, part_handle, details),
                    None::<V>,
                ),
            },
            *final(func) == *old(func),
        decreases rank(part_handle),
    {
        let mut result: Option<V> = None;
        if let Some(part) = self.get_part(part_handle) {
            let ghost visit = PartVisit { handle: part_handle, details };
            let arg = PartVisitHandle(self, part_handle, part, details);
            assert(arg.shows(self, visit));
            assert(visits(self@.objects, rank, part_handle, details)[0] == visit);
            result = func(arg);
            assert(returned(*old(func), self, visit, result));
            proof {
                if result is Some {
                    assert(seq![visit][0] == visit);
                    assert(seq![visit].take(0) =~= Seq::<PartVisit>::empty());
                }
            }
            let attachment_dat = part.kind().attachment_locations();
            let mut i: usize = 0;
            while i < ATTACHMENT_SLOTS
                invariant
                    i <= ATTACHMENT_SLOTS,
                    ranked(self@.objects, rank),
                    is_part(self@.objects, part_handle),
                    *part == part_at(self@.objects, part_handle),
                    attachment_dat == part.kind.attachment_locations,
                    visits_fit_until(self@.objects, rank, part_handle, details, 4),
                    accepts(*func, self, visits(self@.objects, rank, part_handle, details)),
                    *func == *old(func),
                    visit == (PartVisit { handle: part_handle, details }),
                    match result {
                        Some(value) => first_returned(
                            *old(func),
                            self,
                            seq![visit] + visits_until(self@.objects, rank, part_handle, details, i as nat),
                            value,
                        ),
                        None => all_returned(
                            *old(func),
                            self,
                            seq![visit] + visits_until(self@.objects, rank, part_handle, details, i as nat),
                            None::<V>,
                        ),
                    },
                decreases ATTACHMENT_SLOTS - i,
            {
                let ghost before = seq![visit] + visits_until(
                    self@.objects,
                    rank,
                    part_handle,
                    details,
                    i as nat,
                );
                let ghost through = slot_visits(self@.objects, rank, part_handle, details, i as int);
                proof {
                    lemma_fit_slots(self@.objects, rank, part_handle, details, i as int);
                    lemma_accepts_slot(*func, self, rank, part_handle, details, i as int);
                    assert(before + through =~= seq![visit] + visits_until(
                        self@.objects,
                        rank,
                        part_handle,
                        details,
                        (i + 1) as nat,
                    ));
                }
                if result.is_none() {
                    match (part.attachments()[i], attachment_dat[i]) {
                        (Some(attachment), Some(point)) => {
                            assert(super::tree::is_child(self@.objects, part_handle, i as int, attachment.part));
                            let true_facing = point.facing.compute_true_facing(details.true_facing);
                            let delta = true_facing.delta_rel_part();
                            result = self.walk_with_return(
                                attachment.part,
                                PartVisitDetails {
                                    part_rel_x: details.part_rel_x + delta.0,
                                    part_rel_y: details.part_rel_y + delta.1,
                                    my_facing: point.facing,
                                    true_facing,
                                },
                                func,
                                Ghost(rank),
                            );
                        },
                        _ => {},
                    }
                    proof {
                        if result is Some {
                            lemma_first_returned_later(*old(func), self, before, through, result->0);
                        } else {
                            lemma_all_returned_concat(*old(func), self, before, through, None::<V>);
                        }
                    }
                } else {
                    proof {
                        lemma_first_returned_stays(*old(func), self, before, through, result->0);
                    }
                }
                i += 1;
            }
        }
        result
    }
}

/// What `visits_fit_until` says of one of the first four slots.
pub(crate) proof fn lemma_fit_slots(
    objects: super::tree::Objects,
    rank: Rank,
    parent: Handle,
    details: PartVisitDetails,
    slot: int,
)
    requires
        0 <= slot < 4,
        visits_fit_until(objects, rank, parent, details, 4),
    ensures
        super::tree::slot_visits_fit(objects, rank, parent, details, slot),
{
    reveal_with_fuel(visits_fit_until, 5);
}

} // verus!
