use vstd::prelude::*;
use super::detach::child_until;
use super::detach::detached_one;
use super::detach::detached_until;
use super::detach::with_children;
use super::parts::AttachedPartFacing;
use super::parts::Part;
use super::subtrees::lemma_concat_contains;
use super::subtrees::lemma_pruned_trees;
use super::subtrees::lemma_subtree_closed;
use super::subtrees::lemma_subtree_root;
use super::tree::subtree;
use super::tree::acyclic;
use super::tree::entered;
use super::tree::is_child;
use super::tree::is_part;
use super::tree::no_dangling;
use super::tree::part_at;
use super::tree::ranked;
use super::tree::single_parent;
use super::tree::slot_visits;
use super::tree::tree_rank;
use super::tree::tree_wf;
use super::tree::visits;
use super::tree::visits_until;
use super::tree::Objects;
use super::tree::PartVisit;
use super::tree::Rank;
use super::Handle;
use super::PartVisitDetails;
use super::WorldView;
use super::WorldlyObject;

verus! {

/// A handle whose object is removed is stale at once.
pub proof fn lemma_removed_is_stale(before: WorldView, after: WorldView, removed: Handle)
    requires
        before.wf(),
        before.objects.dom().contains(removed),
        after.objects == before.objects.remove(removed),
        after.generation == before.generation + 1,
    ensures
        after.stale(removed),
{
}

/// A stale handle names nothing, and stays stale when an object is
/// inserted, also into the slot it named: the handle that the insertion
/// issues is another one.
pub proof fn lemma_stale_after_insert(
    before: WorldView,
    after: WorldView,
    stale: Handle,
    issued: Handle,
    object: WorldlyObject,
)
    requires
        before.stale(stale),
        issued.generation == before.generation,
        after.objects == before.objects.insert(issued, object),
        after.generation == before.generation,
    ensures
        issued != stale,
        after.stale(stale),
        !after.objects.dom().contains(stale),
{
}

/// A stale handle stays stale when an object is removed.
pub proof fn lemma_stale_after_remove(before: WorldView, after: WorldView, stale: Handle, removed: Handle)
    requires
        before.stale(stale),
        after.objects == before.objects.remove(removed),
        after.generation == before.generation + 1,
    ensures
        after.stale(stale),
{
}

/// Where no part sits in two slots, the children in the first slots of a
/// part are as many as the occupied ones among those slots, and adding them
/// to an empty list names each once.
pub proof fn lemma_children_counted(objects: Objects, parent: Handle, until: int)
    requires
        single_parent(objects),
        is_part(objects, parent),
        0 <= until <= 4,
    ensures
        ({
            let part = part_at(objects, parent);
            let affected = with_children(Seq::<Handle>::empty(), part, until);
            &&& affected.len() == part.occupied_slots(until)
            &&& affected.no_duplicates()
            &&& forall|child: Handle| affected.contains(child) <==> child_until(part, until, child)
        }),
    decreases until,
{
    let part = part_at(objects, parent);
    if until > 0 {
        lemma_children_counted(objects, parent, until - 1);
        let before = with_children(Seq::<Handle>::empty(), part, until - 1);
        let affected = with_children(Seq::<Handle>::empty(), part, until);
        match part.child(until - 1) {
            Some(child) => {
                assert(is_child(objects, parent, until - 1, child));
                if before.contains(child) {
                    let slot = choose|slot: int| 0 <= slot < until - 1 && #[trigger] part.child(slot) == Some(child);
                    assert(is_child(objects, parent, slot, child));
                }
                assert(affected == before.push(child));
                assert forall|other: Handle| affected.contains(other) <==> child_until(
                    part,
                    until,
                    other,
                ) by {
                    lemma_concat_contains(before, seq![child], other);
                    assert(before.push(child) =~= before + seq![child]);
                    if other == child {
                        assert(seq![child][0] == child);
                        assert(part.child(until - 1) == Some(other));
                    }
                    if child_until(part, until, other) {
                        let slot = choose|slot: int| 0 <= slot < until && #[trigger] part.child(slot) == Some(other);
                        if slot < until - 1 {
                            assert(child_until(part, until - 1, other));
                        }
                    }
                    if before.contains(other) {
                        let slot = choose|slot: int|
                            0 <= slot < until - 1 && #[trigger] part.child(slot) == Some(other);
                        assert(part.child(slot) == Some(other));
                    }
                    if seq![child].contains(other) {
                        assert(other == child);
                    }
                }
            },
            None => {
                assert forall|other: Handle| child_until(part, until, other) implies child_until(
                    part,
                    until - 1,
                    other,
                ) by {
                    let slot = choose|slot: int| 0 <= slot < until && #[trigger] part.child(slot) == Some(other);
                    assert(slot < until - 1);
                }
                assert forall|other: Handle| child_until(part, until - 1, other) implies child_until(
                    part,
                    until,
                    other,
                ) by {
                    let slot = choose|slot: int|
                        0 <= slot < until - 1 && #[trigger] part.child(slot) == Some(other);
                    assert(part.child(slot) == Some(other));
                }
            },
        }
    } else {
        assert forall|child: Handle| !child_until(part, until, child) by {}
    }
}

/// Where the parts form trees, emptying every slot of a part with `k`
/// occupied slots leaves the part with no occupied slot and adds `k` handles
/// to an empty list of affected parts, each of them a live part after as
/// before; and the parts still form trees.
pub proof fn lemma_detach_all(before: Objects, after: Objects, parent: Handle)
    requires
        tree_wf(before),
        is_part(before, parent),
        detached_until(before, after, parent, 4),
    ensures
        part_at(after, parent).occupied_slots(4) == 0,
        with_children(Seq::<Handle>::empty(), part_at(before, parent), 4).len() == part_at(
            before,
            parent,
        ).occupied_slots(4),
        with_children(Seq::<Handle>::empty(), part_at(before, parent), 4).no_duplicates(),
        forall|child: Handle|
            with_children(Seq::<Handle>::empty(), part_at(before, parent), 4).contains(child) ==> is_part(
                before,
                child,
            ) && is_part(after, child),
        tree_wf(after),
{
    let was = part_at(before, parent);
    let now = part_at(after, parent);
    lemma_children_counted(before, parent, 4);
    assert(now.occupied_slots(4) == 0) by {
        reveal_with_fuel(Part::occupied_slots, 5);
        assert(now.attachments[0] is None);
        assert(now.attachments[1] is None);
        assert(now.attachments[2] is None);
        assert(now.attachments[3] is None);
    }
    assert forall|other: Handle| before.dom().contains(other) implies (is_part(after, other) <==> is_part(
        before,
        other,
    )) && (is_part(before, other) && other != parent ==> part_at(after, other).attachments == part_at(
        before,
        other,
    ).attachments) by {
        if other != parent {
            assert(after[other] == before[other] || after[other] == super::detach::disowned(before[other]));
        }
    }
    assert forall|child: Handle|
        with_children(Seq::<Handle>::empty(), was, 4).contains(child) implies is_part(before, child)
        && is_part(after, child) by {
        let slot = choose|slot: int| 0 <= slot < 4 && #[trigger] was.child(slot) == Some(child);
        assert(is_child(before, parent, slot, child));
        assert(is_part(before, child));
    }
    assert forall|p: Handle, s: int, c: Handle| #[trigger] is_child(after, p, s, c) implies is_child(
        before,
        p,
        s,
        c,
    ) && is_part(after, c) by {
        if p == parent {
            assert(now.attachments[s] is None);
        } else {
            assert(before.dom().contains(p));
        }
        assert(is_child(before, p, s, c));
        assert(is_part(before, c));
    }
    lemma_pruned_trees(before, after);
}

/// Where the parts form trees, they still do when one slot is emptied, and
/// the part that sat there is a live part after as before.
pub proof fn lemma_detach_one(before: Objects, after: Objects, parent: Handle, slot: int, child: Handle)
    requires
        tree_wf(before),
        is_child(before, parent, slot, child),
        detached_one(before, after, parent, slot, child),
    ensures
        tree_wf(after),
        is_part(after, child),
        part_at(after, parent).child(slot) is None,
{
    assert(is_part(before, child));
    assert(child != parent);
    assert forall|other: Handle| before.dom().contains(other) implies (is_part(after, other) <==> is_part(
        before,
        other,
    )) && (is_part(before, other) && other != parent ==> part_at(after, other).attachments == part_at(
        before,
        other,
    ).attachments) by {
        if other != parent {
            assert(after[other] == before[other] || after[other] == super::detach::disowned(before[other]));
        }
    }
    assert forall|p: Handle, s: int, c: Handle| #[trigger] is_child(after, p, s, c) implies is_child(
        before,
        p,
        s,
        c,
    ) && is_part(after, c) by {
        if p == parent {
            assert(part_at(after, parent).attachments@[s] == part_at(before, parent).attachments@.update(
                slot,
                None,
            )[s]);
        } else {
            assert(before.dom().contains(p));
        }
        assert(is_child(before, p, s, c));
        assert(is_part(before, c));
    }
    lemma_pruned_trees(before, after);
    assert(part_at(after, parent).attachments@[slot] == part_at(before, parent).attachments@.update(
        slot,
        None,
    )[slot]);
}

/// Whether the objects went from `before` to `after` by putting `child` into
/// slot `slot` of the part `parent`: nothing else differs.
pub open spec fn attached_one(before: Objects, after: Objects, parent: Handle, slot: int, child: Handle) -> bool {
    let was = part_at(before, parent);
    let now = part_at(after, parent);
    &&& after.dom() =~= before.dom()
    &&& is_part(before, parent)
    &&& is_part(after, parent)
    &&& 0 <= slot < 4
    &&& now.body == was.body
    &&& now.kind == was.kind
    &&& now.part_of_player == was.part_of_player
    &&& now.child(slot) == Some(child)
    &&& forall|other: int| 0 <= other < 4 && other != slot ==> #[trigger] now.attachments[other] == was.attachments[other]
    &&& forall|other: Handle|
        before.dom().contains(other) && other != parent ==> #[trigger] after[other] == before[other]
}

/// Parts without anything attached form trees, and so do the parts of a store without parts.
pub proof fn lemma_loose_parts_are_trees(objects: Objects)
    requires
        forall|handle: Handle, slot: int|
            is_part(objects, handle) && 0 <= slot < 4 ==> #[trigger] part_at(objects, handle).child(slot) is None,
    ensures
        tree_wf(objects),
{
    let rank: Rank = |handle: Handle| 0nat;
    assert forall|parent: Handle, slot: int, child: Handle| !is_child(objects, parent, slot, child) by {
        if is_part(objects, parent) && 0 <= slot < 4 {
            assert(part_at(objects, parent).child(slot) is None);
        }
    }
    assert(ranked(objects, rank));
}

/// Where the parts form trees, they still do when an object is stored under
/// a new handle, if nothing is attached to it.
pub proof fn lemma_insert_keeps_trees(before: Objects, handle: Handle, object: WorldlyObject)
    requires
        tree_wf(before),
        !before.dom().contains(handle),
        object matches WorldlyObject::Part(part) ==> forall|slot: int|
            0 <= slot < 4 ==> #[trigger] part.child(slot) is None,
    ensures
        tree_wf(before.insert(handle, object)),
{
    let after = before.insert(handle, object);
    assert forall|p: Handle, s: int, c: Handle| #[trigger] is_child(after, p, s, c) implies is_child(
        before,
        p,
        s,
        c,
    ) && is_part(after, c) by {
        if p == handle {
            assert(part_at(after, p).child(s) is None);
        }
        assert(is_child(before, p, s, c));
        assert(is_part(before, c));
    }
    lemma_pruned_trees(before, after);
}

/// Where the parts form trees, they still do when a live part that sits in
/// no slot is put into a slot of a part that is not the part itself nor
/// anything that hangs on it.
pub proof fn lemma_attach_keeps_trees(before: Objects, after: Objects, parent: Handle, slot: int, child: Handle)
    requires
        tree_wf(before),
        attached_one(before, after, parent, slot, child),
        is_part(before, child),
        forall|p: Handle, s: int| !is_child(before, p, s, child),
        !subtree(before, tree_rank(before), child).contains(parent),
    ensures
        tree_wf(after),
{
    let rank = tree_rank(before);
    let below = subtree(before, rank, child);
    let lift = rank(child) + 1;
    let lifted: Rank = |handle: Handle|
        if below.contains(handle) {
            rank(handle)
        } else {
            (rank(handle) + lift) as nat
        };
    lemma_subtree_root(before, rank, child);
    assert(child != parent);
    assert forall|p: Handle, s: int, c: Handle| #[trigger] is_child(after, p, s, c) implies (p == parent && s
        == slot && c == child) || is_child(before, p, s, c) by {
        if p == parent {
            if s != slot {
                assert(part_at(after, parent).attachments[s] == part_at(before, parent).attachments[s]);
            }
        } else {
            assert(before.dom().contains(p));
        }
    }
    assert(ranked(after, lifted)) by {
        assert forall|p: Handle, s: int, c: Handle| #[trigger] is_child(after, p, s, c) implies lifted(c)
            < lifted(p) by {
            if is_child(before, p, s, c) {
                if below.contains(p) {
                    lemma_subtree_closed(before, rank, child, p, s, c);
                }
            }
        }
    }
    assert(no_dangling(after)) by {
        assert forall|p: Handle, s: int, c: Handle| #[trigger] is_child(after, p, s, c) implies is_part(
            after,
            c,
        ) by {
            if is_child(before, p, s, c) {
                assert(is_part(before, c));
            }
            if c != parent {
                assert(before.dom().contains(c));
            }
        }
    }
    assert(single_parent(after)) by {
        assert forall|parent1: Handle, slot1: int, parent2: Handle, slot2: int, c: Handle|
            #[trigger] is_child(after, parent1, slot1, c) && #[trigger] is_child(after, parent2, slot2, c) implies parent1 == parent2
            && slot1 == slot2 by {
            if is_child(before, parent1, slot1, c) && is_child(before, parent2, slot2, c) {
            }
        }
    }
}

/// What the traversals through the first slots hold, the traversal through one of those slots holds.
pub proof fn lemma_in_visits_until(
    objects: Objects,
    rank: Rank,
    parent: Handle,
    details: PartVisitDetails,
    until: nat,
    visit: PartVisit,
)
    requires
        visits_until(objects, rank, parent, details, until).contains(visit),
    ensures
        exists|slot: int|
            0 <= slot < until && #[trigger] slot_visits(objects, rank, parent, details, slot).contains(visit),
    decreases until,
{
    if until > 0 {
        let before = visits_until(objects, rank, parent, details, (until - 1) as nat);
        let through = slot_visits(objects, rank, parent, details, until - 1);
        lemma_concat_contains(before, through, visit);
        if before.contains(visit) {
            lemma_in_visits_until(objects, rank, parent, details, (until - 1) as nat, visit);
            let slot = choose|slot: int|
                0 <= slot < until - 1 && #[trigger] slot_visits(objects, rank, parent, details, slot).contains(
                    visit,
                );
            assert(slot_visits(objects, rank, parent, details, slot).contains(visit));
        } else {
            assert(slot_visits(objects, rank, parent, details, until - 1).contains(visit));
        }
    }
}

/// What the traversal through a slot holds, the traversals through the slots up to a later one hold.
pub proof fn lemma_slot_in_visits_until(
    objects: Objects,
    rank: Rank,
    parent: Handle,
    details: PartVisitDetails,
    until: nat,
    slot: int,
    visit: PartVisit,
)
    requires
        0 <= slot < until,
        slot_visits(objects, rank, parent, details, slot).contains(visit),
    ensures
        visits_until(objects, rank, parent, details, until).contains(visit),
    decreases until,
{
    let before = visits_until(objects, rank, parent, details, (until - 1) as nat);
    let through = slot_visits(objects, rank, parent, details, until - 1);
    lemma_concat_contains(before, through, visit);
    if slot < until - 1 {
        lemma_slot_in_visits_until(objects, rank, parent, details, (until - 1) as nat, slot, visit);
    }
}

/// A traversal that visits a part also visits the live part in each of its
/// slots of known geometry, one step further.
pub proof fn lemma_visits_step(
    objects: Objects,
    rank: Rank,
    root: Handle,
    details: PartVisitDetails,
    visit: PartVisit,
    slot: int,
    child: Handle,
    facing: AttachedPartFacing,
)
    requires
        ranked(objects, rank),
        visits(objects, rank, root, details).contains(visit),
        0 <= slot < 4,
        entered(objects, visit.handle, slot) == Some((child, facing)),
        is_part(objects, child),
    ensures
        visits(objects, rank, root, details).contains(
            PartVisit { handle: child, details: visit.details.step(facing) },
        ),
    decreases rank(root),
{
    let next = PartVisit { handle: child, details: visit.details.step(facing) };
    let first = PartVisit { handle: root, details };
    let below = visits_until(objects, rank, root, details, 4);
    lemma_concat_contains(seq![first], below, visit);
    lemma_concat_contains(seq![first], below, next);
    if seq![first].contains(visit) {
        assert(visit == first);
        assert(is_child(objects, root, slot, child));
        assert(slot_visits(objects, rank, root, details, slot) == visits(
            objects,
            rank,
            child,
            details.step(facing),
        ));
        assert(visits(objects, rank, child, details.step(facing))[0] == next);
        lemma_slot_in_visits_until(objects, rank, root, details, 4, slot, next);
    } else {
        lemma_in_visits_until(objects, rank, root, details, 4, visit);
        let through = choose|through: int|
            0 <= through < 4 && #[trigger] slot_visits(objects, rank, root, details, through).contains(visit);
        let (inner, inner_facing) = entered(objects, root, through)->0;
        assert(slot_visits(objects, rank, root, details, through) == visits(
            objects,
            rank,
            inner,
            details.step(inner_facing),
        ));
        lemma_visits_step(objects, rank, inner, details.step(inner_facing), visit, slot, child, facing);
        lemma_slot_in_visits_until(objects, rank, root, details, 4, through, next);
    }
}

/// The traversal from a root, through a slot of facing `first` to a child and
/// from there through a slot of facing `second` to a grandchild, visits the
/// grandchild with `second` turned by `first` as its true facing, and with
/// the sum of the two steps as its offset.
pub proof fn lemma_chain_of_three(
    objects: Objects,
    root: Handle,
    slot1: int,
    child: Handle,
    first: AttachedPartFacing,
    slot2: int,
    grandchild: Handle,
    second: AttachedPartFacing,
)
    requires
        acyclic(objects),
        is_part(objects, root),
        is_part(objects, child),
        is_part(objects, grandchild),
        0 <= slot1 < 4,
        0 <= slot2 < 4,
        entered(objects, root, slot1) == Some((child, first)),
        entered(objects, child, slot2) == Some((grandchild, second)),
    ensures
        ({
            let base = PartVisitDetails::spec_default();
            let along = visits(objects, tree_rank(objects), root, base);
            let first_true = first.true_facing(AttachedPartFacing::Up);
            let second_true = second.true_facing(first_true);
            &&& along.contains(PartVisit { handle: child, details: base.step(first) })
            &&& along.contains(PartVisit { handle: grandchild, details: base.step(first).step(second) })
            &&& base.step(first).step(second).my_facing == second
            &&& base.step(first).step(second).true_facing == second_true
            &&& second_true.quarter_turns() == (first.quarter_turns() + second.quarter_turns()) % 4
            &&& base.step(first).step(second).part_rel_x == first_true.delta().0 + second_true.delta().0
            &&& base.step(first).step(second).part_rel_y == first_true.delta().1 + second_true.delta().1
        }),
{
    let rank = tree_rank(objects);
    let base = PartVisitDetails::spec_default();
    let top = PartVisit { handle: root, details: base };
    assert(visits(objects, rank, root, base)[0] == top);
    lemma_visits_step(objects, rank, root, base, top, slot1, child, first);
    let middle = PartVisit { handle: child, details: base.step(first) };
    lemma_visits_step(objects, rank, root, base, middle, slot2, grandchild, second);
}

} // verus!
