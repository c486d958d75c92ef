use vstd::prelude::*;
use vstd::seq_lib::lemma_no_dup_in_concat;
use super::delete::deleted;
use super::delete::released;
use super::delete::removal_notices;
use super::tree::is_child;
use super::tree::is_part;
use super::tree::no_dangling;
use super::tree::part_at;
use super::tree::parts;
use super::tree::ranked;
use super::tree::single_parent;
use super::tree::slot_subtree;
use super::tree::subtree;
use super::tree::subtrees_until;
use super::tree::tree_rank;
use super::tree::tree_wf;
use super::tree::Objects;
use super::tree::Rank;
use super::Handle;

verus! {

/// A concatenation holds what its parts hold.
pub proof fn lemma_concat_contains<A>(first: Seq<A>, second: Seq<A>, x: A)
    ensures
        (first + second).contains(x) <==> first.contains(x) || second.contains(x),
{
    if first.contains(x) {
        let i = choose|i: int| 0 <= i < first.len() && first[i] == x;
        assert((first + second)[i] == x);
    }
    if second.contains(x) {
        let j = choose|j: int| 0 <= j < second.len() && second[j] == x;
        assert((first + second)[first.len() + j] == x);
    }
    if (first + second).contains(x) {
        let k = choose|k: int| 0 <= k < (first + second).len() && (first + second)[k] == x;
        if k < first.len() {
            assert(first[k] == x);
        } else {
            assert(second[k - first.len()] == x);
        }
    }
}

/// What the subtrees of the first slots hold, the subtree of one of those slots holds.
pub proof fn lemma_in_subtrees_until(objects: Objects, rank: Rank, parent: Handle, until: nat, n: Handle)
    requires
        subtrees_until(objects, rank, parent, until).contains(n),
    ensures
        exists|slot: int| 0 <= slot < until && #[trigger] slot_subtree(objects, rank, parent, slot).contains(n),
    decreases until,
{
    if until > 0 {
        let before = subtrees_until(objects, rank, parent, (until - 1) as nat);
        let through = slot_subtree(objects, rank, parent, until - 1);
        lemma_concat_contains(before, through, n);
        if before.contains(n) {
            lemma_in_subtrees_until(objects, rank, parent, (until - 1) as nat, n);
            let slot = choose|slot: int|
                0 <= slot < until - 1 && #[trigger] slot_subtree(objects, rank, parent, slot).contains(n);
            assert(slot_subtree(objects, rank, parent, slot).contains(n));
        } else {
            assert(slot_subtree(objects, rank, parent, until - 1).contains(n));
        }
    }
}

/// What the subtree of a slot holds, the subtrees of the slots up to a later one hold.
pub proof fn lemma_slot_in_subtrees_until(
    objects: Objects,
    rank: Rank,
    parent: Handle,
    until: nat,
    slot: int,
    n: Handle,
)
    requires
        0 <= slot < until,
        slot_subtree(objects, rank, parent, slot).contains(n),
    ensures
        subtrees_until(objects, rank, parent, until).contains(n),
    decreases until,
{
    let before = subtrees_until(objects, rank, parent, (until - 1) as nat);
    let through = slot_subtree(objects, rank, parent, until - 1);
    lemma_concat_contains(before, through, n);
    if slot < until - 1 {
        lemma_slot_in_subtrees_until(objects, rank, parent, (until - 1) as nat, slot, n);
    }
}

/// The subtrees of more slots are no shorter.
pub proof fn lemma_subtrees_until_grow(objects: Objects, rank: Rank, parent: Handle, fewer: nat, more: nat)
    requires
        fewer <= more,
    ensures
        subtrees_until(objects, rank, parent, fewer).len() <= subtrees_until(objects, rank, parent, more).len(),
    decreases more,
{
    if fewer < more {
        lemma_subtrees_until_grow(objects, rank, parent, fewer, (more - 1) as nat);
    }
}

/// A subtree holds live parts that stand no higher than its root, which is a live part.
pub proof fn lemma_subtree_member(objects: Objects, rank: Rank, root: Handle, n: Handle)
    requires
        subtree(objects, rank, root).contains(n),
    ensures
        is_part(objects, n),
        is_part(objects, root),
        rank(n) <= rank(root),
    decreases rank(root),
{
    let below = subtrees_until(objects, rank, root, 4);
    lemma_concat_contains(seq![root], below, n);
    if seq![root].contains(n) {
        assert(n == root);
    } else {
        lemma_in_subtrees_until(objects, rank, root, 4, n);
        let slot = choose|slot: int|
            0 <= slot < 4 && #[trigger] slot_subtree(objects, rank, root, slot).contains(n);
        let child = part_at(objects, root).child(slot)->0;
        lemma_subtree_member(objects, rank, child, n);
    }
}

/// The subtree of a live part holds the part.
pub proof fn lemma_subtree_root(objects: Objects, rank: Rank, root: Handle)
    requires
        is_part(objects, root),
    ensures
        subtree(objects, rank, root).contains(root),
{
    assert(subtree(objects, rank, root)[0] == root);
}

/// The subtree of a part holds the subtrees of its children.
pub proof fn lemma_subtree_of_child(
    objects: Objects,
    rank: Rank,
    parent: Handle,
    slot: int,
    child: Handle,
    n: Handle,
)
    requires
        ranked(objects, rank),
        is_child(objects, parent, slot, child),
        subtree(objects, rank, child).contains(n),
    ensures
        subtree(objects, rank, parent).contains(n),
{
    assert(slot_subtree(objects, rank, parent, slot) == subtree(objects, rank, child));
    lemma_slot_in_subtrees_until(objects, rank, parent, 4, slot, n);
    lemma_concat_contains(seq![parent], subtrees_until(objects, rank, parent, 4), n);
}

/// A subtree holds the children of its parts.
pub proof fn lemma_subtree_closed(objects: Objects, rank: Rank, root: Handle, parent: Handle, slot: int, child: Handle)
    requires
        ranked(objects, rank),
        no_dangling(objects),
        subtree(objects, rank, root).contains(parent),
        is_child(objects, parent, slot, child),
    ensures
        subtree(objects, rank, root).contains(child),
    decreases rank(root),
{
    assert(is_part(objects, child));
    if parent == root {
        lemma_subtree_root(objects, rank, child);
        lemma_subtree_of_child(objects, rank, root, slot, child, child);
    } else {
        let below = subtrees_until(objects, rank, root, 4);
        lemma_concat_contains(seq![root], below, parent);
        assert(!seq![root].contains(parent));
        lemma_in_subtrees_until(objects, rank, root, 4, parent);
        let through = choose|through: int|
            0 <= through < 4 && #[trigger] slot_subtree(objects, rank, root, through).contains(parent);
        let inner = part_at(objects, root).child(through)->0;
        assert(is_child(objects, root, through, inner));
        lemma_subtree_closed(objects, rank, inner, parent, slot, child);
        lemma_subtree_of_child(objects, rank, root, through, inner, child);
    }
}

/// A part of a subtree that is not its root sits in a slot of a part of the subtree.
pub proof fn lemma_subtree_parent(objects: Objects, rank: Rank, root: Handle, n: Handle)
    requires
        ranked(objects, rank),
        subtree(objects, rank, root).contains(n),
        n != root,
    ensures
        exists|parent: Handle, slot: int|
            subtree(objects, rank, root).contains(parent) && #[trigger] is_child(objects, parent, slot, n),
    decreases rank(root),
{
    let below = subtrees_until(objects, rank, root, 4);
    lemma_concat_contains(seq![root], below, n);
    assert(!seq![root].contains(n));
    lemma_in_subtrees_until(objects, rank, root, 4, n);
    let slot = choose|slot: int| 0 <= slot < 4 && #[trigger] slot_subtree(objects, rank, root, slot).contains(n);
    let child = part_at(objects, root).child(slot)->0;
    assert(is_child(objects, root, slot, child));
    if n == child {
        lemma_subtree_root(objects, rank, root);
        assert(is_child(objects, root, slot, n));
    } else {
        lemma_subtree_parent(objects, rank, child, n);
        let (parent, at) = choose|parent: Handle, at: int|
            subtree(objects, rank, child).contains(parent) && #[trigger] is_child(objects, parent, at, n);
        lemma_subtree_of_child(objects, rank, root, slot, child, parent);
        assert(is_child(objects, parent, at, n));
    }
}

/// Of two subtrees that share a part, one holds the root of the other.
pub proof fn lemma_subtrees_nest(objects: Objects, rank: Rank, x: Handle, y: Handle, n: Handle)
    requires
        ranked(objects, rank),
        single_parent(objects),
        subtree(objects, rank, x).contains(n),
        subtree(objects, rank, y).contains(n),
    ensures
        subtree(objects, rank, x).contains(y) || subtree(objects, rank, y).contains(x),
    decreases rank(x) - rank(n),
{
    lemma_subtree_member(objects, rank, x, n);
    lemma_subtree_member(objects, rank, y, n);
    if n != x && n != y {
        lemma_subtree_parent(objects, rank, x, n);
        let (p, s) = choose|p: Handle, s: int|
            subtree(objects, rank, x).contains(p) && #[trigger] is_child(objects, p, s, n);
        lemma_subtree_parent(objects, rank, y, n);
        let (q, t) = choose|q: Handle, t: int|
            subtree(objects, rank, y).contains(q) && #[trigger] is_child(objects, q, t, n);
        assert(is_child(objects, p, s, n) && is_child(objects, q, t, n));
        assert(p == q);
        lemma_subtree_member(objects, rank, x, p);
        lemma_subtrees_nest(objects, rank, x, y, p);
    }
}

/// The subtree of a child does not hold the parent.
pub proof fn lemma_parent_outside(objects: Objects, rank: Rank, parent: Handle, slot: int, child: Handle)
    requires
        ranked(objects, rank),
        is_child(objects, parent, slot, child),
    ensures
        !subtree(objects, rank, child).contains(parent),
{
    if subtree(objects, rank, child).contains(parent) {
        lemma_subtree_member(objects, rank, child, parent);
    }
}

/// The subtrees of two slots of a part share no part.
pub proof fn lemma_siblings_disjoint(
    objects: Objects,
    rank: Rank,
    parent: Handle,
    slot1: int,
    child1: Handle,
    slot2: int,
    child2: Handle,
    n: Handle,
)
    requires
        ranked(objects, rank),
        single_parent(objects),
        is_child(objects, parent, slot1, child1),
        is_child(objects, parent, slot2, child2),
        slot1 != slot2,
        subtree(objects, rank, child1).contains(n),
    ensures
        !subtree(objects, rank, child2).contains(n),
{
    if subtree(objects, rank, child2).contains(n) {
        lemma_subtrees_nest(objects, rank, child1, child2, n);
        assert(child1 != child2);
        if subtree(objects, rank, child1).contains(child2) {
            lemma_subtree_parent(objects, rank, child1, child2);
            let (p, s) = choose|p: Handle, s: int|
                subtree(objects, rank, child1).contains(p) && #[trigger] is_child(objects, p, s, child2);
            assert(is_child(objects, p, s, child2));
            assert(p == parent);
            lemma_parent_outside(objects, rank, parent, slot1, child1);
        } else {
            lemma_subtree_parent(objects, rank, child2, child1);
            let (p, s) = choose|p: Handle, s: int|
                subtree(objects, rank, child2).contains(p) && #[trigger] is_child(objects, p, s, child1);
            assert(is_child(objects, p, s, child1));
            assert(p == parent);
            lemma_parent_outside(objects, rank, parent, slot2, child2);
        }
    }
}

/// The subtree of a slot shares no part with the subtrees of the slots before it.
pub proof fn lemma_slot_apart(objects: Objects, rank: Rank, parent: Handle, slot: int, n: Handle)
    requires
        ranked(objects, rank),
        single_parent(objects),
        is_part(objects, parent),
        0 <= slot < 4,
        slot_subtree(objects, rank, parent, slot).contains(n),
    ensures
        n != parent,
        !subtrees_until(objects, rank, parent, slot as nat).contains(n),
{
    let child = part_at(objects, parent).child(slot)->0;
    assert(is_child(objects, parent, slot, child));
    lemma_parent_outside(objects, rank, parent, slot, child);
    if subtrees_until(objects, rank, parent, slot as nat).contains(n) {
        lemma_in_subtrees_until(objects, rank, parent, slot as nat, n);
        let earlier = choose|earlier: int|
            0 <= earlier < slot && #[trigger] slot_subtree(objects, rank, parent, earlier).contains(n);
        let sibling = part_at(objects, parent).child(earlier)->0;
        assert(is_child(objects, parent, earlier, sibling));
        lemma_siblings_disjoint(objects, rank, parent, earlier, sibling, slot, child, n);
    }
}

/// A subtree names each of its parts once.
pub proof fn lemma_subtree_no_duplicates(objects: Objects, rank: Rank, root: Handle)
    requires
        ranked(objects, rank),
        single_parent(objects),
    ensures
        subtree(objects, rank, root).no_duplicates(),
    decreases rank(root), 5nat,
{
    if is_part(objects, root) {
        let below = subtrees_until(objects, rank, root, 4);
        lemma_subtrees_until_no_duplicates(objects, rank, root, 4);
        assert forall|i: int, j: int| 0 <= i < 1 && 0 <= j < below.len() implies seq![root][i] != below[j] by {
            if below[j] == root {
                assert(below.contains(root));
                lemma_in_subtrees_until(objects, rank, root, 4, root);
                let slot = choose|slot: int|
                    0 <= slot < 4 && #[trigger] slot_subtree(objects, rank, root, slot).contains(root);
                lemma_slot_apart(objects, rank, root, slot, root);
            }
        }
        lemma_no_dup_in_concat(seq![root], below);
    }
}

/// The subtrees of the first slots of a part name each of their parts once.
pub proof fn lemma_subtrees_until_no_duplicates(objects: Objects, rank: Rank, parent: Handle, until: nat)
    requires
        ranked(objects, rank),
        single_parent(objects),
        is_part(objects, parent),
        until <= 4,
    ensures
        subtrees_until(objects, rank, parent, until).no_duplicates(),
    decreases rank(parent), until,
{
    if until > 0 {
        let before = subtrees_until(objects, rank, parent, (until - 1) as nat);
        let through = slot_subtree(objects, rank, parent, until - 1);
        lemma_subtrees_until_no_duplicates(objects, rank, parent, (until - 1) as nat);
        match part_at(objects, parent).child(until - 1) {
            Some(child) => {
                if rank(child) < rank(parent) {
                    lemma_subtree_no_duplicates(objects, rank, child);
                }
            },
            None => {},
        }
        assert forall|i: int, j: int| 0 <= i < before.len() && 0 <= j < through.len() implies before[i]
            != through[j] by {
            if before[i] == through[j] {
                assert(through.contains(through[j]));
                assert(before.contains(before[i]));
                lemma_slot_apart(objects, rank, parent, until - 1, through[j]);
            }
        }
        lemma_no_dup_in_concat(before, through);
    }
}

/// A list that names each live part once, by ascending slot index, is as long as there are live parts.
pub proof fn lemma_parts_counted(objects: Objects, handles: Seq<Handle>)
    requires
        forall|handle: Handle| handles.contains(handle) <==> is_part(objects, handle),
        forall|i: int, j: int| 0 <= i < j < handles.len() ==> handles[i].index < handles[j].index,
    ensures
        parts(objects).finite(),
        parts(objects).len() == handles.len(),
{
    assert(handles.no_duplicates());
    handles.unique_seq_to_set();
    vstd::seq_lib::seq_to_set_is_finite(handles);
    assert(handles.to_set() =~= parts(objects));
}

/// A subtree has no more parts than are live.
pub proof fn lemma_subtree_counted(objects: Objects, rank: Rank, root: Handle)
    requires
        ranked(objects, rank),
        single_parent(objects),
        parts(objects).finite(),
    ensures
        subtree(objects, rank, root).len() <= parts(objects).len(),
{
    let below = subtree(objects, rank, root);
    lemma_subtree_no_duplicates(objects, rank, root);
    below.unique_seq_to_set();
    assert forall|handle: Handle| below.to_set().contains(handle) implies parts(objects).contains(
        handle,
    ) by {
        lemma_subtree_member(objects, rank, root, handle);
    }
    vstd::set_lib::lemma_len_subset(below.to_set(), parts(objects));
}

/// Where the parts form trees, they still do when slots are emptied and
/// objects are taken out or changed, as long as every slot that is still
/// occupied holds what it held, and that is a live part.
pub proof fn lemma_pruned_trees(before: Objects, after: Objects)
    requires
        tree_wf(before),
        forall|parent: Handle, slot: int, child: Handle| #[trigger]
            is_child(after, parent, slot, child) ==> is_child(before, parent, slot, child) && is_part(
                after,
                child,
            ),
    ensures
        tree_wf(after),
{
    let rank = tree_rank(before);
    assert(ranked(after, rank));
    assert(single_parent(after)) by {
        assert forall|parent1: Handle, slot1: int, parent2: Handle, slot2: int, child: Handle|
            #[trigger] is_child(after, parent1, slot1, child) && #[trigger] is_child(
                after,
                parent2,
                slot2,
                child,
            ) implies parent1 == parent2 && slot1 == slot2 by {
            assert(is_child(before, parent1, slot1, child));
            assert(is_child(before, parent2, slot2, child));
        }
    }
}

/// Where the parts form trees, deleting `root` with all that hangs on it
/// leaves trees, and no slot that holds `root` or another part of its
/// subtree; none of those parts is live any more; and the subtree names each
/// of its parts once, so that there are as many notices of removal as parts in it.
pub proof fn lemma_delete_leaves_trees(before: Objects, after: Objects, root: Handle)
    requires
        tree_wf(before),
        deleted(before, after, root, subtree(before, tree_rank(before), root)),
    ensures
        tree_wf(after),
        subtree(before, tree_rank(before), root).no_duplicates(),
        removal_notices(subtree(before, tree_rank(before), root)).len() == subtree(
            before,
            tree_rank(before),
            root,
        ).to_set().len(),
        forall|handle: Handle|
            subtree(before, tree_rank(before), root).contains(handle) ==> !after.dom().contains(handle),
        forall|parent: Handle, slot: int, child: Handle| #[trigger]
            is_child(after, parent, slot, child) ==> !subtree(before, tree_rank(before), root).contains(
                child,
            ),
        forall|parent: Handle, slot: int| !is_child(after, parent, slot, root),
{
    let rank = tree_rank(before);
    let removed = subtree(before, rank, root);
    lemma_subtree_no_duplicates(before, rank, root);
    removed.unique_seq_to_set();
    assert forall|parent: Handle, slot: int, child: Handle| #[trigger]
        is_child(after, parent, slot, child) implies is_child(before, parent, slot, child) && is_part(
        after,
        child,
    ) && !removed.contains(child) && child != root by {
        assert(after.dom().contains(parent));
        assert(before.dom().contains(parent) && !removed.contains(parent));
        assert(released(before[parent], after[parent], root));
        assert(before[parent] is Part);
        assert(part_at(after, parent).attachments[slot] is Some);
        assert(is_child(before, parent, slot, child));
        assert(!removed.contains(parent));
        if removed.contains(child) {
            lemma_subtree_parent(before, rank, root, child);
            let (p, s) = choose|p: Handle, s: int|
                subtree(before, rank, root).contains(p) && #[trigger] is_child(before, p, s, child);
            assert(is_child(before, p, s, child));
            assert(p == parent);
        }
        assert(is_part(before, child));
        assert(after.dom().contains(child));
        assert(released(before[child], after[child], root));
    }
    lemma_pruned_trees(before, after);
}

} // verus!
