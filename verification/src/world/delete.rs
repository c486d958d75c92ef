use vstd::prelude::*;
use super::parts::ATTACHMENT_SLOTS;
use super::subtrees::lemma_concat_contains;
use super::subtrees::lemma_parts_counted;
use super::subtrees::lemma_subtree_counted;
use super::subtrees::lemma_slot_apart;
use super::subtrees::lemma_subtree_member;
use super::subtrees::lemma_subtree_of_child;
use super::subtrees::lemma_subtree_root;
use super::subtrees::lemma_subtrees_until_grow;
use super::tree::is_child;
use super::tree::is_part;
use super::tree::no_dangling;
use super::tree::part_at;
use super::tree::ranked;
use super::tree::single_parent;
use super::tree::slot_subtree;
use super::tree::subtree;
use super::tree::subtrees_until;
use super::tree::tree_rank;
use super::tree::tree_wf;
use super::tree::Objects;
use super::tree::Rank;
use super::Handle;
use super::ToClientMsg;
use super::World;
use super::WorldView;
use super::WorldlyObject;

verus! {

/// The notices that the parts `removed` are gone, in their order.
pub open spec fn removal_notices(removed: Seq<Handle>) -> Seq<ToClientMsg> {
    Seq::new(removed.len(), |i: int| ToClientMsg::RemovePart { id: removed[i] })
}

/// Whether `now` is `was` with every slot that held `child` emptied.
pub open spec fn released(was: WorldlyObject, now: WorldlyObject, child: Handle) -> bool {
    match was {
        WorldlyObject::Part(part) => {
            &&& now is Part
            &&& now->Part_0.body == part.body
            &&& now->Part_0.kind == part.kind
            &&& now->Part_0.part_of_player == part.part_of_player
            &&& forall|slot: int|
                0 <= slot < 4 ==> #[trigger] now->Part_0.attachments[slot] == if part.child(slot) == Some(
                    child,
                ) {
                    None
                } else {
                    part.attachments[slot]
                }
        },
        _ => now == was,
    }
}

/// Whether the objects went from `before` to `after` by taking out the
/// parts `removed` and emptying every slot that held `index`: nothing else differs.
pub open spec fn deleted(before: Objects, after: Objects, index: Handle, removed: Seq<Handle>) -> bool {
    &&& forall|handle: Handle|
        #![trigger after.dom().contains(handle)]
        #![trigger before.dom().contains(handle)]
        after.dom().contains(handle) <==> before.dom().contains(handle) && !removed.contains(handle)
    &&& forall|handle: Handle| #[trigger]
        after.dom().contains(handle) ==> released(before[handle], after[handle], index)
}

impl World {
    /// The live part `root` and all that hangs on it, each part before its
    /// children and the children by slot.
    pub open spec fn subtree(&self, root: Handle) -> Seq<Handle> {
        subtree(self@.objects, tree_rank(self@.objects), root)
    }

    /// Takes the part `index` and all that hangs on it out of the store,
    /// empties the slot that `index` sat in, and tells `removal_msgs` and the
    /// integrator of each part, parents first. Nothing happens if `index` is
    /// not live.
    pub fn delete_parts_recursive(&mut self, index: Handle, removal_msgs: &mut Vec<ToClientMsg>)
        requires
            old(self).wf(),
            tree_wf(old(self)@.objects),
            !old(self)@.objects.dom().contains(index) || is_part(old(self)@.objects, index),
            old(self)@.generation + old(self).subtree(index).len() <= u64::MAX,
        ensures
            final(self).wf(),
            tree_wf(final(self)@.objects),
            deleted(old(self)@.objects, final(self)@.objects, index, old(self).subtree(index)),
            final(self)@ == (WorldView {
                objects: final(self)@.objects,
                removal_events: old(self)@.removal_events + old(self).subtree(index),
                generation: old(self)@.generation + old(self).subtree(index).len(),
                ..old(self)@
            }),
            final(removal_msgs)@ == old(removal_msgs)@ + removal_notices(old(self).subtree(index)),
    {
        let ghost origin = self@.objects;
        let ghost rank = tree_rank(origin);
        let ghost removed = subtree(origin, rank, index);
        proof {
            assert forall|n: Handle| subtree(origin, rank, index).contains(n) implies origin.dom().contains(n) by {
                lemma_subtree_member(origin, rank, index, n);
            }
        }
        self.delete_subtree(index, removal_msgs, Ghost(rank), Ghost(origin));
        let ghost cut = self@.objects;
        match self.parent_of(index) {
            Some((parent, slot)) => {
                match self.get_part_mut(parent) {
                    Some(part) => {
                        part.detach_part_player_agnostic(slot);
                    },
                    None => {},
                }
                proof {
                    let after = self@.objects;
                    assert(is_child(origin, parent, slot as int, index));
                    assert forall|handle: Handle| #[trigger] after.dom().contains(handle) implies released(
                        origin[handle],
                        after[handle],
                        index,
                    ) by {
                        assert(cut.dom().contains(handle));
                        if handle == parent {
                            assert forall|at: int| 0 <= at < 4 implies #[trigger] part_at(
                                after,
                                parent,
                            ).attachments[at] == if part_at(origin, parent).child(at) == Some(index) {
                                None
                            } else {
                                part_at(origin, parent).attachments[at]
                            } by {
                                assert(part_at(after, parent).attachments@[at] == part_at(
                                    origin,
                                    parent,
                                ).attachments@.update(slot as int, None)[at]);
                                if at != slot && part_at(origin, parent).child(at) == Some(index) {
                                    assert(is_child(origin, parent, at, index));
                                }
                            }
                        } else {
                            assert(after[handle] == origin[handle]);
                            if is_part(origin, handle) {
                                assert forall|at: int| 0 <= at < 4 implies part_at(origin, handle).child(at)
                                    != Some(index) by {
                                    if part_at(origin, handle).child(at) == Some(index) {
                                        assert(is_child(origin, handle, at, index));
                                    }
                                }
                            }
                        }
                    }
                }
            },
            None => {
                proof {
                    let after = self@.objects;
                    assert forall|handle: Handle| #[trigger] after.dom().contains(handle) implies released(
                        origin[handle],
                        after[handle],
                        index,
                    ) by {
                        if is_part(origin, handle) {
                            assert forall|at: int| 0 <= at < 4 implies part_at(origin, handle).child(at)
                                != Some(index) by {
                                if part_at(origin, handle).child(at) == Some(index) {
                                    assert(is_child(after, handle, at, index));
                                }
                            }
                        }
                    }
                }
            },
        }
        proof {
            super::subtrees::lemma_delete_leaves_trees(origin, self@.objects, index);
        }
    }

    /// The number of parts that `root` and all that hangs on it are.
    pub fn subtree_len(&self, root: Handle) -> (len: usize)
        requires
            tree_wf(self@.objects),
        ensures
            len == self.subtree(root).len(),
    {
        let handles = self.iter_parts_mut();
        let live = handles.len();
        proof {
            lemma_parts_counted(self@.objects, handles@);
            lemma_subtree_counted(self@.objects, tree_rank(self@.objects), root);
            assert(self.subtree(root).len() <= live);
        }
        self.count(root, Ghost(tree_rank(self@.objects)))
    }

    fn count(&self, root: Handle, Ghost(rank): Ghost<Rank>) -> (len: usize)
        requires
            ranked(self@.objects, rank),
            subtree(self@.objects, rank, root).len() <= usize::MAX,
        ensures
            len == subtree(self@.objects, rank, root).len(),
        decreases rank(root),
    {
        let part = match self.get_part(root) {
            Some(part) => part,
            None => {
                return 0;
            },
        };
        let mut len: usize = 1;
        let mut slot: usize = 0;
        while slot < ATTACHMENT_SLOTS
            invariant
                slot <= ATTACHMENT_SLOTS,
                ranked(self@.objects, rank),
                is_part(self@.objects, root),
                *part == part_at(self@.objects, root),
                subtree(self@.objects, rank, root).len() <= usize::MAX,
                len == 1 + subtrees_until(self@.objects, rank, root, slot as nat).len(),
            decreases ATTACHMENT_SLOTS - slot,
        {
            proof {
                lemma_subtrees_until_grow(self@.objects, rank, root, (slot + 1) as nat, 4);
                assert(subtrees_until(self@.objects, rank, root, (slot + 1) as nat) == subtrees_until(
                    self@.objects,
                    rank,
                    root,
                    slot as nat,
                ) + slot_subtree(self@.objects, rank, root, slot as int));
            }
            match part.attachments()[slot] {
                Some(attachment) => {
                    assert(is_child(self@.objects, root, slot as int, attachment.part));
                    assert(slot_subtree(self@.objects, rank, root, slot as int) == subtree(
                        self@.objects,
                        rank,
                        attachment.part,
                    ));
                    len = len + self.count(attachment.part, Ghost(rank));
                },
                None => {
                    assert(slot_subtree(self@.objects, rank, root, slot as int) =~= Seq::<Handle>::empty());
                },
            }
            slot += 1;
        }
        len
    }

    /// Whether `try_delete_parts_recursive` deletes: whether `index` names
    /// no object or a part, and the store can still make a removal for each
    /// part that is to go.
    pub open spec fn can_delete(&self, index: Handle) -> bool {
        &&& !self@.objects.dom().contains(index) || is_part(self@.objects, index)
        &&& self@.generation + self.subtree(index).len() <= u64::MAX
    }

    /// As `delete_parts_recursive`, for any handle and any store whose parts
    /// form trees: deletes where `can_delete` holds, and does nothing where not.
    pub fn try_delete_parts_recursive(&mut self, index: Handle, removal_msgs: &mut Vec<ToClientMsg>) -> (done:
        bool)
        requires
            old(self).wf(),
            tree_wf(old(self)@.objects),
        ensures
            final(self).wf(),
            tree_wf(final(self)@.objects),
            done == old(self).can_delete(index),
            done ==> deleted(old(self)@.objects, final(self)@.objects, index, old(self).subtree(index)),
            done ==> final(self)@ == (WorldView {
                objects: final(self)@.objects,
                removal_events: old(self)@.removal_events + old(self).subtree(index),
                generation: old(self)@.generation + old(self).subtree(index).len(),
                ..old(self)@
            }),
            done ==> final(removal_msgs)@ == old(removal_msgs)@ + removal_notices(old(self).subtree(index)),
            !done ==> final(self)@ == old(self)@ && final(removal_msgs)@ == old(removal_msgs)@,
    {
        let deletable = match self.get(index) {
            Some(WorldlyObject::Part(_)) => true,
            Some(_) => false,
            None => true,
        };
        if deletable && self.subtree_len(index) as u64 <= self.removals_left() {
            self.delete_parts_recursive(index, removal_msgs);
            true
        } else {
            false
        }
    }

    fn delete_subtree(
        &mut self,
        index: Handle,
        removal_msgs: &mut Vec<ToClientMsg>,
        Ghost(rank): Ghost<Rank>,
        Ghost(origin): Ghost<Objects>,
    )
        requires
            old(self).wf(),
            ranked(origin, rank),
            no_dangling(origin),
            single_parent(origin),
            forall|h: Handle| #[trigger]
                old(self)@.objects.dom().contains(h) ==> origin.dom().contains(h) && origin[h] == old(
                    self,
                )@.objects[h],
            forall|n: Handle| #[trigger]
                subtree(origin, rank, index).contains(n) ==> old(self)@.objects.dom().contains(n),
            !old(self)@.objects.dom().contains(index) || is_part(old(self)@.objects, index),
            old(self)@.generation + subtree(origin, rank, index).len() <= u64::MAX,
        ensures
            final(self).wf(),
            final(self)@ == (WorldView {
                objects: old(self)@.objects.remove_keys(subtree(origin, rank, index).to_set()),
                removal_events: old(self)@.removal_events + subtree(origin, rank, index),
                generation: old(self)@.generation + subtree(origin, rank, index).len(),
                ..old(self)@
            }),
            final(removal_msgs)@ == old(removal_msgs)@ + removal_notices(subtree(origin, rank, index)),
        decreases rank(index),
    {
        let ghost start = self@;
        if self.get_part(index).is_none() {
            proof {
                if is_part(origin, index) {
                    lemma_subtree_root(origin, rank, index);
                }
                assert(subtree(origin, rank, index) =~= Seq::<Handle>::empty());
                assert(start.objects.remove_keys(Seq::<Handle>::empty().to_set()) =~= start.objects);
                assert(removal_msgs@ + removal_notices(Seq::<Handle>::empty()) =~= removal_msgs@);
                assert(start.removal_events + Seq::<Handle>::empty() =~= start.removal_events);
            }
            return ;
        }
        proof {
            assert(is_part(origin, index));
            lemma_subtree_root(origin, rank, index);
            lemma_subtrees_until_grow(origin, rank, index, 0, 4);
        }
        let part = self.remove_part(index).unwrap();
        removal_msgs.push(ToClientMsg::RemovePart { id: index });
        proof {
            assert(part == part_at(origin, index));
            assert(seq![index] + subtrees_until(origin, rank, index, 0) =~= seq![index]);
            assert forall|x: Handle| seq![index].contains(x) <==> x == index by {
                if x == index {
                    assert(seq![index][0] == index);
                }
            }
            assert(start.objects.remove(index) =~= start.objects.remove_keys(seq![index].to_set()));
            assert(removal_notices(seq![index]) =~= seq![ToClientMsg::RemovePart { id: index }]);
        }
        let mut slot: usize = 0;
        while slot < ATTACHMENT_SLOTS
            invariant
                slot <= ATTACHMENT_SLOTS,
                self.wf(),
                ranked(origin, rank),
                no_dangling(origin),
                single_parent(origin),
                is_part(origin, index),
                part == part_at(origin, index),
                start == old(self)@,
                forall|h: Handle| #[trigger]
                    start.objects.dom().contains(h) ==> origin.dom().contains(h) && origin[h]
                        == start.objects[h],
                forall|n: Handle| #[trigger]
                    subtree(origin, rank, index).contains(n) ==> start.objects.dom().contains(n),
                start.generation + subtree(origin, rank, index).len() <= u64::MAX,
                self@ == (WorldView {
                    objects: start.objects.remove_keys(
                        (seq![index] + subtrees_until(origin, rank, index, slot as nat)).to_set(),
                    ),
                    removal_events: start.removal_events + (seq![index] + subtrees_until(
                        origin,
                        rank,
                        index,
                        slot as nat,
                    )),
                    generation: start.generation + (seq![index] + subtrees_until(
                        origin,
                        rank,
                        index,
                        slot as nat,
                    )).len(),
                    ..start
                }),
                removal_msgs@ == old(removal_msgs)@ + removal_notices(
                    seq![index] + subtrees_until(origin, rank, index, slot as nat),
                ),
            decreases ATTACHMENT_SLOTS - slot,
        {
            let ghost done = seq![index] + subtrees_until(origin, rank, index, slot as nat);
            let ghost through = slot_subtree(origin, rank, index, slot as int);
            let ghost next = seq![index] + subtrees_until(origin, rank, index, (slot + 1) as nat);
            let ghost current = self@;
            proof {
                assert(next =~= done + through);
                lemma_subtrees_until_grow(origin, rank, index, (slot + 1) as nat, 4);
                assert forall|x: Handle| next.contains(x) <==> done.contains(x) || through.contains(x) by {
                    lemma_concat_contains(done, through, x);
                }
            }
            match part.attachments()[slot] {
                Some(attachment) => {
                    let child = attachment.part;
                    proof {
                        assert(is_child(origin, index, slot as int, child));
                        assert(through == subtree(origin, rank, child));
                        assert forall|n: Handle| #[trigger]
                            subtree(origin, rank, child).contains(n) implies current.objects.dom().contains(
                            n,
                        ) by {
                            lemma_subtree_of_child(origin, rank, index, slot as int, child, n);
                            lemma_slot_apart(origin, rank, index, slot as int, n);
                            lemma_concat_contains(
                                seq![index],
                                subtrees_until(origin, rank, index, slot as nat),
                                n,
                            );
                            assert(!seq![index].contains(n));
                            assert(!done.contains(n));
                        }
                        lemma_subtree_root(origin, rank, child);
                    }
                    self.delete_subtree(child, removal_msgs, Ghost(rank), Ghost(origin));
                },
                None => {
                    assert(through =~= Seq::<Handle>::empty());
                },
            }
            proof {
                assert(current.objects.remove_keys(through.to_set()) =~= start.objects.remove_keys(
                    next.to_set(),
                ));
                assert(removal_notices(done) + removal_notices(through) =~= removal_notices(next));
                assert(current.removal_events + through =~= start.removal_events + next);
            }
            slot += 1;
        }
    }
}

} // verus!
