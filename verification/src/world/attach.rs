use vstd::prelude::*;
use super::laws::attached_one;
use super::laws::lemma_attach_keeps_trees;
use super::parts::AttachedPartFacing;
use super::parts::PartAttachment;
use super::parts::ATTACHMENT_SLOTS;
use super::subtrees::lemma_concat_contains;
use super::subtrees::lemma_slot_in_subtrees_until;
use super::subtrees::lemma_subtree_root;
use super::tree::is_child;
use super::tree::is_part;
use super::tree::part_at;
use super::tree::ranked;
use super::tree::slot_subtree;
use super::tree::subtree;
use super::tree::subtrees_until;
use super::tree::tree_rank;
use super::tree::tree_wf;
use super::tree::Rank;
use super::Handle;
use super::World;
use super::WorldView;

verus! {

impl World {
    /// Whether `sought` is the live part `root` or hangs on it.
    pub fn hangs_on(&self, sought: Handle, root: Handle) -> (found: bool)
        requires
            tree_wf(self@.objects),
        ensures
            found == self.subtree(root).contains(sought),
    {
        self.search(root, sought, Ghost(tree_rank(self@.objects)))
    }

    fn search(&self, root: Handle, sought: Handle, Ghost(rank): Ghost<Rank>) -> (found: bool)
        requires
            ranked(self@.objects, rank),
        ensures
            found == subtree(self@.objects, rank, root).contains(sought),
        decreases rank(root),
    {
        let part = match self.get_part(root) {
            Some(part) => part,
            None => {
                return false;
            },
        };
        if root == sought {
            proof {
                lemma_subtree_root(self@.objects, rank, root);
            }
            return true;
        }
        let mut slot: usize = 0;
        while slot < ATTACHMENT_SLOTS
            invariant
                slot <= ATTACHMENT_SLOTS,
                ranked(self@.objects, rank),
                is_part(self@.objects, root),
                *part == part_at(self@.objects, root),
                root != sought,
                !subtrees_until(self@.objects, rank, root, slot as nat).contains(sought),
            decreases ATTACHMENT_SLOTS - slot,
        {
            proof {
                lemma_concat_contains(
                    subtrees_until(self@.objects, rank, root, slot as nat),
                    slot_subtree(self@.objects, rank, root, slot as int),
                    sought,
                );
            }
            match part.attachments()[slot] {
                Some(attachment) => {
                    assert(is_child(self@.objects, root, slot as int, attachment.part));
                    if self.search(attachment.part, sought, Ghost(rank)) {
                        proof {
                            lemma_slot_in_subtrees_until(self@.objects, rank, root, 4, slot as int, sought);
                            lemma_concat_contains(
                                seq![root],
                                subtrees_until(self@.objects, rank, root, 4),
                                sought,
                            );
                        }
                        return true;
                    }
                },
                None => {},
            }
            slot += 1;
        }
        proof {
            lemma_concat_contains(seq![root], subtrees_until(self@.objects, rank, root, 4), sought);
            assert(!seq![root].contains(sought));
        }
        false
    }

    /// Whether `try_attach` attaches: whether `parent` and `child` are live
    /// parts, `slot` is a slot, `child` sits in no slot, and `parent` is not
    /// `child` nor anything that hangs on it.
    pub open spec fn can_attach(&self, parent: Handle, slot: int, child: Handle) -> bool {
        &&& 0 <= slot < ATTACHMENT_SLOTS
        &&& is_part(self@.objects, parent)
        &&& is_part(self@.objects, child)
        &&& forall|other: Handle, at: int| !is_child(self@.objects, other, at, child)
        &&& !self.subtree(child).contains(parent)
    }

    /// As `attach`, for any handles and any slot in a store whose parts form
    /// trees: attaches where `can_attach` holds, and does nothing where not.
    pub fn try_attach(&mut self, parent: Handle, slot: usize, child: Handle, facing: AttachedPartFacing) -> (done:
        bool)
        requires
            tree_wf(old(self)@.objects),
        ensures
            old(self).wf() ==> final(self).wf(),
            tree_wf(final(self)@.objects),
            done == old(self).can_attach(parent, slot as int, child),
            final(self)@ == (WorldView { objects: final(self)@.objects, ..old(self)@ }),
            done ==> attached_one(old(self)@.objects, final(self)@.objects, parent, slot as int, child),
            done ==> part_at(final(self)@.objects, parent).attachments[slot as int] == Some(
                PartAttachment { part: child, facing },
            ),
            !done ==> final(self)@.objects == old(self)@.objects,
    {
        if slot >= ATTACHMENT_SLOTS || self.get_part(parent).is_none() || self.get_part(child).is_none() {
            return false;
        }
        if self.parent_of(child).is_some() || self.hangs_on(parent, child) {
            return false;
        }
        self.attach(parent, slot, child, facing);
        true
    }

    /// Puts the live part `child`, which sits in no slot, into slot `slot` of
    /// the live part `parent`, which is not `child` nor anything that hangs
    /// on it, at a point of facing `facing`. What the slot held sits in no
    /// slot any more.
    pub fn attach(&mut self, parent: Handle, slot: usize, child: Handle, facing: AttachedPartFacing)
        requires
            tree_wf(old(self)@.objects),
            is_part(old(self)@.objects, parent),
            is_part(old(self)@.objects, child),
            slot < ATTACHMENT_SLOTS,
            forall|other: Handle, at: int| !is_child(old(self)@.objects, other, at, child),
            !old(self).subtree(child).contains(parent),
        ensures
            old(self).wf() ==> final(self).wf(),
            tree_wf(final(self)@.objects),
            final(self)@ == (WorldView { objects: final(self)@.objects, ..old(self)@ }),
            attached_one(old(self)@.objects, final(self)@.objects, parent, slot as int, child),
            part_at(final(self)@.objects, parent).attachments[slot as int] == Some(
                PartAttachment { part: child, facing },
            ),
    {
        match self.get_part_mut(parent) {
            Some(part) => {
                part.attach_part_player_agnostic(slot, child, facing);
            },
            None => {},
        }
        proof {
            let before = old(self)@.objects;
            let after = self@.objects;
            assert forall|other: int| 0 <= other < 4 && other != slot implies #[trigger] part_at(
                after,
                parent,
            ).attachments[other] == part_at(before, parent).attachments[other] by {
                assert(part_at(after, parent).attachments@[other] == part_at(before, parent).attachments@.update(
                    slot as int,
                    Some(PartAttachment { part: child, facing }),
                )[other]);
            }
            assert(part_at(after, parent).attachments@[slot as int] == part_at(before, parent).attachments@.update(
                slot as int,
                Some(PartAttachment { part: child, facing }),
            )[slot as int]);
            lemma_attach_keeps_trees(before, after, parent, slot as int, child);
        }
    }
}

} // verus!
