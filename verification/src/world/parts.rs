use vstd::prelude::*;
use super::bodies::RigidBody;
use super::Handle;

verus! {

/// Number of attachment slots of every part.
pub const ATTACHMENT_SLOTS: usize = 4;

/// An orientation in quarter turns, clockwise from `Up`.
#[derive(Clone, Copy, Debug, PartialEq, Eq, Structural)]
pub enum AttachedPartFacing {
    Up,
    Right,
    Down,
    Left,
}

impl AttachedPartFacing {
    /// Quarter turns clockwise from `Up`, in `0..4`.
    pub open spec fn quarter_turns(self) -> int {
        match self {
            AttachedPartFacing::Up => 0,
            AttachedPartFacing::Right => 1,
            AttachedPartFacing::Down => 2,
            AttachedPartFacing::Left => 3,
        }
    }

    /// The facing that is `turns` quarter turns from `Up`, for `turns` in `0..4`.
    pub open spec fn from_quarter_turns(turns: int) -> AttachedPartFacing {
        if turns == 0 {
            AttachedPartFacing::Up
        } else if turns == 1 {
            AttachedPartFacing::Right
        } else if turns == 2 {
            AttachedPartFacing::Down
        } else {
            AttachedPartFacing::Left
        }
    }

    /// This facing, declared relative to a parent, turned by the parent's true facing.
    pub open spec fn true_facing(self, parent_true_facing: AttachedPartFacing) -> AttachedPartFacing {
        Self::from_quarter_turns((self.quarter_turns() + parent_true_facing.quarter_turns()) % 4)
    }

    /// The grid step from a part to the part attached at a point of this true facing.
    pub open spec fn delta(self) -> (int, int) {
        match self {
            AttachedPartFacing::Up => (0, 1),
            AttachedPartFacing::Right => (1, 0),
            AttachedPartFacing::Down => (0, -1),
            AttachedPartFacing::Left => (-1, 0),
        }
    }

    fn turns(self) -> (turns: u8)
        ensures
            turns == self.quarter_turns(),
    {
        match self {
            AttachedPartFacing::Up => 0,
            AttachedPartFacing::Right => 1,
            AttachedPartFacing::Down => 2,
            AttachedPartFacing::Left => 3,
        }
    }

    pub fn compute_true_facing(self, parent_true_facing: AttachedPartFacing) -> (facing: AttachedPartFacing)
        ensures
            facing == self.true_facing(parent_true_facing),
    {
        let sum: u8 = self.turns() + parent_true_facing.turns();
        let turns: u8 = if sum > 3 { sum - 4 } else { sum };
        if turns == 0 {
            AttachedPartFacing::Up
        } else if turns == 1 {
            AttachedPartFacing::Right
        } else if turns == 2 {
            AttachedPartFacing::Down
        } else {
            AttachedPartFacing::Left
        }
    }

    pub fn delta_rel_part(self) -> (delta: (i32, i32))
        ensures
            delta.0 == self.delta().0,
            delta.1 == self.delta().1,
    {
        match self {
            AttachedPartFacing::Up => (0, 1),
            AttachedPartFacing::Right => (1, 0),
            AttachedPartFacing::Down => (0, -1),
            AttachedPartFacing::Left => (-1, 0),
        }
    }
}

/// Turning by `Up` changes nothing, and turns add up modulo four, in either order.
pub proof fn lemma_true_facing_composes(
    first: AttachedPartFacing,
    second: AttachedPartFacing,
    base: AttachedPartFacing,
)
    ensures
        first.true_facing(AttachedPartFacing::Up) == first,
        AttachedPartFacing::Up.true_facing(base) == base,
        first.true_facing(base).quarter_turns() == (first.quarter_turns() + base.quarter_turns()) % 4,
        second.true_facing(first.true_facing(base)).quarter_turns() == (first.quarter_turns()
            + second.quarter_turns() + base.quarter_turns()) % 4,
        second.true_facing(first.true_facing(base)) == first.true_facing(second.true_facing(base)),
{
}

/// The geometry of one attachment point of a kind of part.
#[derive(Clone, Copy, Debug, PartialEq, Eq, Structural)]
pub struct AttachmentPointDetails {
    /// The facing of a part attached here, relative to the part that has the point.
    pub facing: AttachedPartFacing,
}

/// What the traversal needs of a kind of part: its attachment points, by slot.
/// A slot without geometry can hold a child, but the traversal does not enter it.
#[derive(Clone, Copy, Debug)]
pub struct PartKind {
    pub attachment_locations: [Option<AttachmentPointDetails>; 4],
}

impl PartKind {
    pub fn new(attachment_locations: [Option<AttachmentPointDetails>; 4]) -> (kind: PartKind)
        ensures
            kind.attachment_locations == attachment_locations,
    {
        PartKind { attachment_locations }
    }

    pub fn attachment_locations(&self) -> (locations: [Option<AttachmentPointDetails>; 4])
        ensures
            locations == self.attachment_locations,
    {
        self.attachment_locations
    }
}

/// An occupied attachment slot: the child and the facing of the point it hangs on.
#[derive(Clone, Copy, Debug, PartialEq, Eq, Structural)]
pub struct PartAttachment {
    pub part: Handle,
    pub facing: AttachedPartFacing,
}

/// A part: its body, its kind, its attachment slots and the player it belongs to, if any.
#[derive(Clone, Copy, Debug)]
pub struct Part {
    pub body: RigidBody,
    pub kind: PartKind,
    pub attachments: [Option<PartAttachment>; 4],
    pub part_of_player: Option<u16>,
}

impl Part {
    /// The child in slot `slot`, if the slot is occupied.
    pub open spec fn child(self, slot: int) -> Option<Handle> {
        match self.attachments[slot] {
            Some(attachment) => Some(attachment.part),
            None => None,
        }
    }

    /// The number of occupied slots among the first `until`.
    pub open spec fn occupied_slots(self, until: int) -> nat
        decreases until,
    {
        if until <= 0 {
            0
        } else {
            self.occupied_slots(until - 1) + if self.attachments[until - 1] is Some { 1nat } else { 0nat }
        }
    }

    /// The first slot that holds `child`, if any does.
    pub fn slot_of(&self, child: Handle) -> (slot: Option<usize>)
        ensures
            match slot {
                Some(found) => found < ATTACHMENT_SLOTS && self.child(found as int) == Some(child) && forall|
                    earlier: int,
                | 0 <= earlier < found ==> self.child(earlier) != Some(child),
                None => forall|any: int| 0 <= any < ATTACHMENT_SLOTS ==> self.child(any) != Some(child),
            },
    {
        let mut slot: usize = 0;
        while slot < ATTACHMENT_SLOTS
            invariant
                slot <= ATTACHMENT_SLOTS,
                forall|earlier: int| 0 <= earlier < slot ==> self.child(earlier) != Some(child),
            decreases ATTACHMENT_SLOTS - slot,
        {
            match self.attachments[slot] {
                Some(attachment) => {
                    if attachment.part == child {
                        return Some(slot);
                    }
                },
                None => {},
            }
            slot += 1;
        }
        None
    }

    /// A part with every slot empty.
    pub fn new(kind: PartKind, body: RigidBody, part_of_player: Option<u16>) -> (part: Part)
        ensures
            part.body == body,
            part.kind == kind,
            part.part_of_player == part_of_player,
            forall|slot: int| 0 <= slot < ATTACHMENT_SLOTS ==> part.attachments[slot] is None,
    {
        Part { body, kind, attachments: [None, None, None, None], part_of_player }
    }

    pub fn body(&self) -> (body: &RigidBody)
        ensures
            *body == self.body,
    {
        &self.body
    }

    pub fn body_mut(&mut self) -> (body: &mut RigidBody)
        ensures
            *body == old(self).body,
            *final(self) == (Part { body: *final(body), ..*old(self) }),
    {
        &mut self.body
    }

    pub fn kind(&self) -> (kind: &PartKind)
        ensures
            *kind == self.kind,
    {
        &self.kind
    }

    pub fn attachments(&self) -> (attachments: &[Option<PartAttachment>; 4])
        ensures
            *attachments == self.attachments,
    {
        &self.attachments
    }

    pub fn part_of_player(&self) -> (player: Option<u16>)
        ensures
            player == self.part_of_player,
    {
        self.part_of_player
    }

    /// Puts `part` into slot `slot`, whatever the slot held.
    pub fn attach_part_player_agnostic(&mut self, slot: usize, part: Handle, facing: AttachedPartFacing)
        requires
            slot < ATTACHMENT_SLOTS,
        ensures
            final(self).attachments@ == old(self).attachments@.update(
                slot as int,
                Some(PartAttachment { part, facing }),
            ),
            final(self).body == old(self).body,
            final(self).kind == old(self).kind,
            final(self).part_of_player == old(self).part_of_player,
    {
        self.attachments[slot] = Some(PartAttachment { part, facing });
    }

    /// Empties slot `slot` and returns the child it held.
    pub fn detach_part_player_agnostic(&mut self, slot: usize) -> (detached: Option<Handle>)
        requires
            slot < ATTACHMENT_SLOTS,
        ensures
            detached == old(self).child(slot as int),
            final(self).attachments@ == old(self).attachments@.update(slot as int, None),
            final(self).body == old(self).body,
            final(self).kind == old(self).kind,
            final(self).part_of_player == old(self).part_of_player,
    {
        let detached = match self.attachments[slot] {
            Some(attachment) => Some(attachment.part),
            None => None,
        };
        self.attachments[slot] = None;
        detached
    }

    /// Forgets the owning player and returns it.
    pub fn remove_from(&mut self) -> (player: Option<u16>)
        ensures
            player == old(self).part_of_player,
            *final(self) == (Part { part_of_player: None, ..*old(self) }),
    {
        let player = self.part_of_player;
        self.part_of_player = None;
        player
    }
}

} // verus!
