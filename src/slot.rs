use vstd::prelude::*;

verus! {

/// Number of camera slots in the cycle.
pub const SLOT_COUNT: usize = 2;

/// The logical identity of a camera, independent of whether it renders.
#[derive(Clone, Copy, Debug, PartialEq, Eq, Hash, Structural)]
pub enum CameraSlot {
    Primary,
    Secondary,
}

impl CameraSlot {
    /// Position of the slot in the fixed cycle order.
    pub open spec fn spec_index(self) -> nat {
        match self {
            CameraSlot::Primary => 0,
            CameraSlot::Secondary => 1,
        }
    }

    /// The slot at a position of the cycle order.
    pub open spec fn spec_at(i: nat) -> CameraSlot {
        if i == 0 {
            CameraSlot::Primary
        } else {
            CameraSlot::Secondary
        }
    }

    /// The cyclic successor: the next slot in order, the last wrapping to the first.
    pub open spec fn spec_next(self) -> CameraSlot {
        CameraSlot::spec_at((self.spec_index() + 1) % (SLOT_COUNT as nat))
    }

    pub fn index(self) -> (r: usize)
        ensures
            r == self.spec_index(),
            r < SLOT_COUNT,
    {
        match self {
            CameraSlot::Primary => 0,
            CameraSlot::Secondary => 1,
        }
    }

    pub fn at(i: usize) -> (r: CameraSlot)
        requires
            i < SLOT_COUNT,
        ensures
            r == CameraSlot::spec_at(i as nat),
            r.spec_index() == i,
    {
        if i == 0 {
            CameraSlot::Primary
        } else {
            CameraSlot::Secondary
        }
    }

    /// The cyclic successor of this slot.
    pub fn next(self) -> (r: CameraSlot)
        ensures
            r == self.spec_next(),
    {
        CameraSlot::at((self.index() + 1) % SLOT_COUNT)
    }
}

/// Moves the active slot to its cyclic successor.
pub fn advance(state: &mut CameraSlot)
    ensures
        *final(state) == old(state).spec_next(),
{
    *state = state.next();
}

/// Two advances over the two-slot cycle bring the active slot back where it was.
pub proof fn lemma_advance_twice(s: CameraSlot)
    ensures
        s.spec_next().spec_next() == s,
{
}

} // verus!
