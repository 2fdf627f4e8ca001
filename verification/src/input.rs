//! The pointer's movement between two events.

use vstd::prelude::*;

verus! {

/// Where the pointer was at the last event, and how far it had moved since
/// the event before.
#[derive(Clone, Copy, Debug, PartialEq, Eq, Structural)]
pub struct DeltaMosue {
    pub last_x: i32,
    pub last_y: i32,
    pub delta_x: i32,
    pub delta_y: i32,
}

impl DeltaMosue {
    /// A pointer at the origin that has not moved.
    pub fn new() -> (dm: DeltaMosue)
        ensures
            dm == (DeltaMosue { last_x: 0, last_y: 0, delta_x: 0, delta_y: 0 }),
    {
        DeltaMosue { last_x: 0, last_y: 0, delta_x: 0, delta_y: 0 }
    }

    /// The state after the pointer has been seen at `(x, y)`.
    pub open spec fn spec_moved_to(self, x: i32, y: i32) -> DeltaMosue {
        DeltaMosue {
            last_x: x,
            last_y: y,
            delta_x: (x - self.last_x) as i32,
            delta_y: (y - self.last_y) as i32,
        }
    }

    /// Takes note that the pointer is at `(x, y)`: the deltas become the way
    /// from where it was last seen.
    pub fn moved_to(&mut self, x: i32, y: i32)
        requires
            i32::MIN <= x - old(self).last_x <= i32::MAX,
            i32::MIN <= y - old(self).last_y <= i32::MAX,
        ensures
            *final(self) == old(self).spec_moved_to(x, y),
            final(self).delta_x == x - old(self).last_x,
            final(self).delta_y == y - old(self).last_y,
    {
        self.delta_x = x - self.last_x;
        self.delta_y = y - self.last_y;
        self.last_x = x;
        self.last_y = y;
    }
}

} // verus!
