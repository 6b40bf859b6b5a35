//! Hit points of towers, enemies and goals. Combat resolution is the
//! surrounding simulation's business; the cost model only reads the values.

use vstd::prelude::*;

verus! {

/// Current and maximum hit points of an entity.
#[derive(Clone, Copy, PartialEq, Eq, Structural, Debug)]
pub struct Health {
    pub current: isize,
    pub max: isize,
}

impl Health {
    pub fn new(max: isize) -> (r: Self)
        ensures
            r.current == max,
            r.max == max,
    {
        Health { current: max, max }
    }

    /// Subtract `amount` hit points; the result may go below zero, which
    /// callers read as destroyed.
    pub fn apply_damage(&mut self, amount: isize)
        requires
            isize::MIN <= old(self).current - amount <= isize::MAX,
        ensures
            final(self).current == old(self).current - amount,
            final(self).max == old(self).max,
    {
        self.current = self.current - amount;
    }
}

} // verus!
