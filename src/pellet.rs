use vstd::prelude::*;

use crate::world::Position;

verus! {

/// A collectible item: where it lies and how many points it is worth.
#[derive(Clone, Copy, Debug, PartialEq, Eq)]
pub struct Pellet {
    pub pos: Position,
    pub value: i32,
}

impl Pellet {
    pub fn new(pos: Position, value: i32) -> (r: Self)
        ensures
            r.pos == pos,
            r.value == value,
    {
        Pellet { pos, value }
    }

    pub fn pos(&self) -> (r: Position)
        ensures
            r == self.pos,
    {
        self.pos
    }

    pub fn value(&self) -> (r: i32)
        ensures
            r == self.value,
    {
        self.value
    }
}

} // verus!
