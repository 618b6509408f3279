//! What a cell of the grid offers to code that is written for any cell type.
use crate::hex::Hex;
use crate::walls::Walls;
use vstd::prelude::*;

verus! {

/// A value that sits at a position of the grid.
pub trait TilePosition {
    /// The position of the value.
    spec fn pos_spec(&self) -> Hex;

    /// The position of the value.
    fn pos(&self) -> (p: Hex)
        ensures
            p == self.pos_spec(),
    ;
}

/// A value that owns a wall set.
pub trait WallStorage {
    /// The wall set of the value.
    spec fn walls_spec(&self) -> Walls;

    /// The wall set of the value.
    fn walls(&self) -> (w: &Walls)
        ensures
            *w == self.walls_spec(),
    ;

    /// Lends the wall set out for editing: the value ends up with whatever
    /// walls the borrower leaves.
    fn walls_mut(&mut self) -> (w: &mut Walls)
        ensures
            *w == old(self).walls_spec(),
            final(self).walls_spec() == *final(w),
    ;
}

} // verus!
