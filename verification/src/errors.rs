//! The errors that the library returns.
use crate::hex::Hex;
use vstd::prelude::*;

verus! {

/// Why a maze could not be built from a configuration.
#[derive(Clone, Copy, Debug, PartialEq, Eq, Structural)]
pub enum MazeBuilderError {
    /// No radius was given.
    NoRadius,
    /// The start position is not a tile of the shaped grid.
    InvalidStartPosition(Hex),
}

/// Why an edit of a maze was refused.
#[derive(Clone, Copy, Debug, PartialEq, Eq, Structural)]
pub enum MazeError {
    /// The maze has no tile at the position.
    InvalidCoordinate(Hex),
}

} // verus!
