//! A tile of the maze: a position and the walls around it.
use crate::hex::Hex;
use crate::traits::{TilePosition, WallStorage};
use crate::walls::Walls;
use vstd::prelude::*;

verus! {

/// One cell of the grid.
#[derive(Clone, Copy, Debug, PartialEq, Eq, Structural)]
pub struct Tile {
    pub(crate) pos: Hex,
    pub(crate) walls: Walls,
}

/// The text that names the tile at `(x, y)`: the two coordinates in decimal,
/// with a comma between them, in round brackets.
pub uninterp spec fn tile_label(x: i32, y: i32) -> Seq<char>;

/// `format!` with the pattern `({},{})`: the two numbers as `Display` writes
/// them, in decimal, between the brackets and the comma of the pattern.
#[verifier::external_body]
fn label_of(x: i32, y: i32) -> (label: String)
    ensures
        label@ == tile_label(x, y),
{
    format!("({},{})", x, y)
}

impl Tile {
    /// The tile at `pos` with walls on all six edges.
    pub closed spec fn at(pos: Hex) -> Tile {
        Tile { pos, walls: Walls::full() }
    }

    /// The tile at `pos` with walls on all six edges.
    pub fn new(pos: Hex) -> (t: Tile)
        ensures
            t == Tile::at(pos),
            t.pos_spec() == pos,
            t.walls_spec() == Walls::full(),
    {
        Tile { pos, walls: Walls::new() }
    }

    /// The position of the tile as text, such as `(3,-3)`.
    pub fn to_string(&self) -> (label: String)
        ensures
            label@ == tile_label(self.pos_spec().x, self.pos_spec().y),
    {
        label_of(self.pos.x, self.pos.y)
    }
}

impl From<Hex> for Tile {
    /// The tile at `pos` with walls on all six edges.
    fn from(pos: Hex) -> (t: Tile) {
        Tile { pos, walls: Walls::new() }
    }
}

impl vstd::std_specs::convert::FromSpecImpl<Hex> for Tile {
    open spec fn obeys_from_spec() -> bool {
        true
    }

    open spec fn from_spec(pos: Hex) -> Tile {
        Tile::at(pos)
    }
}

/// A tile is its position and its walls: two tiles with the same position
/// and the same walls are the same tile, and a new tile has the position it
/// was made for and walls on all six edges.
pub proof fn lemma_tile(a: Tile, b: Tile, pos: Hex)
    ensures
        a.pos_spec() == b.pos_spec() && a.walls_spec() == b.walls_spec() ==> a == b,
        Tile::at(pos).pos_spec() == pos,
        Tile::at(pos).walls_spec() == Walls::full(),
{
}

/// The two parts of a tile are its fields.
pub(crate) proof fn lemma_tile_parts(t: Tile)
    ensures
        t.pos_spec() == t.pos,
        t.walls_spec() == t.walls,
        Tile::at(t.pos).pos_spec() == t.pos,
        Tile::at(t.pos).walls_spec() == Walls::full(),
{
}

impl TilePosition for Tile {
    closed spec fn pos_spec(&self) -> Hex {
        self.pos
    }

    fn pos(&self) -> (p: Hex) {
        self.pos
    }
}

impl WallStorage for Tile {
    closed spec fn walls_spec(&self) -> Walls {
        self.walls
    }

    fn walls(&self) -> (w: &Walls) {
        &self.walls
    }

    fn walls_mut(&mut self) -> (w: &mut Walls)
        ensures
            final(self).pos_spec() == old(self).pos_spec(),
    {
        &mut self.walls
    }
}

impl Default for Tile {
    /// The tile at the origin with walls on all six edges.
    fn default() -> (t: Tile)
        ensures
            t.pos_spec() == Hex::origin(),
            t.walls_spec() == Walls::full(),
    {
        Tile { pos: Hex::zero(), walls: Walls::new() }
    }
}

} // verus!
