//! The maze container: tiles indexed by their position.
use crate::errors::MazeError;
use crate::hex::{EdgeDirection, Hex};
use crate::hex_map::HexMap;
use crate::tile::{lemma_tile_parts, Tile};
use crate::traits::{TilePosition, WallStorage};
use crate::walls::Walls;
use vstd::prelude::*;

verus! {

/// A hexagonal maze: at most one tile per position, each with its walls.
///
/// Every tile is stored at its own position.
#[derive(Debug)]
pub struct Maze {
    tiles: HexMap<Tile>,
}

impl View for Maze {
    type V = Map<Hex, Walls>;

    /// The walls of each tile, by the tile's position.
    closed spec fn view(&self) -> Map<Hex, Walls> {
        Map::new(|h: Hex| self.tiles@.contains_key(h), |h: Hex| self.tiles@[h].walls)
    }
}

impl Maze {
    #[verifier::type_invariant]
    spec fn coherent(self) -> bool {
        forall|h: Hex| #[trigger] self.tiles@.contains_key(h) ==> self.tiles@[h].pos == h
    }

    /// Stores `tile` at its position and hands back what was stored there.
    fn store(&mut self, tile: Tile) -> (evicted: Option<Tile>)
        ensures
            final(self).tiles@ == old(self).tiles@.insert(tile.pos, tile),
            final(self)@ == old(self)@.insert(tile.pos, tile.walls),
            old(self)@.contains_key(tile.pos) <==> evicted is Some,
            evicted matches Some(t) ==> t.pos == tile.pos && t.walls == old(self)@[tile.pos],
    {
        proof {
            use_type_invariant(&*self);
        }
        // The map is taken out of the maze for the write and put back after
        // it, so that the maze holds a coherent map at every point.
        let mut tiles: HexMap<Tile> = HexMap::new();
        std::mem::swap(&mut self.tiles, &mut tiles);
        let evicted = tiles.insert(tile.pos, tile);
        std::mem::swap(&mut self.tiles, &mut tiles);
        proof {
            assert(self@ =~= old(self)@.insert(tile.pos, tile.walls));
        }
        evicted
    }

    /// A maze without tiles.
    pub fn new() -> (m: Maze)
        ensures
            m@ == Map::<Hex, Walls>::empty(),
    {
        let m = Maze { tiles: HexMap::new() };
        assert(m@ =~= Map::<Hex, Walls>::empty());
        m
    }

    /// Puts a fully walled tile at `coords`. A tile that was there before is
    /// replaced and returned.
    pub fn insert(&mut self, coords: Hex) -> (evicted: Option<Tile>)
        ensures
            final(self)@ == old(self)@.insert(coords, Walls::full()),
            old(self)@.contains_key(coords) <==> evicted is Some,
            evicted matches Some(t) ==> t.pos_spec() == coords && t.walls_spec() == old(self)@[coords],
    {
        let tile = Tile::new(coords);
        proof {
            lemma_tile_parts(tile);
        }
        let evicted = self.store(tile);
        proof {
            if let Some(t) = evicted {
                lemma_tile_parts(t);
            }
        }
        evicted
    }

    /// Puts a tile with the walls of `tile` at `coords`, whatever position
    /// `tile` was made for. A tile that was there before is replaced and
    /// returned.
    pub fn insert_with_tile(&mut self, coords: Hex, tile: Tile) -> (evicted: Option<Tile>)
        ensures
            final(self)@ == old(self)@.insert(coords, tile.walls_spec()),
            old(self)@.contains_key(coords) <==> evicted is Some,
            evicted matches Some(t) ==> t.pos_spec() == coords && t.walls_spec() == old(self)@[coords],
    {
        proof {
            lemma_tile_parts(tile);
        }
        let evicted = self.store(Tile { pos: coords, walls: tile.walls });
        proof {
            if let Some(t) = evicted {
                lemma_tile_parts(t);
            }
        }
        evicted
    }

    /// The tile at `coord`, if there is one.
    pub fn get(&self, coord: &Hex) -> (tile: Option<&Tile>)
        ensures
            self@.contains_key(*coord) <==> tile is Some,
            tile matches Some(t) ==> t.pos_spec() == *coord && t.walls_spec() == self@[*coord],
    {
        proof {
            use_type_invariant(self);
        }
        let tile = self.tiles.get(coord);
        proof {
            if let Some(t) = tile {
                lemma_tile_parts(*t);
            }
        }
        tile
    }

    /// Whether there is a tile at `coord`.
    pub fn contains(&self, coord: &Hex) -> (r: bool)
        ensures
            r == self@.contains_key(*coord),
    {
        self.tiles.contains_key(coord)
    }

    /// The walls of the tile at `coord`, if there is one.
    pub fn get_walls(&self, coord: &Hex) -> (walls: Option<&Walls>)
        ensures
            self@.contains_key(*coord) <==> walls is Some,
            walls matches Some(w) ==> *w == self@[*coord],
    {
        match self.get(coord) {
            Some(t) => Some(t.walls()),
            None => None,
        }
    }

    /// The number of tiles.
    pub fn len(&self) -> (n: usize)
        ensures
            n == self@.len(),
            self@.dom().finite(),
    {
        proof {
            self.lemma_same_positions();
        }
        self.tiles.len()
    }

    /// Whether the maze has no tile.
    pub fn is_empty(&self) -> (r: bool)
        ensures
            r == (self@.len() == 0),
            r == (self@ == Map::<Hex, Walls>::empty()),
            self@.dom().finite(),
    {
        proof {
            self.lemma_same_positions();
            if self@.len() == 0 {
                assert(self@.dom() =~= Set::<Hex>::empty());
                assert(self@ =~= Map::<Hex, Walls>::empty());
            }
        }
        self.tiles.is_empty()
    }

    /// The positions of the tiles, each once, in no particular order.
    pub fn keys(&self) -> (all: Vec<Hex>)
        ensures
            all@.no_duplicates(),
            all@.to_set() == self@.dom(),
            all@.len() == self@.len(),
    {
        proof {
            self.lemma_same_positions();
        }
        self.tiles.keys()
    }

    /// The tiles, each once, in no particular order.
    pub fn tiles(&self) -> (all: Vec<Tile>)
        ensures
            all@.len() == self@.len(),
            forall|i: int|
                0 <= i < all@.len() ==> self@.contains_key((#[trigger] all@[i]).pos_spec())
                    && all@[i].walls_spec() == self@[all@[i].pos_spec()],
            forall|i: int, j: int|
                0 <= i < j < all@.len() ==> all@[i].pos_spec() != all@[j].pos_spec(),
            forall|h: Hex|
                self@.contains_key(h) ==> exists|i: int|
                    0 <= i < all@.len() && (#[trigger] all@[i]).pos_spec() == h,
    {
        let keys = self.keys();
        let mut all: Vec<Tile> = Vec::new();
        let mut i: usize = 0;
        while i < keys.len()
            invariant
                i <= keys.len(),
                keys@.to_set() == self@.dom(),
                all@.len() == i,
                forall|j: int|
                    0 <= j < i ==> (#[trigger] all@[j]).pos_spec() == keys@[j]
                        && all@[j].walls_spec() == self@[keys@[j]],
            decreases keys.len() - i,
        {
            assert(keys@.to_set().contains(keys@[i as int]));
            match self.get(&keys[i]) {
                Some(t) => {
                    all.push(*t);
                },
                None => {},
            }
            i += 1;
        }
        proof {
            assert forall|j: int| 0 <= j < all@.len() implies self@.contains_key(
                (#[trigger] all@[j]).pos_spec(),
            ) by {
                assert(keys@.to_set().contains(keys@[j]));
            }
            assert forall|h: Hex| self@.contains_key(h) implies exists|j: int|
                0 <= j < all@.len() && (#[trigger] all@[j]).pos_spec() == h by {
                assert(keys@.to_set().contains(h));
                let j = choose|j: int| 0 <= j < keys@.len() && keys@[j] == h;
                assert(all@[j].pos_spec() == h);
            }
        }
        all
    }

    /// Puts a wall on the edge in direction `direction` of the tile at
    /// `coord` and says whether there was one. Without a tile at `coord`
    /// nothing changes and the position comes back as the error.
    pub fn add_tile_wall(&mut self, coord: &Hex, direction: EdgeDirection) -> (r: Result<
        bool,
        MazeError,
    >)
        ensures
            old(self)@.contains_key(*coord) ==> r == Ok::<bool, MazeError>(
                old(self)@[*coord].has(direction),
            ) && final(self)@ == old(self)@.insert(*coord, old(self)@[*coord].with(direction)),
            !old(self)@.contains_key(*coord) ==> r == Err::<bool, MazeError>(
                MazeError::InvalidCoordinate(*coord),
            ) && final(self)@ == old(self)@,
    {
        proof {
            use_type_invariant(&*self);
        }
        match self.tiles.get(coord) {
            Some(t) => {
                let mut walls = t.walls;
                let pos = t.pos;
                let was_present = walls.insert(direction);
                self.store(Tile { pos, walls });
                Ok(was_present)
            },
            None => Err(MazeError::InvalidCoordinate(*coord)),
        }
    }

    /// Takes the wall off the edge in direction `direction` of the tile at
    /// `coord` and says whether there was one. Without a tile at `coord`
    /// nothing changes and the position comes back as the error.
    pub fn remove_tile_wall(&mut self, coord: &Hex, direction: EdgeDirection) -> (r: Result<
        bool,
        MazeError,
    >)
        ensures
            old(self)@.contains_key(*coord) ==> r == Ok::<bool, MazeError>(
                old(self)@[*coord].has(direction),
            ) && final(self)@ == old(self)@.insert(*coord, old(self)@[*coord].without(direction)),
            !old(self)@.contains_key(*coord) ==> r == Err::<bool, MazeError>(
                MazeError::InvalidCoordinate(*coord),
            ) && final(self)@ == old(self)@,
    {
        proof {
            use_type_invariant(&*self);
        }
        match self.tiles.get(coord) {
            Some(t) => {
                let mut walls = t.walls;
                let pos = t.pos;
                let was_present = walls.remove(direction);
                self.store(Tile { pos, walls });
                Ok(was_present)
            },
            None => Err(MazeError::InvalidCoordinate(*coord)),
        }
    }

    /// The maze has finitely many tiles, no more than a `usize` can count.
    pub proof fn lemma_finite(&self)
        ensures
            self@.dom().finite(),
            self@.len() <= usize::MAX,
    {
        self.lemma_same_positions();
    }

    /// The walls are indexed by the positions that hold a tile.
    proof fn lemma_same_positions(&self)
        ensures
            self@.dom() == self.tiles@.dom(),
            self@.dom().finite(),
            self@.len() <= usize::MAX,
    {
        self.tiles.lemma_dom_finite();
        assert(self@.dom() =~= self.tiles@.dom());
    }
}

impl Clone for Maze {
    fn clone(&self) -> (copy: Maze)
        ensures
            copy@ == self@,
    {
        let mut copy = Maze::new();
        let all = self.tiles.keys();
        let mut i: usize = 0;
        proof {
            use_type_invariant(self);
            self.lemma_same_positions();
        }
        while i < all.len()
            invariant
                i <= all.len(),
                all@.to_set() == self@.dom(),
                forall|h: Hex| #[trigger] self.tiles@.contains_key(h) ==> self.tiles@[h].pos == h,
                self@.dom() == self.tiles@.dom(),
                forall|h: Hex|
                    copy@.contains_key(h) <==> exists|j: int| 0 <= j < i && all@[j] == h,
                forall|h: Hex| #[trigger] copy@.contains_key(h) ==> copy@[h] == self@[h],
            decreases all.len() - i,
        {
            let h = all[i];
            assert(all@.to_set().contains(h));
            let ghost before = copy@;
            match self.tiles.get(&h) {
                Some(t) => {
                    copy.store(*t);
                },
                None => {},
            }
            proof {
                assert forall|g: Hex|
                    copy@.contains_key(g) <==> exists|j: int| 0 <= j < i + 1 && all@[j] == g by {
                    if before.contains_key(g) {
                        let j = choose|j: int| 0 <= j < i && all@[j] == g;
                        assert(0 <= j < i + 1 && all@[j] == g);
                    }
                    if exists|j: int| 0 <= j < i + 1 && all@[j] == g {
                        let j = choose|j: int| 0 <= j < i + 1 && all@[j] == g;
                        if j < i {
                            assert(before.contains_key(g));
                        }
                    }
                }
            }
            i += 1;
        }
        proof {
            assert forall|h: Hex| copy@.contains_key(h) <==> self@.contains_key(h) by {
                if self@.contains_key(h) {
                    assert(all@.to_set().contains(h));
                    let j = choose|j: int| 0 <= j < all@.len() && all@[j] == h;
                    assert(0 <= j < i && all@[j] == h);
                }
                if copy@.contains_key(h) {
                    let j = choose|j: int| 0 <= j < i && all@[j] == h;
                    assert(all@.to_set().contains(all@[j]));
                }
            }
            assert(copy@ =~= self@);
        }
        copy
    }
}

impl Default for Maze {
    /// A maze without tiles.
    fn default() -> (m: Maze)
        ensures
            m@ == Map::<Hex, Walls>::empty(),
    {
        Maze::new()
    }
}

impl PartialEq for Maze {
    /// Two mazes are equal if they have tiles at the same positions, with
    /// the same walls.
    fn eq(&self, other: &Maze) -> (r: bool) {
        if self.tiles.len() != other.tiles.len() {
            proof {
                self.lemma_same_positions();
                other.lemma_same_positions();
            }
            return false;
        }
        let all = self.tiles.keys();
        let mut i: usize = 0;
        proof {
            use_type_invariant(self);
            use_type_invariant(other);
            self.lemma_same_positions();
            other.lemma_same_positions();
        }
        while i < all.len()
            invariant
                i <= all.len(),
                all@.to_set() == self@.dom(),
                forall|j: int|
                    0 <= j < i ==> other@.contains_key(#[trigger] all@[j]) && other@[all@[j]]
                        == self@[all@[j]],
            decreases all.len() - i,
        {
            let h = all[i];
            assert(all@.to_set().contains(h));
            match (self.get_walls(&h), other.get_walls(&h)) {
                (Some(a), Some(b)) => {
                    if a.as_bits() != b.as_bits() {
                        return false;
                    }
                    proof {
                        a.lemma_of_bits(0);
                        b.lemma_of_bits(0);
                    }
                },
                _ => {
                    return false;
                },
            }
            i += 1;
        }
        proof {
            assert forall|h: Hex| self@.dom().contains(h) implies other@.dom().contains(h) by {
                assert(all@.to_set().contains(h));
                let j = choose|j: int| 0 <= j < all@.len() && all@[j] == h;
                assert(other@.contains_key(all@[j]));
            }
            assert(self@.dom().subset_of(other@.dom()));
            vstd::set_lib::lemma_subset_equality(self@.dom(), other@.dom());
            assert forall|h: Hex| self@.dom().contains(h) implies self@[h] == other@[h] by {
                assert(all@.to_set().contains(h));
                let j = choose|j: int| 0 <= j < all@.len() && all@[j] == h;
                assert(other@.contains_key(all@[j]));
            }
            assert(self@ =~= other@);
        }
        true
    }
}

impl vstd::std_specs::cmp::PartialEqSpecImpl for Maze {
    open spec fn obeys_eq_spec() -> bool {
        true
    }

    open spec fn eq_spec(&self, other: &Maze) -> bool {
        self@ == other@
    }
}

impl Eq for Maze {

}

} // verus!
