//! Axial positions on a hexagonal grid and the six edge directions around one.
use vstd::prelude::*;

verus! {

/// One of the six edges of a hexagon, in clockwise order starting at the
/// edge that faces `(1, 0)`.
#[derive(Clone, Copy, Debug, PartialEq, Eq, Hash, Structural)]
pub enum EdgeDirection {
    /// Towards `(1, 0)`.
    SouthEast,
    /// Towards `(0, 1)`.
    South,
    /// Towards `(-1, 1)`.
    SouthWest,
    /// Towards `(-1, 0)`.
    NorthWest,
    /// Towards `(0, -1)`.
    North,
    /// Towards `(1, -1)`.
    NorthEast,
}

impl EdgeDirection {
    /// All six directions, each at the place of its index.
    pub const ALL_DIRECTIONS: [EdgeDirection; 6] = [
        EdgeDirection::SouthEast,
        EdgeDirection::South,
        EdgeDirection::SouthWest,
        EdgeDirection::NorthWest,
        EdgeDirection::North,
        EdgeDirection::NorthEast,
    ];

    /// The edge towards `(1, 0)`, as it is called on a grid of flat-topped hexagons.
    pub const FLAT_SOUTH_EAST: EdgeDirection = EdgeDirection::SouthEast;

    /// The edge towards `(1, 0)`, as it is called on a grid of flat-topped hexagons.
    pub const FLAT_BOTTOM_RIGHT: EdgeDirection = EdgeDirection::SouthEast;

    /// The edge towards `(1, 0)`, as it is called on a grid of pointy-topped hexagons.
    pub const POINTY_EAST: EdgeDirection = EdgeDirection::SouthEast;

    /// The edge towards `(1, 0)`, as it is called on a grid of pointy-topped hexagons.
    pub const POINTY_RIGHT: EdgeDirection = EdgeDirection::SouthEast;

    /// The edge towards `(0, 1)`, as it is called on a grid of flat-topped hexagons.
    pub const FLAT_SOUTH: EdgeDirection = EdgeDirection::South;

    /// The edge towards `(0, 1)`, as it is called on a grid of flat-topped hexagons.
    pub const FLAT_BOTTOM: EdgeDirection = EdgeDirection::South;

    /// The edge towards `(0, 1)`, as it is called on a grid of pointy-topped hexagons.
    pub const POINTY_SOUTH_EAST: EdgeDirection = EdgeDirection::South;

    /// The edge towards `(0, 1)`, as it is called on a grid of pointy-topped hexagons.
    pub const POINTY_BOTTOM_RIGHT: EdgeDirection = EdgeDirection::South;

    /// The edge towards `(-1, 1)`, as it is called on a grid of flat-topped hexagons.
    pub const FLAT_SOUTH_WEST: EdgeDirection = EdgeDirection::SouthWest;

    /// The edge towards `(-1, 1)`, as it is called on a grid of flat-topped hexagons.
    pub const FLAT_BOTTOM_LEFT: EdgeDirection = EdgeDirection::SouthWest;

    /// The edge towards `(-1, 1)`, as it is called on a grid of pointy-topped hexagons.
    pub const POINTY_SOUTH_WEST: EdgeDirection = EdgeDirection::SouthWest;

    /// The edge towards `(-1, 1)`, as it is called on a grid of pointy-topped hexagons.
    pub const POINTY_BOTTOM_LEFT: EdgeDirection = EdgeDirection::SouthWest;

    /// The edge towards `(-1, 0)`, as it is called on a grid of flat-topped hexagons.
    pub const FLAT_NORTH_WEST: EdgeDirection = EdgeDirection::NorthWest;

    /// The edge towards `(-1, 0)`, as it is called on a grid of flat-topped hexagons.
    pub const FLAT_TOP_LEFT: EdgeDirection = EdgeDirection::NorthWest;

    /// The edge towards `(-1, 0)`, as it is called on a grid of pointy-topped hexagons.
    pub const POINTY_WEST: EdgeDirection = EdgeDirection::NorthWest;

    /// The edge towards `(-1, 0)`, as it is called on a grid of pointy-topped hexagons.
    pub const POINTY_LEFT: EdgeDirection = EdgeDirection::NorthWest;

    /// The edge towards `(0, -1)`, as it is called on a grid of flat-topped hexagons.
    pub const FLAT_NORTH: EdgeDirection = EdgeDirection::North;

    /// The edge towards `(0, -1)`, as it is called on a grid of flat-topped hexagons.
    pub const FLAT_TOP: EdgeDirection = EdgeDirection::North;

    /// The edge towards `(0, -1)`, as it is called on a grid of pointy-topped hexagons.
    pub const POINTY_NORTH_WEST: EdgeDirection = EdgeDirection::North;

    /// The edge towards `(0, -1)`, as it is called on a grid of pointy-topped hexagons.
    pub const POINTY_TOP_LEFT: EdgeDirection = EdgeDirection::North;

    /// The edge towards `(1, -1)`, as it is called on a grid of flat-topped hexagons.
    pub const FLAT_NORTH_EAST: EdgeDirection = EdgeDirection::NorthEast;

    /// The edge towards `(1, -1)`, as it is called on a grid of flat-topped hexagons.
    pub const FLAT_TOP_RIGHT: EdgeDirection = EdgeDirection::NorthEast;

    /// The edge towards `(1, -1)`, as it is called on a grid of pointy-topped hexagons.
    pub const POINTY_NORTH_EAST: EdgeDirection = EdgeDirection::NorthEast;

    /// The edge towards `(1, -1)`, as it is called on a grid of pointy-topped hexagons.
    pub const POINTY_TOP_RIGHT: EdgeDirection = EdgeDirection::NorthEast;

    /// The stable index of the direction, from 0 to 5.
    pub open spec fn index_spec(self) -> u8 {
        match self {
            EdgeDirection::SouthEast => 0,
            EdgeDirection::South => 1,
            EdgeDirection::SouthWest => 2,
            EdgeDirection::NorthWest => 3,
            EdgeDirection::North => 4,
            EdgeDirection::NorthEast => 5,
        }
    }

    /// The direction with the given index; indices wrap around after 5.
    pub open spec fn nth(i: int) -> EdgeDirection {
        let k = i % 6;
        if k == 0 {
            EdgeDirection::SouthEast
        } else if k == 1 {
            EdgeDirection::South
        } else if k == 2 {
            EdgeDirection::SouthWest
        } else if k == 3 {
            EdgeDirection::NorthWest
        } else if k == 4 {
            EdgeDirection::North
        } else {
            EdgeDirection::NorthEast
        }
    }

    /// The direction that points the other way.
    pub open spec fn opposite_spec(self) -> EdgeDirection {
        Self::nth(self.index_spec() + 3)
    }

    /// The step that this direction makes in axial coordinates.
    pub open spec fn offset(self) -> (int, int) {
        match self {
            EdgeDirection::SouthEast => (1, 0),
            EdgeDirection::South => (0, 1),
            EdgeDirection::SouthWest => (-1, 1),
            EdgeDirection::NorthWest => (-1, 0),
            EdgeDirection::North => (0, -1),
            EdgeDirection::NorthEast => (1, -1),
        }
    }

    /// The stable index of the direction, from 0 to 5.
    #[verifier::when_used_as_spec(index_spec)]
    pub fn index(self) -> (i: u8)
        ensures
            i == self.index_spec(),
            i < 6,
    {
        match self {
            EdgeDirection::SouthEast => 0,
            EdgeDirection::South => 1,
            EdgeDirection::SouthWest => 2,
            EdgeDirection::NorthWest => 3,
            EdgeDirection::North => 4,
            EdgeDirection::NorthEast => 5,
        }
    }

    /// The direction with index `i % 6`.
    pub fn from_index(i: u8) -> (d: EdgeDirection)
        ensures
            d == Self::nth(i as int),
            i < 6 ==> d.index_spec() == i,
    {
        let k: u8 = i % 6;
        if k == 0 {
            EdgeDirection::SouthEast
        } else if k == 1 {
            EdgeDirection::South
        } else if k == 2 {
            EdgeDirection::SouthWest
        } else if k == 3 {
            EdgeDirection::NorthWest
        } else if k == 4 {
            EdgeDirection::North
        } else {
            EdgeDirection::NorthEast
        }
    }

    /// All six directions, each at the place of its index.
    pub fn all_directions() -> (all: [EdgeDirection; 6])
        ensures
            forall|i: int| 0 <= i < 6 ==> all[i] == Self::nth(i),
            forall|i: int| 0 <= i < 6 ==> (#[trigger] all[i]).index_spec() == i,
            forall|d: EdgeDirection| all[d.index_spec() as int] == d,
    {
        [
            EdgeDirection::SouthEast,
            EdgeDirection::South,
            EdgeDirection::SouthWest,
            EdgeDirection::NorthWest,
            EdgeDirection::North,
            EdgeDirection::NorthEast,
        ]
    }

    /// The direction that points the other way.
    #[verifier::when_used_as_spec(opposite_spec)]
    pub fn opposite(self) -> (d: EdgeDirection)
        ensures
            d == self.opposite_spec(),
    {
        Self::from_index(self.index() + 3)
    }

    /// Turning round twice gives the direction back, and the two steps cancel.
    pub proof fn lemma_opposite(self)
        ensures
            self.opposite_spec().opposite_spec() == self,
            self.opposite_spec() != self,
            self.opposite_spec().offset().0 == -self.offset().0,
            self.opposite_spec().offset().1 == -self.offset().1,
    {
    }
}

/// A position on the grid in axial coordinates.
#[derive(Clone, Copy, Debug, PartialEq, Eq, Hash, Structural)]
pub struct Hex {
    pub x: i32,
    pub y: i32,
}

impl Hex {
    /// The origin of the grid.
    pub open spec fn origin() -> Hex {
        Hex { x: 0, y: 0 }
    }

    /// The position one step away in direction `d`, where the grid has one.
    pub open spec fn neighbor_spec(self, d: EdgeDirection) -> Option<Hex> {
        let x = self.x + d.offset().0;
        let y = self.y + d.offset().1;
        if i32::MIN <= x <= i32::MAX && i32::MIN <= y <= i32::MAX {
            Some(Hex { x: x as i32, y: y as i32 })
        } else {
            None
        }
    }

    /// The number of steps between two positions on a grid without walls:
    /// half the sum of the differences of the three cube coordinates, the
    /// third of which is minus the sum of the other two.
    pub open spec fn distance_spec(self, other: Hex) -> nat {
        let dx = self.x - other.x;
        let dy = self.y - other.y;
        let dz = -dx - dy;
        ((vstd::math::abs(dx) + vstd::math::abs(dy) + vstd::math::abs(dz)) / 2) as nat
    }

    /// The key under which a position is stored: both coordinates shifted
    /// into the unsigned range, `x` in the high half and `y` in the low half.
    pub open spec fn key_spec(self) -> u64 {
        ((self.x + 0x8000_0000) * 0x1_0000_0000 + (self.y + 0x8000_0000)) as u64
    }

    /// The position that is stored under the key `k`.
    pub open spec fn of_key(k: u64) -> Hex {
        Hex {
            x: (k / 0x1_0000_0000 - 0x8000_0000) as i32,
            y: (k % 0x1_0000_0000 - 0x8000_0000) as i32,
        }
    }

    /// The position with the axial coordinates `x` and `y`.
    pub fn new(x: i32, y: i32) -> (h: Hex)
        ensures
            h == (Hex { x, y }),
    {
        Hex { x, y }
    }

    /// The origin of the grid.
    pub fn zero() -> (h: Hex)
        ensures
            h == Hex::origin(),
    {
        Hex { x: 0, y: 0 }
    }

    /// The position one step away in direction `d`, or `None` where the
    /// step would leave the range of the coordinates.
    #[verifier::when_used_as_spec(neighbor_spec)]
    pub fn neighbor(self, d: EdgeDirection) -> (n: Option<Hex>)
        ensures
            n == self.neighbor_spec(d),
    {
        let (dx, dy): (i32, i32) = match d {
            EdgeDirection::SouthEast => (1, 0),
            EdgeDirection::South => (0, 1),
            EdgeDirection::SouthWest => (-1, 1),
            EdgeDirection::NorthWest => (-1, 0),
            EdgeDirection::North => (0, -1),
            EdgeDirection::NorthEast => (1, -1),
        };
        match (self.x.checked_add(dx), self.y.checked_add(dy)) {
            (Some(x), Some(y)) => Some(Hex { x, y }),
            _ => None,
        }
    }

    /// The number of steps between two positions on a grid without walls:
    /// half the sum of the differences of the three cube coordinates.
    pub fn distance_to(self, other: Hex) -> (n: u64)
        ensures
            n == self.distance_spec(other),
    {
        let dx: i64 = self.x as i64 - other.x as i64;
        let dy: i64 = self.y as i64 - other.y as i64;
        let dz: i64 = -dx - dy;
        let ax: i64 = if dx < 0 { -dx } else { dx };
        let ay: i64 = if dy < 0 { -dy } else { dy };
        let az: i64 = if dz < 0 { -dz } else { dz };
        ((ax + ay + az) / 2) as u64
    }

    /// The key under which the position is stored.
    #[verifier::when_used_as_spec(key_spec)]
    pub fn key(self) -> (k: u64)
        ensures
            k == self.key_spec(),
    {
        let hi: u64 = (self.x as i64 + 0x8000_0000) as u64;
        let lo: u64 = (self.y as i64 + 0x8000_0000) as u64;
        hi * 0x1_0000_0000 + lo
    }

    /// The position that is stored under `k`.
    pub fn from_key(k: u64) -> (h: Hex)
        ensures
            h == Hex::of_key(k),
            h.key_spec() == k,
    {
        let hi: u64 = k / 0x1_0000_0000;
        let lo: u64 = k % 0x1_0000_0000;
        Hex { x: (hi as i64 - 0x8000_0000) as i32, y: (lo as i64 - 0x8000_0000) as i32 }
    }

    /// Every key is the key of the position stored under it.
    pub proof fn lemma_of_key(k: u64)
        ensures
            Hex::of_key(k).key_spec() == k,
    {
    }

    /// Two positions share a key only if they are the same position.
    pub proof fn lemma_key_injective(a: Hex, b: Hex)
        ensures
            a.key_spec() == b.key_spec() <==> a == b,
    {
    }

    /// A step and the step back: `b` lies in direction `d` of `a` exactly if
    /// `a` lies in the opposite direction of `b`.
    pub proof fn lemma_neighbor_symmetric(a: Hex, b: Hex, d: EdgeDirection)
        ensures
            a.neighbor_spec(d) == Some(b) <==> b.neighbor_spec(d.opposite_spec()) == Some(a),
            a.neighbor_spec(d) != Some(a),
    {
        d.lemma_opposite();
    }

    /// The distance is zero only between a position and itself, and one step
    /// changes it by at most one.
    pub proof fn lemma_distance_step(a: Hex, b: Hex, d: EdgeDirection, goal: Hex)
        requires
            a.neighbor_spec(d) == Some(b),
        ensures
            a.distance_spec(goal) <= b.distance_spec(goal) + 1,
            (a.distance_spec(goal) == 0) <==> a == goal,
    {
    }
}

} // verus!
