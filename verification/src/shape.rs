//! The hexagonal grids that mazes are carved from.
use crate::hex::Hex;
use crate::maze::Maze;
use crate::perfect::{
    connected, faces, fresh, lemma_linked_hop, lemma_linked_self, lemma_linked_trans, linked,
};
use crate::hex::EdgeDirection;
use crate::walls::Walls;
use vstd::prelude::*;

verus! {

/// Whether `h` lies in the hexagon of the given radius around the origin:
/// none of its three cube coordinates is further from zero than the radius.
pub open spec fn in_hexagon(h: Hex, radius: int) -> bool {
    &&& -radius <= h.x <= radius
    &&& -radius <= h.y <= radius
    &&& -radius <= h.x + h.y <= radius
}

/// The fully walled hexagon of the given radius.
pub open spec fn hexagon(radius: int) -> Map<Hex, Walls> {
    Map::new(|h: Hex| in_hexagon(h, radius), |h: Hex| Walls::full())
}

/// The number of tiles of a hexagon of the given radius.
pub open spec fn hexagon_size(radius: int) -> int {
    3 * radius * radius + 3 * radius + 1
}

/// Whether `h` comes before `(q, r)` when the hexagon is walked column by
/// column, each column from its lowest `y` up.
spec fn shaped_before(h: Hex, radius: int, q: int, r: int) -> bool {
    in_hexagon(h, radius) && (h.x < q || (h.x == q && h.y < r))
}

/// The lowest `y` of the column `q` of the hexagon.
spec fn column_low(radius: int, q: int) -> int {
    if q <= 0 {
        -q - radius
    } else {
        -radius
    }
}

/// The highest `y` of the column `q` of the hexagon.
spec fn column_high(radius: int, q: int) -> int {
    if q <= 0 {
        radius
    } else {
        -q + radius
    }
}

/// Twice the number of tiles in the columns before column `q`.
spec fn twice_tiles_before(radius: int, q: int) -> int {
    if q <= 0 {
        (q + radius) * (3 * radius + 1 + q)
    } else {
        radius * (3 * radius + 1) + q * (4 * radius + 3 - q)
    }
}

proof fn lemma_column_step(radius: int, q: int)
    requires
        0 <= radius,
        -radius <= q <= radius,
    ensures
        twice_tiles_before(radius, q + 1) == twice_tiles_before(radius, q) + 2 * (column_high(
            radius,
            q,
        ) - column_low(radius, q) + 1),
        twice_tiles_before(radius, -radius) == 0,
        twice_tiles_before(radius, radius + 1) == 2 * hexagon_size(radius),
{
    if q < 0 {
        assert((q + 1 + radius) * (3 * radius + 1 + q + 1) == (q + radius) * (3 * radius + 1 + q)
            + 2 * (radius - (-q - radius) + 1)) by (nonlinear_arith);
    } else if q == 0 {
        assert(radius * (3 * radius + 1) + 1 * (4 * radius + 3 - 1) == (0 + radius) * (3 * radius
            + 1 + 0) + 2 * (radius - (-0 - radius) + 1)) by (nonlinear_arith);
    } else {
        assert(radius * (3 * radius + 1) + (q + 1) * (4 * radius + 3 - (q + 1)) == radius * (3
            * radius + 1) + q * (4 * radius + 3 - q) + 2 * ((-q + radius) - (-radius) + 1))
            by (nonlinear_arith);
    }
    assert((-radius + radius) * (3 * radius + 1 + -radius) == 0) by (nonlinear_arith);
    if radius + 1 > 0 {
        assert(radius * (3 * radius + 1) + (radius + 1) * (4 * radius + 3 - (radius + 1)) == 2 * (3
            * radius * radius + 3 * radius + 1)) by (nonlinear_arith);
    }
}

/// The direction in which a step from `h` leads closer to the origin.
spec fn inward(h: Hex) -> EdgeDirection {
    if h.x > 0 {
        if h.y < 0 {
            EdgeDirection::SouthWest
        } else {
            EdgeDirection::NorthWest
        }
    } else if h.x < 0 {
        if h.y > 0 {
            EdgeDirection::NorthEast
        } else {
            EdgeDirection::SouthEast
        }
    } else if h.y > 0 {
        EdgeDirection::North
    } else {
        EdgeDirection::South
    }
}

/// Neighbouring tiles link every tile of the hexagon with the origin, in
/// both directions.
proof fn lemma_linked_to_origin(radius: int, h: Hex)
    requires
        0 <= radius,
        in_hexagon(h, radius),
    ensures
        linked(hexagon(radius), Hex::origin(), h),
        linked(hexagon(radius), h, Hex::origin()),
    decreases vstd::math::abs(h.x as int) + vstd::math::abs(h.y as int) + vstd::math::abs(
        h.x + h.y,
    ),
{
    let origin = Hex::origin();
    let m = hexagon(radius);
    if h == origin {
        lemma_linked_self(m, origin);
    } else {
        let d = inward(h);
        let n = h.neighbor_spec(d).unwrap();
        assert(in_hexagon(n, radius));
        lemma_linked_to_origin(radius, n);
        Hex::lemma_neighbor_symmetric(h, n, d);
        assert(faces(m, n, d.opposite_spec(), h));
        lemma_linked_hop(m, origin, n, d.opposite_spec(), h);
        lemma_linked_trans(m, h, n, origin);
    }
}

/// The hexagon is fully walled and in one piece.
pub proof fn lemma_hexagon(radius: int)
    requires
        0 <= radius,
    ensures
        fresh(hexagon(radius)),
        connected(hexagon(radius)),
        hexagon(radius).contains_key(Hex::origin()),
        forall|h: Hex| #[trigger] hexagon(radius).contains_key(h) <==> in_hexagon(h, radius),
        forall|h: Hex| #[trigger]
            hexagon(radius).contains_key(h) ==> hexagon(radius)[h].count_spec() == 6,
{
    let m = hexagon(radius);
    assert forall|a: Hex, b: Hex| m.contains_key(a) && m.contains_key(b) implies #[trigger] linked(
        m,
        a,
        b,
    ) by {
        lemma_linked_to_origin(radius, a);
        lemma_linked_to_origin(radius, b);
        lemma_linked_trans(m, a, Hex::origin(), b);
    }
    Walls::full().lemma_count();
}

/// The fully walled hexagon of the given radius around the origin.
#[verifier::rlimit(40)]
pub fn create_hex_maze(radius: u16) -> (maze: Maze)
    ensures
        maze@ == hexagon(radius as int),
        maze@.len() == hexagon_size(radius as int),
        forall|h: Hex| #[trigger] maze@.contains_key(h) ==> maze@[h].count_spec() == 6,
{
    let mut maze = Maze::new();
    let radius: i32 = radius as i32;
    let mut q: i32 = -radius;
    proof {
        lemma_column_step(radius as int, q as int);
        assert(maze@.dom() =~= Set::<Hex>::empty());
    }
    while q <= radius
        invariant
            0 <= radius <= 0xffff,
            -radius <= q <= radius + 1,
            maze@.dom().finite(),
            forall|h: Hex| maze@.contains_key(h) <==> shaped_before(h, radius as int, q as int, i32::MIN as int),
            forall|h: Hex| #[trigger] maze@.contains_key(h) ==> maze@[h] == Walls::full(),
            2 * maze@.len() == twice_tiles_before(radius as int, q as int),
        decreases radius + 1 - q,
    {
        let r1: i32 = if -radius > -q - radius {
            -radius
        } else {
            -q - radius
        };
        let r2: i32 = if radius < -q + radius {
            radius
        } else {
            -q + radius
        };
        let mut r: i32 = r1;
        while r <= r2
            invariant
                0 <= radius <= 0xffff,
                -radius <= q <= radius,
                r1 == column_low(radius as int, q as int),
                r2 == column_high(radius as int, q as int),
                r1 <= r <= r2 + 1,
                maze@.dom().finite(),
                forall|h: Hex|
                    maze@.contains_key(h) <==> shaped_before(h, radius as int, q as int, r as int),
                forall|h: Hex| #[trigger] maze@.contains_key(h) ==> maze@[h] == Walls::full(),
                2 * maze@.len() == twice_tiles_before(radius as int, q as int) + 2 * (r - r1),
            decreases r2 + 1 - r,
        {
            let pos = Hex::new(q, r);
            let ghost before = maze@;
            assert(!before.contains_key(pos));
            maze.insert(pos);
            proof {
                assert(maze@.dom() =~= before.dom().insert(pos));
            }
            r += 1;
        }
        proof {
            lemma_column_step(radius as int, q as int);
        }
        q += 1;
    }
    proof {
        lemma_column_step(radius as int, radius as int);
        assert(maze@ =~= hexagon(radius as int));
        lemma_hexagon(radius as int);
    }
    maze
}

} // verus!
