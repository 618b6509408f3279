//! Carving a maze by a depth-first walk.
//!
//! The walk starts on one tile. On each tile it reaches it takes the next of
//! the orders it was given, a sequence of the six directions, and tries the
//! directions in that order: where a direction leads to a tile that the walk
//! has not reached yet, it opens the wall between the two tiles from both
//! sides and goes on from the new tile; when all six are tried it goes back
//! to the tile it came from. The walk keeps the tiles it stands on in a
//! stack of its own, so that its depth is not bounded by the call stack.
use crate::hex::{EdgeDirection, Hex};
use crate::hex_map::HexMap;
use crate::maze::Maze;
use crate::walls::Walls;
use vstd::prelude::*;

verus! {

/// One level of the walk: the tile it stands on, which of the orders it
/// follows there, and how many directions of that order it has tried.
pub struct Frame {
    pub pos: Hex,
    pub slot: nat,
    pub next: nat,
}

/// The state of a walk: the walls as they are, the tiles reached, the levels
/// from the start down to the tile the walk stands on, and the number of
/// orders taken.
pub struct Carving {
    pub walls: Map<Hex, Walls>,
    pub visited: Set<Hex>,
    pub stack: Seq<Frame>,
    pub drawn: nat,
}

/// The direction at place `k` of the order in `slot`; where the orders run
/// out, the directions in the order of their indices.
pub open spec fn order_at(orders: Seq<Seq<EdgeDirection>>, slot: nat, k: nat) -> EdgeDirection {
    if slot < orders.len() && k < orders[slot as int].len() {
        orders[slot as int][k as int]
    } else {
        EdgeDirection::nth(k as int)
    }
}

/// The orders that the arrays of `orders` hold.
pub open spec fn order_list(orders: Seq<[EdgeDirection; 6]>) -> Seq<Seq<EdgeDirection>> {
    Seq::new(orders.len(), |i: int| orders[i]@)
}

/// Whether `order` names the direction `d`.
pub open spec fn names(order: Seq<EdgeDirection>, d: EdgeDirection) -> bool {
    exists|k: int| 0 <= k < order.len() && #[trigger] order[k] == d
}

/// Whether `order` names every one of the six directions, each once.
pub open spec fn is_order(order: Seq<EdgeDirection>) -> bool {
    &&& order.len() == 6
    &&& forall|d: EdgeDirection| #[trigger] names(order, d)
}

/// Whether `orders` holds `count` orders that each name every direction.
pub open spec fn are_orders(orders: Seq<Seq<EdgeDirection>>, count: nat) -> bool {
    &&& orders.len() == count
    &&& forall|i: int| 0 <= i < orders.len() ==> is_order(#[trigger] orders[i])
}

/// The walls `m` without the wall in direction `d` of the tile at `h`.
pub open spec fn without_wall(m: Map<Hex, Walls>, h: Hex, d: EdgeDirection) -> Map<Hex, Walls> {
    if m.contains_key(h) {
        m.insert(h, m[h].without(d))
    } else {
        m
    }
}

/// The state in which a walk over `m` starts at `start`.
pub open spec fn start_of(m: Map<Hex, Walls>, start: Hex) -> Carving {
    Carving {
        walls: m,
        visited: set![start],
        stack: seq![Frame { pos: start, slot: 0, next: 0 }],
        drawn: 1,
    }
}

/// The state after one move of the walk: back one level where all six
/// directions are tried, else on to the next direction, and down one level
/// where it leads to a tile not reached yet. A walk that has come back from
/// its start stays as it is.
pub open spec fn step(s: Carving, orders: Seq<Seq<EdgeDirection>>) -> Carving {
    if s.stack.len() == 0 {
        s
    } else {
        let top = s.stack.last();
        if top.next >= 6 {
            Carving { stack: s.stack.drop_last(), ..s }
        } else {
            let d = order_at(orders, top.slot, top.next);
            let rest = s.stack.drop_last().push(Frame { next: top.next + 1, ..top });
            match top.pos.neighbor_spec(d) {
                Some(n) => if s.walls.contains_key(n) && !s.visited.contains(n) {
                    Carving {
                        walls: without_wall(
                            without_wall(s.walls, top.pos, d),
                            n,
                            d.opposite_spec(),
                        ),
                        visited: s.visited.insert(n),
                        stack: rest.push(Frame { pos: n, slot: s.drawn, next: 0 }),
                        drawn: s.drawn + 1,
                    }
                } else {
                    Carving { stack: rest, ..s }
                },
                None => Carving { stack: rest, ..s },
            }
        }
    }
}

/// The state after `moves` moves.
pub open spec fn run(s: Carving, orders: Seq<Seq<EdgeDirection>>, moves: nat) -> Carving
    decreases moves,
{
    if moves == 0 {
        s
    } else {
        run(step(s, orders), orders, (moves - 1) as nat)
    }
}

/// The walls that a walk over `m` from `start` leaves behind, given the
/// orders it follows. Seven moves per tile bring every walk back from its
/// start. Where `start` is no tile of `m`, nothing is carved.
pub open spec fn carved(m: Map<Hex, Walls>, start: Hex, orders: Seq<Seq<EdgeDirection>>) -> Map<
    Hex,
    Walls,
> {
    if m.contains_key(start) {
        run(start_of(m, start), orders, 7 * m.dom().len()).walls
    } else {
        m
    }
}

/// The moves that the levels of the walk still have to make: one for each
/// direction not tried yet, and one to go back.
pub open spec fn moves_of_stack(stack: Seq<Frame>) -> int
    decreases stack.len(),
{
    if stack.len() == 0 {
        0
    } else {
        moves_of_stack(stack.drop_last()) + 7 - stack.last().next
    }
}

/// The most moves that the walk can still make: seven for each tile not
/// reached yet, and those of its levels.
pub open spec fn moves_left(s: Carving) -> int {
    7 * (s.walls.dom().len() - s.visited.len()) + moves_of_stack(s.stack)
}

/// Whether the state is one that a walk can be in: the walls are finitely
/// many, the tiles reached are tiles, as many as orders were taken, and no
/// level has tried more than six directions.
pub open spec fn walk_inv(s: Carving) -> bool {
    &&& s.walls.dom().finite()
    &&& s.visited.finite()
    &&& s.visited.subset_of(s.walls.dom())
    &&& s.visited.len() == s.drawn
    &&& forall|i: int| 0 <= i < s.stack.len() ==> (#[trigger] s.stack[i]).next <= 6
}

proof fn lemma_moves_of_push(stack: Seq<Frame>, f: Frame)
    ensures
        moves_of_stack(stack.push(f)) == moves_of_stack(stack) + 7 - f.next,
{
    assert(stack.push(f).drop_last() =~= stack);
}

proof fn lemma_moves_nonnegative(stack: Seq<Frame>)
    requires
        forall|i: int| 0 <= i < stack.len() ==> (#[trigger] stack[i]).next <= 6,
    ensures
        moves_of_stack(stack) >= stack.len(),
    decreases stack.len(),
{
    if stack.len() > 0 {
        lemma_moves_nonnegative(stack.drop_last());
    }
}

/// A move keeps the state one that a walk can be in, and where the walk has
/// not come back from its start it uses up one of the moves that are left.
pub proof fn lemma_step(s: Carving, orders: Seq<Seq<EdgeDirection>>)
    requires
        walk_inv(s),
    ensures
        walk_inv(step(s, orders)),
        step(s, orders).walls.dom() == s.walls.dom(),
        s.stack.len() > 0 ==> moves_left(step(s, orders)) == moves_left(s) - 1,
        s.stack.len() > 0 ==> moves_left(s) >= 1,
        s.stack.len() == 0 ==> step(s, orders) == s,
        moves_left(s) >= 0,
{
    let t = step(s, orders);
    vstd::set_lib::lemma_len_subset(s.visited, s.walls.dom());
    lemma_moves_nonnegative(s.stack);
    if s.stack.len() > 0 {
        let top = s.stack.last();
        let below = s.stack.drop_last();
        lemma_moves_nonnegative(below);
        if top.next < 6 {
            let d = order_at(orders, top.slot, top.next);
            let rest = below.push(Frame { next: top.next + 1, ..top });
            lemma_moves_of_push(below, Frame { next: top.next + 1, ..top });
            match top.pos.neighbor_spec(d) {
                Some(n) => {
                    if s.walls.contains_key(n) && !s.visited.contains(n) {
                        lemma_moves_of_push(rest, Frame { pos: n, slot: s.drawn, next: 0 });
                        assert(t.walls.dom() =~= s.walls.dom());
                        assert(t.visited.len() == s.visited.len() + 1);
                    }
                },
                None => {},
            }
        }
    }
}

/// Once the walk has come back from its start, further moves change nothing.
pub proof fn lemma_run_done(s: Carving, orders: Seq<Seq<EdgeDirection>>, moves: nat)
    requires
        s.stack.len() == 0,
    ensures
        run(s, orders, moves) == s,
    decreases moves,
{
    if moves > 0 {
        lemma_run_done(s, orders, (moves - 1) as nat);
    }
}

/// The walk has come back from its start when it has made as many moves as
/// were left, and it is still in a state that a walk can be in.
pub proof fn lemma_run_ends(s: Carving, orders: Seq<Seq<EdgeDirection>>, moves: nat)
    requires
        walk_inv(s),
        moves_left(s) <= moves,
    ensures
        run(s, orders, moves).stack.len() == 0,
        walk_inv(run(s, orders, moves)),
        run(s, orders, moves).walls.dom() == s.walls.dom(),
    decreases moves,
{
    lemma_step(s, orders);
    if s.stack.len() == 0 {
        lemma_run_done(s, orders, moves);
    } else {
        lemma_run_ends(step(s, orders), orders, (moves - 1) as nat);
    }
}

/// A walk that starts on a tile starts in a state that a walk can be in,
/// with seven moves left for each tile.
pub proof fn lemma_start(m: Map<Hex, Walls>, start: Hex)
    requires
        m.dom().finite(),
        m.contains_key(start),
    ensures
        walk_inv(start_of(m, start)),
        moves_left(start_of(m, start)) == 7 * m.dom().len(),
{
    let s = start_of(m, start);
    assert(s.stack.drop_last() =~= Seq::<Frame>::empty());
    assert(moves_of_stack(s.stack.drop_last()) == 0);
    assert(s.visited.len() == 1);
}

/// A level of the walk, as the carver holds it.
struct Level {
    pos: Hex,
    slot: usize,
    next: usize,
}

spec fn frame_of(l: Level) -> Frame {
    Frame { pos: l.pos, slot: l.slot as nat, next: l.next as nat }
}

spec fn frames_of(levels: Seq<Level>) -> Seq<Frame> {
    Seq::new(levels.len(), |i: int| frame_of(levels[i]))
}

/// The direction at place `k` of the order in `slot`.
fn direction_at(orders: &Vec<[EdgeDirection; 6]>, slot: usize, k: usize) -> (d: EdgeDirection)
    requires
        k < 6,
    ensures
        d == order_at(order_list(orders@), slot as nat, k as nat),
{
    if slot < orders.len() {
        let order = &orders[slot];
        order[k]
    } else {
        EdgeDirection::from_index(k as u8)
    }
}

/// Carves `maze` by a depth-first walk from `start` that follows `orders`:
/// the tile reached as the `i`-th follows `orders[i]`.
///
/// Where `start` is no tile of the maze, the maze stays as it is.
#[verifier::rlimit(40)]
pub fn carve(maze: &mut Maze, start: Hex, orders: &Vec<[EdgeDirection; 6]>)
    ensures
        final(maze)@ == carved(old(maze)@, start, order_list(orders@)),
{
    if !maze.contains(&start) {
        return ;
    }
    let ghost m0 = maze@;
    let ghost list = order_list(orders@);
    let ghost total: nat = 7 * m0.dom().len();
    let ghost mut left: nat = total;
    let mut visited: HexMap<()> = HexMap::new();
    visited.insert(start, ());
    let mut stack: Vec<Level> = Vec::new();
    stack.push(Level { pos: start, slot: 0, next: 0 });
    let mut drawn: usize = 1;
    proof {
        maze.lemma_finite();
        lemma_start(m0, start);
        assert(visited@.dom() =~= set![start]);
        assert(frames_of(stack@) =~= start_of(m0, start).stack);
    }
    while stack.len() > 0
        invariant
            list == order_list(orders@),
            maze@.dom() == m0.dom(),
            m0.dom().len() <= usize::MAX,
            walk_inv(
                Carving {
                    walls: maze@,
                    visited: visited@.dom(),
                    stack: frames_of(stack@),
                    drawn: drawn as nat,
                },
            ),
            moves_left(
                Carving {
                    walls: maze@,
                    visited: visited@.dom(),
                    stack: frames_of(stack@),
                    drawn: drawn as nat,
                },
            ) <= left,
            run(
                Carving {
                    walls: maze@,
                    visited: visited@.dom(),
                    stack: frames_of(stack@),
                    drawn: drawn as nat,
                },
                list,
                left,
            ) == run(start_of(m0, start), list, total),
        decreases left,
    {
        let ghost s = Carving {
            walls: maze@,
            visited: visited@.dom(),
            stack: frames_of(stack@),
            drawn: drawn as nat,
        };
        proof {
            lemma_step(s, list);
            assert(frames_of(stack@).last() == frame_of(stack@.last()));
        }
        let last = stack.len() - 1;
        let pos = stack[last].pos;
        let slot = stack[last].slot;
        let next = stack[last].next;
        if next >= 6 {
            stack.pop();
            proof {
                assert(frames_of(stack@) =~= s.stack.drop_last());
            }
        } else {
            let d = direction_at(orders, slot, next);
            stack.set(last, Level { pos, slot, next: next + 1 });
            let ghost rest = s.stack.drop_last().push(
                Frame { pos, slot: slot as nat, next: (next + 1) as nat },
            );
            proof {
                assert(frames_of(stack@) =~= rest);
            }
            match pos.neighbor(d) {
                Some(n) => {
                    if maze.contains(&n) && !visited.contains_key(&n) {
                        proof {
                            vstd::set_lib::lemma_len_subset(s.visited.insert(n), s.walls.dom());
                        }
                        let _ = maze.remove_tile_wall(&pos, d);
                        let _ = maze.remove_tile_wall(&n, d.opposite());
                        visited.insert(n, ());
                        stack.push(Level { pos: n, slot: drawn, next: 0 });
                        drawn += 1;
                        proof {
                            assert(visited@.dom() =~= s.visited.insert(n));
                            assert(frames_of(stack@) =~= rest.push(
                                Frame { pos: n, slot: s.drawn, next: 0 },
                            ));
                        }
                    }
                },
                None => {},
            }
        }
        proof {
            let t = Carving {
                walls: maze@,
                visited: visited@.dom(),
                stack: frames_of(stack@),
                drawn: drawn as nat,
            };
            assert(t.walls =~= step(s, list).walls);
            assert(t == step(s, list));
            left = (left - 1) as nat;
        }
    }
    proof {
        let s = Carving {
            walls: maze@,
            visited: visited@.dom(),
            stack: frames_of(stack@),
            drawn: drawn as nat,
        };
        assert(s.stack =~= Seq::<Frame>::empty());
        lemma_run_done(s, list, left);
    }
}

} // verus!
