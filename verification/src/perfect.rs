//! What carving leaves behind: a perfect maze.
//!
//! The walk of the carver reaches every tile that is linked to its start by
//! neighbouring tiles, opens the walls between two tiles from both sides,
//! and opens exactly one new passage for each tile it reaches. So in a grid
//! that is fully walled and in one piece, the passages form a spanning tree.
use crate::carve::{
    are_orders, carved, is_order, lemma_run_ends, lemma_start, lemma_step, names, order_at, run,
    start_of, step, walk_inv, without_wall, Carving, Frame,
};
use crate::hex::{EdgeDirection, Hex};
use crate::pathfinding::{is_path, open_step, path_between, reachable, step_ok};
use crate::walls::Walls;
use vstd::prelude::*;

verus! {

/// Whether `b` is the tile next to the tile `a` in direction `d`.
pub open spec fn faces(m: Map<Hex, Walls>, a: Hex, d: EdgeDirection, b: Hex) -> bool {
    &&& m.contains_key(a)
    &&& m.contains_key(b)
    &&& a.neighbor_spec(d) == Some(b)
}

/// Whether every wall between two tiles stands on both sides or on neither.
pub open spec fn symmetric(m: Map<Hex, Walls>) -> bool {
    forall|a: Hex, d: EdgeDirection, b: Hex| #[trigger]
        faces(m, a, d, b) ==> m[a].has(d) == m[b].has(d.opposite_spec())
}

/// Whether every tile has walls on all six edges.
pub open spec fn fresh(m: Map<Hex, Walls>) -> bool {
    forall|h: Hex| #[trigger] m.contains_key(h) ==> m[h] == Walls::full()
}

/// Whether `a` and `b` are tiles next to each other.
pub open spec fn adjacent_in(m: Map<Hex, Walls>, a: Hex, b: Hex) -> bool {
    exists|d: EdgeDirection| faces(m, a, d, b)
}

/// Whether the positions at index `i` of `p` and after it are tiles next to
/// each other.
pub open spec fn hop_ok(m: Map<Hex, Walls>, p: Seq<Hex>, i: int) -> bool {
    adjacent_in(m, p[i], p[i + 1])
}

/// Whether `p` leads from tile to neighbouring tile, whatever walls stand
/// between them.
pub open spec fn is_route(m: Map<Hex, Walls>, p: Seq<Hex>) -> bool {
    &&& p.len() > 0
    &&& forall|i: int| 0 <= i < p.len() - 1 ==> #[trigger] hop_ok(m, p, i)
}

/// Whether neighbouring tiles lead from `a` to `b`, whatever walls stand
/// between them.
pub open spec fn linked(m: Map<Hex, Walls>, a: Hex, b: Hex) -> bool {
    exists|p: Seq<Hex>| #[trigger] is_route(m, p) && p.first() == a && p.last() == b
}

/// Whether the grid is in one piece: neighbouring tiles lead from every tile
/// to every other.
pub open spec fn connected(m: Map<Hex, Walls>) -> bool {
    forall|a: Hex, b: Hex| m.contains_key(a) && m.contains_key(b) ==> #[trigger] linked(m, a, b)
}

/// Whether the tile at `a` has no wall towards a neighbouring tile in
/// direction `d`.
pub open spec fn is_open_edge(m: Map<Hex, Walls>, a: Hex, d: EdgeDirection) -> bool {
    match a.neighbor_spec(d) {
        Some(b) => open_step(m, a, d, b),
        None => false,
    }
}

/// The passages of the maze, each seen from the tile it leaves: a passage
/// between two tiles that is open from both sides is in the set twice.
pub open spec fn open_edges(m: Map<Hex, Walls>) -> Set<(Hex, EdgeDirection)> {
    Set::new(|e: (Hex, EdgeDirection)| is_open_edge(m, e.0, e.1))
}

/// Whether at least one edge has no wall.
pub open spec fn has_opening(w: Walls) -> bool {
    exists|d: EdgeDirection| !w.has(d)
}

/// Whether the level `f` has yet to try the direction `d`.
spec fn ahead(orders: Seq<Seq<EdgeDirection>>, f: Frame, d: EdgeDirection) -> bool {
    exists|k: nat| f.next <= k < 6 && #[trigger] order_at(orders, f.slot, k) == d
}

/// Whether the walk stands on `a` at some level that has yet to try `d`.
spec fn waiting(s: Carving, orders: Seq<Seq<EdgeDirection>>, a: Hex, d: EdgeDirection) -> bool {
    exists|i: int| 0 <= i < s.stack.len() && (#[trigger] s.stack[i]).pos == a && ahead(orders, s.stack[i], d)
}

/// The tile next to `a` in direction `d`, if there is one, has been reached
/// or will be tried from `a`.
spec fn tried(s: Carving, orders: Seq<Seq<EdgeDirection>>, a: Hex, d: EdgeDirection) -> bool {
    match a.neighbor_spec(d) {
        Some(n) => !s.walls.contains_key(n) || s.visited.contains(n) || waiting(s, orders, a, d),
        None => true,
    }
}

/// What holds of a walk over `m0` from `start` at every move.
spec fn carve_inv(
    m0: Map<Hex, Walls>,
    start: Hex,
    orders: Seq<Seq<EdgeDirection>>,
    s: Carving,
) -> bool {
    &&& walk_inv(s)
    &&& are_orders(orders, m0.dom().len())
    &&& s.walls.dom() == m0.dom()
    &&& s.visited.contains(start)
    &&& forall|i: int| 0 <= i < s.stack.len() ==> s.visited.contains((#[trigger] s.stack[i]).pos)
        && s.stack[i].slot < s.drawn
    &&& forall|a: Hex, d: EdgeDirection| s.visited.contains(a) ==> #[trigger] tried(s, orders, a, d)
    &&& forall|a: Hex| #[trigger] s.visited.contains(a) ==> reachable(s.walls, start, a)
    &&& forall|h: Hex, d: EdgeDirection|
        m0.contains_key(h) && #[trigger] s.walls[h].has(d) ==> m0[h].has(d)
    &&& forall|h: Hex| m0.contains_key(h) && !s.visited.contains(h) ==> #[trigger] s.walls[h] == m0[h]
    &&& symmetric(m0) ==> symmetric(s.walls)
    &&& fresh(m0) ==> open_edges(s.walls).finite() && open_edges(s.walls).len() == 2 * (
    s.visited.len() - 1)
    &&& forall|a: Hex|
        #[trigger] s.visited.contains(a) && a != start ==> has_opening(s.walls[a]) && has_opening(
            s.walls[start],
        )
}

/// Whether the next move of the walk leads down to a tile not reached yet.
spec fn goes_down(s: Carving, orders: Seq<Seq<EdgeDirection>>) -> bool {
    &&& s.stack.len() > 0
    &&& s.stack.last().next < 6
    &&& match s.stack.last().pos.neighbor_spec(heading(s, orders)) {
        Some(n) => s.walls.contains_key(n) && !s.visited.contains(n),
        None => false,
    }
}

/// The direction that the next move of the walk tries.
spec fn heading(s: Carving, orders: Seq<Seq<EdgeDirection>>) -> EdgeDirection {
    order_at(orders, s.stack.last().slot, s.stack.last().next)
}

/// The tile that the next move of the walk leads to.
spec fn target(s: Carving, orders: Seq<Seq<EdgeDirection>>) -> Hex {
    s.stack.last().pos.neighbor_spec(heading(s, orders)).unwrap()
}

/// Whether the walls `after` are the walls `before` with the passage from
/// `a` in direction `d` to `n` opened from both sides.
spec fn opened(
    before: Map<Hex, Walls>,
    after: Map<Hex, Walls>,
    a: Hex,
    d: EdgeDirection,
    n: Hex,
) -> bool {
    &&& after.dom() == before.dom()
    &&& forall|h: Hex, e: EdgeDirection|
        before.contains_key(h) ==> (#[trigger] after[h].has(e) <==> before[h].has(e) && !(h == a
            && e == d) && !(h == n && e == d.opposite_spec()))
    &&& forall|h: Hex| before.contains_key(h) && h != a && h != n ==> #[trigger] after[h] == before[h]
}

/// A move that does not lead down leaves the walls and the tiles reached as
/// they are; one that leads down opens the passage to the new tile from
/// both sides and reaches that tile.
proof fn lemma_move(s: Carving, orders: Seq<Seq<EdgeDirection>>)
    requires
        walk_inv(s),
        forall|i: int| 0 <= i < s.stack.len() ==> s.visited.contains((#[trigger] s.stack[i]).pos),
    ensures
        !goes_down(s, orders) ==> step(s, orders).walls == s.walls && step(s, orders).visited
            == s.visited && step(s, orders).drawn == s.drawn,
        goes_down(s, orders) ==> {
            let a = s.stack.last().pos;
            let d = heading(s, orders);
            let n = target(s, orders);
            &&& faces(s.walls, a, d, n)
            &&& faces(s.walls, n, d.opposite_spec(), a)
            &&& a != n
            &&& s.visited.contains(a)
            &&& !s.visited.contains(n)
            &&& opened(s.walls, step(s, orders).walls, a, d, n)
            &&& step(s, orders).visited == s.visited.insert(n)
            &&& step(s, orders).drawn == s.drawn + 1
        },
{
    if goes_down(s, orders) {
        let a = s.stack.last().pos;
        let d = heading(s, orders);
        let n = target(s, orders);
        let t = step(s, orders);
        assert(s.visited.contains(s.stack[s.stack.len() - 1].pos));
        Hex::lemma_neighbor_symmetric(a, n, d);
        d.lemma_opposite();
        let mid = without_wall(s.walls, a, d);
        assert(t.walls == without_wall(mid, n, d.opposite_spec()));
        s.walls[a].lemma_with_without(d);
        mid[n].lemma_with_without(d.opposite_spec());
        assert(t.walls.dom() =~= s.walls.dom());
    }
}

/// A walk through the maze stays one when a passage is opened.
proof fn lemma_opened_keeps_paths(
    before: Map<Hex, Walls>,
    after: Map<Hex, Walls>,
    a: Hex,
    d: EdgeDirection,
    n: Hex,
    p: Seq<Hex>,
)
    requires
        opened(before, after, a, d, n),
        is_path(before, p),
    ensures
        is_path(after, p),
{
    assert forall|i: int| 0 <= i < p.len() - 1 implies #[trigger] step_ok(after, p, i) by {
        assert(step_ok(before, p, i));
        let x = p[i];
        let y = p[i + 1];
        let e = choose|e: EdgeDirection| open_step(before, x, e, y);
        assert(!after[x].has(e));
        assert(open_step(after, x, e, y));
    }
}

/// Walls that stand on both sides or on neither still do when a passage is
/// opened from both sides.
#[verifier::rlimit(40)]
proof fn lemma_opened_symmetric(
    before: Map<Hex, Walls>,
    after: Map<Hex, Walls>,
    a: Hex,
    d: EdgeDirection,
    n: Hex,
)
    requires
        opened(before, after, a, d, n),
        faces(before, a, d, n),
        symmetric(before),
    ensures
        symmetric(after),
{
    assert forall|x: Hex, e: EdgeDirection, y: Hex| #[trigger] faces(after, x, e, y) implies after[x].has(
        e,
    ) == after[y].has(e.opposite_spec()) by {
        assert(faces(before, x, e, y));
        Hex::lemma_neighbor_symmetric(x, y, e);
        Hex::lemma_neighbor_symmetric(a, n, d);
        e.lemma_opposite();
        d.lemma_opposite();
        assert(after[x].has(e) <==> before[x].has(e) && !(x == a && e == d) && !(x == n && e
            == d.opposite_spec()));
        assert(after[y].has(e.opposite_spec()) <==> before[y].has(e.opposite_spec()) && !(y == a
            && e.opposite_spec() == d) && !(y == n && e.opposite_spec() == d.opposite_spec()));
        if x == a && e == d {
            assert(y == n);
        }
        if x == n && e == d.opposite_spec() {
            assert(y == a);
        }
        if y == a && e.opposite_spec() == d {
            assert(e == d.opposite_spec());
            assert(x == n);
        }
        if y == n && e.opposite_spec() == d.opposite_spec() {
            assert(e == d);
            assert(n.neighbor_spec(d.opposite_spec()) == Some(a));
            assert(y.neighbor_spec(e.opposite_spec()) == Some(x));
            assert(x == a);
        }
    }
}

/// Opening a passage that was walled on both sides adds two to the
/// passages, one for each side.
#[verifier::rlimit(40)]
proof fn lemma_opened_edges(
    before: Map<Hex, Walls>,
    after: Map<Hex, Walls>,
    a: Hex,
    d: EdgeDirection,
    n: Hex,
)
    requires
        opened(before, after, a, d, n),
        faces(before, a, d, n),
        before[a].has(d),
        before[n].has(d.opposite_spec()),
        open_edges(before).finite(),
    ensures
        open_edges(after).finite(),
        open_edges(after).len() == open_edges(before).len() + 2,
{
    Hex::lemma_neighbor_symmetric(a, n, d);
    d.lemma_opposite();
    let there = (a, d);
    let back = (n, d.opposite_spec());
    assert(!open_edges(before).contains(there));
    assert(!open_edges(before).contains(back));
    assert(there != back);
    assert(open_edges(after) =~= open_edges(before).insert(there).insert(back)) by {
        assert forall|e: (Hex, EdgeDirection)|
            open_edges(after).contains(e) <==> open_edges(before).insert(there).insert(
                back,
            ).contains(e) by {
            let x = e.0;
            let dir = e.1;
            if before.contains_key(x) {
                assert(after[x].has(dir) <==> before[x].has(dir) && !(x == a && dir == d) && !(x
                    == n && dir == d.opposite_spec()));
            }
            if e == there {
                assert(is_open_edge(after, a, d));
            }
            if e == back {
                assert(is_open_edge(after, n, d.opposite_spec()));
            }
        }
    }
}

/// A tile keeps its openings when a passage is opened, and the two tiles of
/// the passage have one.
proof fn lemma_opened_openings(
    before: Map<Hex, Walls>,
    after: Map<Hex, Walls>,
    a: Hex,
    d: EdgeDirection,
    n: Hex,
    h: Hex,
)
    requires
        opened(before, after, a, d, n),
        before.contains_key(h),
    ensures
        has_opening(before[h]) ==> has_opening(after[h]),
        h == a || h == n ==> has_opening(after[h]),
{
    if has_opening(before[h]) {
        let e = choose|e: EdgeDirection| !before[h].has(e);
        assert(!after[h].has(e));
    }
    if h == a {
        assert(!after[h].has(d));
    }
    if h == n {
        assert(!after[h].has(d.opposite_spec()));
    }
}

/// After a move, every neighbour of a tile reached has still been reached
/// or will be tried.
#[verifier::rlimit(40)]
proof fn lemma_step_tried(
    m0: Map<Hex, Walls>,
    start: Hex,
    orders: Seq<Seq<EdgeDirection>>,
    s: Carving,
)
    requires
        carve_inv(m0, start, orders, s),
    ensures
        forall|a: Hex, d: EdgeDirection|
            step(s, orders).visited.contains(a) ==> #[trigger] tried(step(s, orders), orders, a, d),
{
    let t = step(s, orders);
    lemma_move(s, orders);
    lemma_step(s, orders);
    if s.stack.len() > 0 {
        let top = s.stack.last();
        let below = s.stack.drop_last();
        let last = s.stack.len() - 1;
        if top.next >= 6 {
            assert forall|a: Hex, d: EdgeDirection| t.visited.contains(a) implies #[trigger] tried(
                t,
                orders,
                a,
                d,
            ) by {
                assert(tried(s, orders, a, d));
                if a.neighbor_spec(d) is Some {
                    let n = a.neighbor_spec(d).unwrap();
                    if s.walls.contains_key(n) && !s.visited.contains(n) {
                        assert(waiting(s, orders, a, d));
                        let i = choose|i: int|
                            0 <= i < s.stack.len() && (#[trigger] s.stack[i]).pos == a && ahead(
                                orders,
                                s.stack[i],
                                d,
                            );
                        if i == last {
                            let k = choose|k: nat|
                                top.next <= k < 6 && #[trigger] order_at(orders, top.slot, k) == d;
                            assert(false);
                        }
                        assert(t.stack[i] == s.stack[i]);
                        assert(waiting(t, orders, a, d));
                    }
                }
            }
        } else {
            let top2 = Frame { next: top.next + 1, ..top };
            let rest = below.push(top2);
            let d0 = heading(s, orders);
            let down = goes_down(s, orders);
            let newf = Frame { pos: target(s, orders), slot: s.drawn, next: 0 };
            assert(t.stack == if down {
                rest.push(newf)
            } else {
                rest
            });
            assert forall|a: Hex, d: EdgeDirection| t.visited.contains(a) implies #[trigger] tried(
                t,
                orders,
                a,
                d,
            ) by {
                if down && a == target(s, orders) {
                    vstd::set_lib::lemma_len_subset(s.visited.insert(a), s.walls.dom());
                    assert(s.drawn < orders.len());
                    let order = orders[s.drawn as int];
                    assert(is_order(order));
                    assert(names(order, d));
                    let k = choose|k: int| 0 <= k < order.len() && #[trigger] order[k] == d;
                    assert(order_at(orders, newf.slot, k as nat) == d);
                    assert(ahead(orders, newf, d));
                    assert(t.stack[last + 1] == newf);
                    assert(waiting(t, orders, a, d));
                } else {
                    assert(s.visited.contains(a));
                    assert(tried(s, orders, a, d));
                    if a.neighbor_spec(d) is Some {
                        let n = a.neighbor_spec(d).unwrap();
                        if t.walls.contains_key(n) && !t.visited.contains(n) {
                            assert(s.walls.contains_key(n) && !s.visited.contains(n));
                            assert(waiting(s, orders, a, d));
                            let i = choose|i: int|
                                0 <= i < s.stack.len() && (#[trigger] s.stack[i]).pos == a && ahead(
                                    orders,
                                    s.stack[i],
                                    d,
                                );
                            if i < last {
                                assert(t.stack[i] == s.stack[i]);
                                assert(waiting(t, orders, a, d));
                            } else {
                                let k = choose|k: nat|
                                    top.next <= k < 6 && #[trigger] order_at(orders, top.slot, k)
                                        == d;
                                if k == top.next {
                                    assert(d == d0);
                                    assert(false);
                                } else {
                                    assert(order_at(orders, top2.slot, k) == d);
                                    assert(ahead(orders, top2, d));
                                    assert(t.stack[last] == top2);
                                    assert(waiting(t, orders, a, d));
                                }
                            }
                        }
                    }
                }
            }
        }
    }
}

/// What holds of a walk at every move holds after one more move.
#[verifier::rlimit(40)]
proof fn lemma_step_inv(
    m0: Map<Hex, Walls>,
    start: Hex,
    orders: Seq<Seq<EdgeDirection>>,
    s: Carving,
)
    requires
        carve_inv(m0, start, orders, s),
    ensures
        carve_inv(m0, start, orders, step(s, orders)),
{
    let t = step(s, orders);
    lemma_move(s, orders);
    lemma_step(s, orders);
    lemma_step_tried(m0, start, orders, s);
    if s.stack.len() > 0 {
        let top = s.stack.last();
        let last = s.stack.len() - 1;
        assert(s.visited.contains(s.stack[last].pos) && s.stack[last].slot < s.drawn);
        assert forall|i: int| 0 <= i < t.stack.len() implies t.visited.contains(
            (#[trigger] t.stack[i]).pos,
        ) && t.stack[i].slot < t.drawn by {
            if i < last {
                assert(t.stack[i] == s.stack[i]);
            }
        }
    }
    if goes_down(s, orders) {
        let a = s.stack.last().pos;
        let d = heading(s, orders);
        let n = target(s, orders);
        assert(s.walls[n] == m0[n]);
        assert forall|x: Hex| #[trigger] t.visited.contains(x) implies reachable(
            t.walls,
            start,
            x,
        ) by {
            if x == n {
                assert(reachable(s.walls, start, a));
                let p = choose|p: Seq<Hex>| path_between(s.walls, p, start, a);
                lemma_opened_keeps_paths(s.walls, t.walls, a, d, n, p);
                let q = p.push(n);
                assert(!t.walls[a].has(d));
                assert(open_step(t.walls, a, d, n));
                assert forall|i: int| 0 <= i < q.len() - 1 implies #[trigger] step_ok(
                    t.walls,
                    q,
                    i,
                ) by {
                    if i < p.len() - 1 {
                        assert(step_ok(t.walls, p, i));
                    }
                }
                assert(path_between(t.walls, q, start, n));
            } else {
                assert(reachable(s.walls, start, x));
                let p = choose|p: Seq<Hex>| path_between(s.walls, p, start, x);
                lemma_opened_keeps_paths(s.walls, t.walls, a, d, n, p);
                assert(path_between(t.walls, p, start, x));
            }
        }
        assert forall|h: Hex, e: EdgeDirection|
            m0.contains_key(h) && #[trigger] t.walls[h].has(e) implies m0[h].has(e) by {
            assert(s.walls[h].has(e));
        }
        if symmetric(m0) {
            lemma_opened_symmetric(s.walls, t.walls, a, d, n);
        }
        if fresh(m0) {
            assert(m0[n] == Walls::full());
            s.walls[n].lemma_with_without(d);
            assert(s.walls[n].has(d.opposite_spec()));
            assert(forall|x: Hex| #[trigger] m0.contains_key(x) ==> m0[x] == Walls::full());
            assert(m0[a].has(d)) by {
                assert(m0[a] == Walls::full());
            }
            if !s.walls[a].has(d) {
                assert(symmetric(m0)) by {
                    assert forall|x: Hex, e: EdgeDirection, y: Hex| #[trigger]
                        faces(m0, x, e, y) implies m0[x].has(e) == m0[y].has(e.opposite_spec()) by {
                        assert(m0[x] == Walls::full());
                        assert(m0[y] == Walls::full());
                    }
                }
                assert(faces(s.walls, a, d, n));
                assert(false);
            }
            lemma_opened_edges(s.walls, t.walls, a, d, n);
        }
        assert forall|x: Hex| #[trigger] t.visited.contains(x) && x != start implies has_opening(
            t.walls[x],
        ) && has_opening(t.walls[start]) by {
            lemma_opened_openings(s.walls, t.walls, a, d, n, x);
            lemma_opened_openings(s.walls, t.walls, a, d, n, start);
            if x == n {
                if a != start {
                    assert(s.visited.contains(a));
                }
            } else {
                assert(s.visited.contains(x));
            }
        }
    }
}

/// A walk that starts on a tile starts as every walk goes on.
proof fn lemma_start_inv(m0: Map<Hex, Walls>, start: Hex, orders: Seq<Seq<EdgeDirection>>)
    requires
        m0.dom().finite(),
        m0.contains_key(start),
        are_orders(orders, m0.dom().len()),
    ensures
        carve_inv(m0, start, orders, start_of(m0, start)),
{
    let s = start_of(m0, start);
    lemma_start(m0, start);
    vstd::set_lib::lemma_len_subset(s.visited, m0.dom());
    assert(s.stack[0].pos == start);
    assert forall|a: Hex, d: EdgeDirection| s.visited.contains(a) implies #[trigger] tried(
        s,
        orders,
        a,
        d,
    ) by {
        let order = orders[0];
        assert(is_order(order));
        assert(names(order, d));
        let k = choose|k: int| 0 <= k < order.len() && #[trigger] order[k] == d;
        assert(order_at(orders, 0, k as nat) == d);
        assert(ahead(orders, s.stack[0], d));
        assert(waiting(s, orders, a, d));
    }
    assert forall|a: Hex| #[trigger] s.visited.contains(a) implies reachable(s.walls, start, a) by {
        let p = seq![start];
        assert(path_between(s.walls, p, start, start));
    }
    if fresh(m0) {
        assert(open_edges(m0) =~= Set::<(Hex, EdgeDirection)>::empty()) by {
            assert forall|e: (Hex, EdgeDirection)| !open_edges(m0).contains(e) by {
                if m0.contains_key(e.0) {
                    assert(m0[e.0] == Walls::full());
                    m0[e.0].lemma_with_without(e.1);
                }
            }
        }
    }
}

/// What holds of a walk at every move holds after any number of moves.
proof fn lemma_run_inv(
    m0: Map<Hex, Walls>,
    start: Hex,
    orders: Seq<Seq<EdgeDirection>>,
    s: Carving,
    moves: nat,
)
    requires
        carve_inv(m0, start, orders, s),
    ensures
        carve_inv(m0, start, orders, run(s, orders, moves)),
    decreases moves,
{
    if moves > 0 {
        lemma_step_inv(m0, start, orders, s);
        lemma_run_inv(m0, start, orders, step(s, orders), (moves - 1) as nat);
    }
}

/// The state in which a walk over `m` from `start` ends.
spec fn end_of(m: Map<Hex, Walls>, start: Hex, orders: Seq<Seq<EdgeDirection>>) -> Carving {
    run(start_of(m, start), orders, 7 * m.dom().len())
}

/// A walk ends back at its start, as every walk goes on.
proof fn lemma_end(m: Map<Hex, Walls>, start: Hex, orders: Seq<Seq<EdgeDirection>>)
    requires
        m.dom().finite(),
        m.contains_key(start),
        are_orders(orders, m.dom().len()),
    ensures
        carve_inv(m, start, orders, end_of(m, start, orders)),
        end_of(m, start, orders).stack.len() == 0,
        end_of(m, start, orders).walls == carved(m, start, orders),
{
    lemma_start(m, start);
    lemma_start_inv(m, start, orders);
    lemma_run_inv(m, start, orders, start_of(m, start), 7 * m.dom().len());
    lemma_run_ends(start_of(m, start), orders, 7 * m.dom().len());
}

/// When the walk has ended, it has reached every tile that neighbouring
/// tiles link to a tile it has reached.
proof fn lemma_end_closed(
    m: Map<Hex, Walls>,
    start: Hex,
    orders: Seq<Seq<EdgeDirection>>,
    p: Seq<Hex>,
    i: int,
)
    requires
        m.dom().finite(),
        m.contains_key(start),
        are_orders(orders, m.dom().len()),
        is_route(m, p),
        p[0] == start,
        0 <= i < p.len(),
    ensures
        end_of(m, start, orders).visited.contains(p[i]),
    decreases i,
{
    let f = end_of(m, start, orders);
    lemma_end(m, start, orders);
    if i > 0 {
        lemma_end_closed(m, start, orders, p, i - 1);
        let a = p[i - 1];
        let b = p[i];
        assert(hop_ok(m, p, i - 1));
        let d = choose|d: EdgeDirection| faces(m, a, d, b);
        assert(tried(f, orders, a, d));
        if !f.visited.contains(b) {
            assert(waiting(f, orders, a, d));
        }
    }
}

/// Carving keeps the tiles and takes walls away only.
pub proof fn lemma_carved_keeps_tiles(
    m: Map<Hex, Walls>,
    start: Hex,
    orders: Seq<Seq<EdgeDirection>>,
)
    requires
        m.dom().finite(),
        are_orders(orders, m.dom().len()),
    ensures
        carved(m, start, orders).dom() == m.dom(),
        forall|h: Hex, d: EdgeDirection|
            m.contains_key(h) && #[trigger] carved(m, start, orders)[h].has(d) ==> m[h].has(d),
{
    if m.contains_key(start) {
        lemma_end(m, start, orders);
    }
}

/// Wall symmetry: where every wall of the grid stands on both sides or on
/// neither, the same holds of every wall of the carved maze.
pub proof fn lemma_carved_symmetric(
    m: Map<Hex, Walls>,
    start: Hex,
    orders: Seq<Seq<EdgeDirection>>,
)
    requires
        m.dom().finite(),
        are_orders(orders, m.dom().len()),
        symmetric(m),
    ensures
        symmetric(carved(m, start, orders)),
{
    if m.contains_key(start) {
        lemma_end(m, start, orders);
    }
}

/// Every tile that neighbouring tiles link to the start can be walked to
/// from the start through the carved maze.
pub proof fn lemma_carved_reaches(
    m: Map<Hex, Walls>,
    start: Hex,
    orders: Seq<Seq<EdgeDirection>>,
    h: Hex,
)
    requires
        m.dom().finite(),
        are_orders(orders, m.dom().len()),
        m.contains_key(start),
        linked(m, start, h),
    ensures
        reachable(carved(m, start, orders), start, h),
{
    lemma_end(m, start, orders);
    let p = choose|p: Seq<Hex>| #[trigger] is_route(m, p) && p.first() == start && p.last() == h;
    lemma_end_closed(m, start, orders, p, p.len() - 1);
}

/// The spanning tree: a fully walled grid in one piece is carved into a
/// maze in which every tile can be walked to from the start and which has
/// one passage less than it has tiles, each passage open from both sides.
pub proof fn lemma_carved_spanning_tree(
    m: Map<Hex, Walls>,
    start: Hex,
    orders: Seq<Seq<EdgeDirection>>,
)
    requires
        m.dom().finite(),
        are_orders(orders, m.dom().len()),
        m.contains_key(start),
        fresh(m),
        connected(m),
    ensures
        forall|h: Hex| m.contains_key(h) ==> #[trigger] reachable(
            carved(m, start, orders),
            start,
            h,
        ),
        symmetric(carved(m, start, orders)),
        open_edges(carved(m, start, orders)).finite(),
        open_edges(carved(m, start, orders)).len() == 2 * (m.dom().len() - 1),
{
    let f = end_of(m, start, orders);
    lemma_end(m, start, orders);
    assert forall|h: Hex| m.contains_key(h) implies f.visited.contains(h) && #[trigger] reachable(
        carved(m, start, orders),
        start,
        h,
    ) by {
        assert(linked(m, start, h));
        lemma_carved_reaches(m, start, orders, h);
        let p = choose|p: Seq<Hex>| #[trigger] is_route(m, p) && p.first() == start && p.last() == h;
        lemma_end_closed(m, start, orders, p, p.len() - 1);
    }
    assert forall|h: Hex| f.visited.contains(h) <==> m.dom().contains(h) by {
        assert(f.visited.subset_of(f.walls.dom()));
        if m.contains_key(h) {
            assert(linked(m, start, h));
            let p = choose|p: Seq<Hex>|
                #[trigger] is_route(m, p) && p.first() == start && p.last() == h;
            lemma_end_closed(m, start, orders, p, p.len() - 1);
        }
    }
    assert(f.visited =~= m.dom());
    assert(symmetric(m)) by {
        assert forall|x: Hex, e: EdgeDirection, y: Hex| #[trigger] faces(m, x, e, y) implies m[x].has(
            e,
        ) == m[y].has(e.opposite_spec()) by {
            assert(m[x] == Walls::full());
            assert(m[y] == Walls::full());
            m[x].lemma_with_without(e);
        }
    }
}

/// In a grid in one piece with more than one tile, every tile of the carved
/// maze has an edge without a wall.
pub proof fn lemma_carved_openings(
    m: Map<Hex, Walls>,
    start: Hex,
    orders: Seq<Seq<EdgeDirection>>,
    h: Hex,
)
    requires
        m.dom().finite(),
        are_orders(orders, m.dom().len()),
        m.contains_key(start),
        m.contains_key(h),
        connected(m),
        m.dom().len() >= 2,
    ensures
        has_opening(carved(m, start, orders)[h]),
        carved(m, start, orders)[h].count_spec() < 6,
{
    let f = end_of(m, start, orders);
    lemma_end(m, start, orders);
    let other = if h != start {
        h
    } else {
        let rest = m.dom().remove(start);
        assert(rest.len() >= 1);
        rest.choose()
    };
    assert(m.contains_key(other) && other != start);
    assert(linked(m, start, other));
    let p = choose|p: Seq<Hex>| #[trigger] is_route(m, p) && p.first() == start && p.last() == other;
    lemma_end_closed(m, start, orders, p, p.len() - 1);
    assert(f.visited.contains(other));
    assert(has_opening(f.walls[other]) && has_opening(f.walls[start]));
    f.walls[h].lemma_count();
}

/// Whether `m` is a perfect maze around `start`: every wall stands on both
/// sides or on neither, every tile can be walked to from `start`, and there
/// is one passage less than there are tiles, so that no walk goes in a
/// circle.
pub open spec fn perfect(m: Map<Hex, Walls>, start: Hex) -> bool {
    &&& symmetric(m)
    &&& forall|h: Hex| m.contains_key(h) ==> #[trigger] reachable(m, start, h)
    &&& open_edges(m).finite()
    &&& open_edges(m).len() == 2 * (m.dom().len() - 1)
}

/// A route that ends where another starts goes on along the other.
pub proof fn lemma_linked_trans(m: Map<Hex, Walls>, a: Hex, b: Hex, c: Hex)
    requires
        linked(m, a, b),
        linked(m, b, c),
    ensures
        linked(m, a, c),
{
    let p = choose|p: Seq<Hex>| #[trigger] is_route(m, p) && p.first() == a && p.last() == b;
    let q = choose|q: Seq<Hex>| #[trigger] is_route(m, q) && q.first() == b && q.last() == c;
    let r = p + q.drop_first();
    assert forall|i: int| 0 <= i < r.len() - 1 implies #[trigger] hop_ok(m, r, i) by {
        if i < p.len() - 1 {
            assert(hop_ok(m, p, i));
        } else {
            let j = i - (p.len() - 1);
            assert(hop_ok(m, q, j));
            assert(r[i] == q[j]);
            assert(r[i + 1] == q[j + 1]);
        }
    }
    assert(is_route(m, r) && r.first() == a && r.last() == c);
}

/// A route goes on by one hop to a neighbouring tile, at either end.
pub proof fn lemma_linked_hop(m: Map<Hex, Walls>, a: Hex, b: Hex, d: EdgeDirection, c: Hex)
    requires
        linked(m, a, b),
        faces(m, b, d, c),
    ensures
        linked(m, a, c),
        linked(m, c, b),
{
    Hex::lemma_neighbor_symmetric(b, c, d);
    let hop = seq![b, c];
    assert(faces(m, b, d, c));
    assert(hop_ok(m, hop, 0));
    assert(is_route(m, hop) && hop.first() == b && hop.last() == c);
    lemma_linked_trans(m, a, b, c);
    let back = seq![c, b];
    assert(faces(m, c, d.opposite_spec(), b));
    assert(hop_ok(m, back, 0));
    assert(is_route(m, back) && back.first() == c && back.last() == b);
}

/// Every position is linked to itself.
pub proof fn lemma_linked_self(m: Map<Hex, Walls>, a: Hex)
    ensures
        linked(m, a, a),
{
    let p = seq![a];
    assert(is_route(m, p) && p.first() == a && p.last() == a);
}

/// What a depth-first walk carves out of a fully walled grid in one piece
/// is a perfect maze on the tiles of the grid, and if the grid has more
/// than one tile, every tile of the maze has an edge without a wall.
pub proof fn lemma_carved_perfect(
    m: Map<Hex, Walls>,
    start: Hex,
    orders: Seq<Seq<EdgeDirection>>,
)
    requires
        m.dom().finite(),
        are_orders(orders, m.dom().len()),
        m.contains_key(start),
        fresh(m),
        connected(m),
    ensures
        carved(m, start, orders).dom() == m.dom(),
        perfect(carved(m, start, orders), start),
        m.dom().len() >= 2 ==> forall|h: Hex|
            m.contains_key(h) ==> (#[trigger] carved(m, start, orders)[h]).count_spec() < 6,
{
    lemma_carved_keeps_tiles(m, start, orders);
    lemma_carved_spanning_tree(m, start, orders);
    if m.dom().len() >= 2 {
        assert forall|h: Hex| m.contains_key(h) implies (#[trigger] carved(
            m,
            start,
            orders,
        )[h]).count_spec() < 6 by {
            lemma_carved_openings(m, start, orders, h);
        }
    }
}

} // verus!
