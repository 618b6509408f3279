//! Shortest paths through a maze, found by A* search.
//!
//! The nodes of the graph are the tiles. There is an edge from a tile to a
//! neighbouring tile exactly if the first has no wall towards the second;
//! every edge costs one step. The search is guided by the distance that the
//! two positions would have on a grid without walls, which never
//! overestimates and changes by at most one per step.
use crate::hex::{EdgeDirection, Hex};
use crate::hex_map::HexMap;
use crate::maze::Maze;
use crate::walls::Walls;
use vstd::prelude::*;

verus! {

/// Whether one can step from `a` in direction `d` and arrive at `b`: both are
/// tiles, `b` is the neighbour of `a` in that direction, and `a` has no wall
/// there.
pub open spec fn open_step(m: Map<Hex, Walls>, a: Hex, d: EdgeDirection, b: Hex) -> bool {
    &&& m.contains_key(a)
    &&& m.contains_key(b)
    &&& a.neighbor_spec(d) == Some(b)
    &&& !m[a].has(d)
}

/// Whether one step leads from `a` to `b`.
pub open spec fn passable(m: Map<Hex, Walls>, a: Hex, b: Hex) -> bool {
    exists|d: EdgeDirection| open_step(m, a, d, b)
}

/// Whether one step leads from the position at index `i` of `p` to the next.
pub open spec fn step_ok(m: Map<Hex, Walls>, p: Seq<Hex>, i: int) -> bool {
    passable(m, p[i], p[i + 1])
}

/// Whether `p` is a walk through the maze: it is not empty and one step
/// leads from each of its positions to the next.
pub open spec fn is_path(m: Map<Hex, Walls>, p: Seq<Hex>) -> bool {
    &&& p.len() > 0
    &&& forall|i: int| 0 <= i < p.len() - 1 ==> #[trigger] step_ok(m, p, i)
}

/// Whether `p` is a walk through the maze that starts at `from` and ends at
/// `to`.
pub open spec fn path_between(m: Map<Hex, Walls>, p: Seq<Hex>, from: Hex, to: Hex) -> bool {
    &&& is_path(m, p)
    &&& p.first() == from
    &&& p.last() == to
}

/// Whether some walk through the maze leads from `from` to `to`.
pub open spec fn reachable(m: Map<Hex, Walls>, from: Hex, to: Hex) -> bool {
    exists|p: Seq<Hex>| path_between(m, p, from, to)
}

/// Whether `p` is a shortest walk from `from` to `to`.
pub open spec fn shortest_path(m: Map<Hex, Walls>, p: Seq<Hex>, from: Hex, to: Hex) -> bool {
    &&& path_between(m, p, from, to)
    &&& forall|q: Seq<Hex>| #[trigger] path_between(m, q, from, to) ==> p.len() <= q.len()
}

/// An entry of the search frontier: a position, the number of steps of the
/// walk that led to it, and that number plus the estimate of what is left.
#[derive(Clone, Copy, Debug, PartialEq, Eq, Structural)]
pub struct Node {
    pub position: Hex,
    pub f_score: u128,
    pub g_score: u64,
}

/// What the search knows of a position it has reached.
#[derive(Clone, Copy, Debug, PartialEq, Eq, Structural)]
pub struct Visit {
    /// The length of the shortest walk found so far.
    pub g_score: u64,
    /// The position before this one on that walk.
    pub parent: Hex,
    /// Whether the position has been expanded.
    pub closed: bool,
}

/// The state of a search: the frontier, in the order in which its entries
/// were put there, and what is known of the positions reached.
pub struct Search {
    pub open: Seq<Node>,
    pub visits: Map<Hex, Visit>,
}

/// The state with the frontier `open` and the knowledge `visits`.
pub open spec fn search_state(open: Seq<Node>, visits: Map<Hex, Visit>) -> Search {
    Search { open, visits }
}

/// Whether the entry at index `i` is the one that the search takes off the
/// frontier next: none has a lower score, and every earlier one has a
/// higher.
pub open spec fn is_lowest(open: Seq<Node>, i: int) -> bool {
    &&& 0 <= i < open.len()
    &&& forall|j: int| 0 <= j < open.len() ==> (#[trigger] open[j]).f_score >= open[i].f_score
    &&& forall|j: int| 0 <= j < i ==> (#[trigger] open[j]).f_score > open[i].f_score
}

/// The index of the entry that the search takes off the frontier next.
pub open spec fn lowest(open: Seq<Node>) -> int {
    choose|i: int| is_lowest(open, i)
}

/// The state after the search has followed the edge from the expanded
/// position `u` in direction `d`: where the edge is open and leads to a
/// position that is not expanded, and the walk over `u` is shorter than the
/// one known, that walk is recorded and the position put on the frontier.
pub open spec fn relax(
    s: Search,
    m: Map<Hex, Walls>,
    u: Hex,
    d: EdgeDirection,
    goal: Hex,
) -> Search {
    match u.neighbor_spec(d) {
        Some(n) => {
            let g = (s.visits[u].g_score + 1) as u64;
            if s.visits.contains_key(n) && s.visits[n].closed {
                s
            } else if !open_step(m, u, d, n) {
                s
            } else if !s.visits.contains_key(n) || g < s.visits[n].g_score {
                Search {
                    open: s.open.push(
                        Node {
                            position: n,
                            f_score: (g + n.distance_spec(goal)) as u128,
                            g_score: g,
                        },
                    ),
                    visits: s.visits.insert(n, Visit { g_score: g, parent: u, closed: false }),
                }
            } else {
                s
            }
        },
        None => s,
    }
}

/// The state after the search has followed the edges from `u` in the first
/// `k` directions.
pub open spec fn relax_upto(
    s: Search,
    m: Map<Hex, Walls>,
    u: Hex,
    goal: Hex,
    k: nat,
) -> Search
    decreases k,
{
    if k == 0 {
        s
    } else {
        relax(relax_upto(s, m, u, goal, (k - 1) as nat), m, u, EdgeDirection::nth(k - 1), goal)
    }
}

/// The state after the search has dealt with the entry `e` that it took off
/// the frontier: unless the position of `e` is expanded already, it is
/// marked as expanded and its edges are followed in all six directions.
pub open spec fn expand(s: Search, m: Map<Hex, Walls>, e: Node, goal: Hex) -> Search {
    let u = e.position;
    if !s.visits.contains_key(u) || s.visits[u].closed {
        s
    } else {
        let closed = Visit { g_score: s.visits[u].g_score, parent: s.visits[u].parent, closed: true };
        relax_upto(Search { visits: s.visits.insert(u, closed), ..s }, m, u, goal, 6)
    }
}

/// The walk that the parents record from the start to `h`.
pub open spec fn trail(v: Map<Hex, Visit>, from: Hex, h: Hex, fuel: nat) -> Seq<Hex>
    decreases fuel,
{
    if fuel == 0 || h == from {
        seq![h]
    } else {
        trail(v, from, v[h].parent, (fuel - 1) as nat).push(h)
    }
}

/// What a search that is in state `s` finds within `rounds` rounds: in each
/// round it takes the lowest entry off the frontier; if that is the goal,
/// the walk recorded to it is found, else the entry is dealt with. With an
/// empty frontier nothing is found.
pub open spec fn search(
    s: Search,
    m: Map<Hex, Walls>,
    from: Hex,
    to: Hex,
    rounds: nat,
) -> Option<Seq<Hex>>
    decreases rounds,
{
    if rounds == 0 || s.open.len() == 0 {
        None
    } else {
        let i = lowest(s.open);
        let e = s.open[i];
        if e.position == to {
            Some(trail(s.visits, from, to, s.visits[to].g_score as nat))
        } else {
            search(
                expand(Search { open: s.open.remove(i), ..s }, m, e, to),
                m,
                from,
                to,
                (rounds - 1) as nat,
            )
        }
    }
}

/// The state in which a search from `from` to `to` starts.
pub open spec fn search_start(from: Hex, to: Hex) -> Search {
    Search {
        open: seq![
            (Node { position: from, f_score: from.distance_spec(to) as u128, g_score: 0 }),
        ],
        visits: Map::<Hex, Visit>::empty().insert(
            from,
            Visit { g_score: 0, parent: from, closed: false },
        ),
    }
}

/// The walk that the search finds from `from` to `to`: the position alone
/// where the two are the same, none where one of them is no tile, and else
/// what the search finds in six rounds per tile and one more, which are all
/// the rounds it can make. Among the entries of the frontier with the
/// lowest score the search takes the one that was put there first.
pub open spec fn found_path(m: Map<Hex, Walls>, from: Hex, to: Hex) -> Option<Seq<Hex>> {
    if from == to {
        Some(seq![from])
    } else if !m.contains_key(from) || !m.contains_key(to) {
        None
    } else {
        search(search_start(from, to), m, from, to, 6 * m.dom().len() + 1)
    }
}

spec fn is_closed(v: Map<Hex, Visit>, h: Hex) -> bool {
    v.contains_key(h) && v[h].closed
}

spec fn closed_set(v: Map<Hex, Visit>) -> Set<Hex> {
    Set::new(|h: Hex| is_closed(v, h))
}

/// A reached position is a tile, and unless it is the start it was reached
/// over an open edge from an expanded position one step closer to the start.
spec fn rooted(m: Map<Hex, Walls>, v: Map<Hex, Visit>, from: Hex, h: Hex) -> bool {
    &&& m.contains_key(h)
    &&& v[h].g_score <= closed_set(v).len()
    &&& if h == from {
        v[h].g_score == 0
    } else {
        let p = v[h].parent;
        is_closed(v, p) && passable(m, p, h) && v[h].g_score == v[p].g_score + 1
    }
}

/// No walk from the start to `h` is shorter than the one found.
spec fn settled(m: Map<Hex, Walls>, v: Map<Hex, Visit>, from: Hex, h: Hex) -> bool {
    forall|q: Seq<Hex>| #[trigger] path_between(m, q, from, h) ==> q.len() >= v[h].g_score + 1
}

/// The open edge from `u` in direction `d`, if there is one, has been
/// followed.
spec fn relaxed(m: Map<Hex, Walls>, v: Map<Hex, Visit>, u: Hex, d: EdgeDirection) -> bool {
    match u.neighbor_spec(d) {
        Some(n) => open_step(m, u, d, n) ==> v.contains_key(n) && v[n].g_score <= v[u].g_score
            + 1,
        None => true,
    }
}

spec fn entry_for(e: Node, h: Hex, g: u64) -> bool {
    e.position == h && e.g_score == g
}

/// The frontier holds `h` with the length of the shortest walk found so far.
spec fn queued(v: Map<Hex, Visit>, open: Seq<Node>, h: Hex) -> bool {
    exists|i: int| 0 <= i < open.len() && entry_for(#[trigger] open[i], h, v[h].g_score)
}

spec fn entry_ok(v: Map<Hex, Visit>, to: Hex, e: Node) -> bool {
    &&& v.contains_key(e.position)
    &&& e.g_score >= v[e.position].g_score
    &&& e.f_score == e.g_score + e.position.distance_spec(to)
}

/// What holds of the search between two expansions, but that the frontier
/// need not hold `hole` and that the edges of `busy` in directions from
/// index `done` on need not have been followed.
spec fn search_inv_but(
    m: Map<Hex, Walls>,
    from: Hex,
    to: Hex,
    open: Seq<Node>,
    v: Map<Hex, Visit>,
    hole: Option<Hex>,
    busy: Option<Hex>,
    done: int,
) -> bool {
    &&& m.dom().finite()
    &&& from != to
    &&& v.contains_key(from)
    &&& !is_closed(v, to)
    &&& forall|h: Hex| #[trigger] v.contains_key(h) ==> rooted(m, v, from, h)
    &&& forall|h: Hex| #[trigger] is_closed(v, h) ==> settled(m, v, from, h)
    &&& forall|u: Hex, d: EdgeDirection|
        is_closed(v, u) && (busy == Some(u) ==> d.index_spec() < done) ==> #[trigger] relaxed(
            m,
            v,
            u,
            d,
        )
    &&& forall|h: Hex|
        #[trigger] v.contains_key(h) && !v[h].closed && hole != Some(h) ==> queued(v, open, h)
    &&& forall|i: int| 0 <= i < open.len() ==> entry_ok(v, to, #[trigger] open[i])
}

spec fn search_inv(
    m: Map<Hex, Walls>,
    from: Hex,
    to: Hex,
    open: Seq<Node>,
    v: Map<Hex, Visit>,
) -> bool {
    search_inv_but(m, from, to, open, v, None, None, 0)
}

proof fn lemma_closed_set(m: Map<Hex, Walls>, v: Map<Hex, Visit>, from: Hex)
    requires
        m.dom().finite(),
        forall|h: Hex| #[trigger] v.contains_key(h) ==> rooted(m, v, from, h),
    ensures
        closed_set(v).finite(),
        closed_set(v).len() <= m.dom().len(),
{
    assert(closed_set(v).subset_of(m.dom())) by {
        assert forall|h: Hex| closed_set(v).contains(h) implies m.dom().contains(h) by {
            assert(v.contains_key(h));
        }
    }
    vstd::set_lib::lemma_len_subset(closed_set(v), m.dom());
}

/// The recorded walk to a reached position is a walk from the start, and as
/// long as its recorded length says; along it each position is the parent of
/// the next.
proof fn lemma_trail(m: Map<Hex, Walls>, v: Map<Hex, Visit>, from: Hex, h: Hex)
    requires
        forall|x: Hex| #[trigger] v.contains_key(x) ==> rooted(m, v, from, x),
        v.contains_key(h),
    ensures
        ({
            let t = trail(v, from, h, v[h].g_score as nat);
            &&& path_between(m, t, from, h)
            &&& t.len() == v[h].g_score + 1
            &&& forall|j: int| 1 <= j < t.len() ==> t[j - 1] == v[#[trigger] t[j]].parent
            &&& forall|j: int|
                0 <= j < t.len() ==> v.contains_key(#[trigger] t[j]) && v[t[j]].g_score == j
        }),
    decreases v[h].g_score,
{
    let t = trail(v, from, h, v[h].g_score as nat);
    assert(rooted(m, v, from, h));
    if h == from {
        assert(t =~= seq![h]);
    } else {
        let p = v[h].parent;
        assert(v.contains_key(p));
        lemma_trail(m, v, from, p);
        let tp = trail(v, from, p, v[p].g_score as nat);
        assert(t =~= tp.push(h));
        assert forall|i: int| 0 <= i < t.len() - 1 implies #[trigger] step_ok(m, t, i) by {
            if i < tp.len() - 1 {
                assert(step_ok(m, tp, i));
            }
        }
        assert forall|j: int| 1 <= j < t.len() implies t[j - 1] == v[#[trigger] t[j]].parent by {
            if j < tp.len() {
                assert(tp[j - 1] == v[tp[j]].parent);
            }
        }
    }
}

/// The estimate at a position of a walk is at most the number of steps that
/// are left of the walk plus the estimate at its end.
proof fn lemma_heuristic_along(m: Map<Hex, Walls>, q: Seq<Hex>, to: Hex, i: int)
    requires
        is_path(m, q),
        0 <= i < q.len(),
    ensures
        q[i].distance_spec(to) <= (q.len() - 1 - i) + q.last().distance_spec(to),
    decreases q.len() - i,
{
    if i < q.len() - 1 {
        lemma_heuristic_along(m, q, to, i + 1);
        assert(step_ok(m, q, i));
        let a = q[i];
        let b = q[i + 1];
        let d = choose|d: EdgeDirection| open_step(m, a, d, b);
        Hex::lemma_distance_step(a, b, d, to);
    }
}

/// The first position of `q` from index `start` on that is not expanded.
proof fn lemma_first_open(v: Map<Hex, Visit>, q: Seq<Hex>, start: int, k: int) -> (i: int)
    requires
        0 <= start <= k < q.len(),
        !is_closed(v, q[k]),
        forall|j: int| 0 <= j < start ==> is_closed(v, #[trigger] q[j]),
    ensures
        0 <= i <= k,
        !is_closed(v, q[i]),
        forall|j: int| 0 <= j < i ==> is_closed(v, #[trigger] q[j]),
    decreases k - start,
{
    if !is_closed(v, q[start]) {
        start
    } else {
        lemma_first_open(v, q, start + 1, k)
    }
}

/// A walk cut off after one of its positions is a walk to that position.
proof fn lemma_prefix_path(m: Map<Hex, Walls>, q: Seq<Hex>, n: int)
    requires
        is_path(m, q),
        1 <= n <= q.len(),
    ensures
        path_between(m, q.take(n), q[0], q[n - 1]),
{
    let p = q.take(n);
    assert forall|i: int| 0 <= i < p.len() - 1 implies #[trigger] step_ok(m, p, i) by {
        assert(step_ok(m, q, i));
    }
}

/// The frontier's entry with the lowest score, if its position is not
/// expanded yet, has the length of a shortest walk to its position.
#[verifier::rlimit(40)]
proof fn lemma_lowest_is_settled(
    m: Map<Hex, Walls>,
    from: Hex,
    to: Hex,
    open: Seq<Node>,
    v: Map<Hex, Visit>,
    idx: int,
)
    requires
        search_inv(m, from, to, open, v),
        0 <= idx < open.len(),
        forall|j: int| 0 <= j < open.len() ==> (#[trigger] open[j]).f_score >= open[idx].f_score,
        !is_closed(v, open[idx].position),
    ensures
        settled(m, v, from, open[idx].position),
{
    let e = open[idx];
    let u = e.position;
    assert(entry_ok(v, to, e));
    assert forall|q: Seq<Hex>| #[trigger] path_between(m, q, from, u) implies q.len()
        >= v[u].g_score + 1 by {
        let k = q.len() - 1;
        let i = lemma_first_open(v, q, 0, k);
        let w = q[i];
        lemma_heuristic_along(m, q, to, i);
        if i > 0 {
            let c = q[i - 1];
            assert(is_closed(v, c));
            lemma_prefix_path(m, q, i);
            assert(settled(m, v, from, c));
            assert(path_between(m, q.take(i), from, c));
            assert(v[c].g_score <= i - 1);
            assert(step_ok(m, q, i - 1));
            let d = choose|d: EdgeDirection| open_step(m, c, d, w);
            assert(relaxed(m, v, c, d));
            assert(v.contains_key(w) && v[w].g_score <= i);
        } else {
            assert(w == from);
            assert(rooted(m, v, from, from));
        }
        assert(v.contains_key(w) && !v[w].closed);
        assert(queued(v, open, w));
        let j = choose|j: int| 0 <= j < open.len() && entry_for(#[trigger] open[j], w, v[w].g_score);
        assert(entry_ok(v, to, open[j]));
        assert(open[j].f_score >= e.f_score);
    }
}

/// When the frontier is empty, every position that a walk from the start
/// passes has been expanded.
proof fn lemma_exhausted(
    m: Map<Hex, Walls>,
    from: Hex,
    to: Hex,
    v: Map<Hex, Visit>,
    q: Seq<Hex>,
    i: int,
)
    requires
        search_inv(m, from, to, Seq::<Node>::empty(), v),
        is_path(m, q),
        q[0] == from,
        0 <= i < q.len(),
    ensures
        is_closed(v, q[i]),
    decreases i,
{
    if i == 0 {
        if !v[from].closed {
            assert(queued(v, Seq::<Node>::empty(), from));
        }
    } else {
        lemma_exhausted(m, from, to, v, q, i - 1);
        let c = q[i - 1];
        let w = q[i];
        assert(step_ok(m, q, i - 1));
        let d = choose|d: EdgeDirection| open_step(m, c, d, w);
        assert(relaxed(m, v, c, d));
        if !v[w].closed {
            assert(queued(v, Seq::<Node>::empty(), w));
        }
    }
}

/// A walk between two different positions starts and ends on a tile.
proof fn lemma_path_ends(m: Map<Hex, Walls>, q: Seq<Hex>, from: Hex, to: Hex)
    requires
        path_between(m, q, from, to),
        from != to,
    ensures
        m.contains_key(from),
        m.contains_key(to),
{
    assert(q.len() >= 2);
    assert(step_ok(m, q, 0));
    assert(step_ok(m, q, q.len() - 2));
}

/// Taking an entry off the frontier leaves the search in order, but that the
/// frontier need not hold the entry's position any more.
proof fn lemma_popped(
    m: Map<Hex, Walls>,
    from: Hex,
    to: Hex,
    open: Seq<Node>,
    v: Map<Hex, Visit>,
    idx: int,
)
    requires
        search_inv(m, from, to, open, v),
        0 <= idx < open.len(),
    ensures
        search_inv_but(m, from, to, open.remove(idx), v, Some(open[idx].position), None, 0),
{
    let rest = open.remove(idx);
    let u = open[idx].position;
    assert forall|h: Hex|
        #[trigger] v.contains_key(h) && !v[h].closed && Some(u) != Some(h) implies queued(
        v,
        rest,
        h,
    ) by {
        assert(queued(v, open, h));
        let i = choose|i: int| 0 <= i < open.len() && entry_for(#[trigger] open[i], h, v[h].g_score);
        if i < idx {
            assert(entry_for(rest[i], h, v[h].g_score));
        } else {
            assert(entry_for(rest[i - 1], h, v[h].g_score));
        }
    }
    assert forall|i: int| 0 <= i < rest.len() implies entry_ok(v, to, #[trigger] rest[i]) by {
        if i < idx {
            assert(entry_ok(v, to, open[i]));
        } else {
            assert(entry_ok(v, to, open[i + 1]));
        }
    }
}

/// Marking a settled position as expanded leaves the search in order, but
/// that none of its edges has been followed yet.
#[verifier::rlimit(40)]
proof fn lemma_close(
    m: Map<Hex, Walls>,
    from: Hex,
    to: Hex,
    open: Seq<Node>,
    v0: Map<Hex, Visit>,
    u: Hex,
)
    requires
        search_inv_but(m, from, to, open, v0, Some(u), None, 0),
        v0.contains_key(u),
        !v0[u].closed,
        u != to,
        settled(m, v0, from, u),
    ensures
        ({
            let v1 = v0.insert(
                u,
                Visit { g_score: v0[u].g_score, parent: v0[u].parent, closed: true },
            );
            &&& search_inv_but(m, from, to, open, v1, None, Some(u), 0)
            &&& is_closed(v1, u)
            &&& v1[u].g_score < closed_set(v1).len()
            &&& closed_set(v1) == closed_set(v0).insert(u)
            &&& closed_set(v1).len() == closed_set(v0).len() + 1
        }),
{
    let v1 = v0.insert(u, Visit { g_score: v0[u].g_score, parent: v0[u].parent, closed: true });
    lemma_closed_set(m, v0, from);
    assert(closed_set(v1) =~= closed_set(v0).insert(u));
    assert(!closed_set(v0).contains(u));
    assert(rooted(m, v0, from, u));
    assert forall|h: Hex| #[trigger] v1.contains_key(h) implies rooted(m, v1, from, h) by {
        assert(v0.contains_key(h));
        assert(rooted(m, v0, from, h));
        if h != from {
            let p = v0[h].parent;
            assert(is_closed(v0, p));
            assert(is_closed(v1, p));
        }
    }
    assert forall|h: Hex| #[trigger] is_closed(v1, h) implies settled(m, v1, from, h) by {
        if h != u {
            assert(is_closed(v0, h));
            assert(settled(m, v0, from, h));
        }
    }
    assert forall|x: Hex, d: EdgeDirection|
        is_closed(v1, x) && (Some(u) == Some(x) ==> d.index_spec() < 0) implies #[trigger] relaxed(
        m,
        v1,
        x,
        d,
    ) by {
        assert(is_closed(v0, x));
        assert(relaxed(m, v0, x, d));
    }
    assert forall|h: Hex| #[trigger] v1.contains_key(h) && !v1[h].closed implies queued(
        v1,
        open,
        h,
    ) by {
        assert(h != u);
        assert(queued(v0, open, h));
        let i = choose|i: int| 0 <= i < open.len() && entry_for(#[trigger] open[i], h, v0[h].g_score);
        assert(entry_for(open[i], h, v1[h].g_score));
    }
    assert forall|i: int| 0 <= i < open.len() implies entry_ok(v1, to, #[trigger] open[i]) by {
        assert(entry_ok(v0, to, open[i]));
    }
}

/// An open edge between two expanded positions has been followed: the walk
/// to the second is no longer than the walk over the first.
proof fn lemma_closed_neighbor(
    m: Map<Hex, Walls>,
    from: Hex,
    v: Map<Hex, Visit>,
    u: Hex,
    d: EdgeDirection,
    n: Hex,
)
    requires
        forall|h: Hex| #[trigger] v.contains_key(h) ==> rooted(m, v, from, h),
        forall|h: Hex| #[trigger] is_closed(v, h) ==> settled(m, v, from, h),
        is_closed(v, u),
        is_closed(v, n),
        u.neighbor_spec(d) == Some(n),
    ensures
        relaxed(m, v, u, d),
{
    if open_step(m, u, d, n) {
        lemma_trail(m, v, from, u);
        let t = trail(v, from, u, v[u].g_score as nat);
        let q = t.push(n);
        assert forall|i: int| 0 <= i < q.len() - 1 implies #[trigger] step_ok(m, q, i) by {
            if i < t.len() - 1 {
                assert(step_ok(m, t, i));
            }
        }
        assert(path_between(m, q, from, n));
        assert(settled(m, v, from, n));
    }
}

/// Once the edge in the direction with index `k` has been followed, the
/// edges in all directions up to it have been.
proof fn lemma_direction_done(
    m: Map<Hex, Walls>,
    from: Hex,
    to: Hex,
    open: Seq<Node>,
    v: Map<Hex, Visit>,
    u: Hex,
    k: int,
)
    requires
        search_inv_but(m, from, to, open, v, None, Some(u), k),
        0 <= k < 6,
        relaxed(m, v, u, EdgeDirection::nth(k)),
    ensures
        search_inv_but(m, from, to, open, v, None, Some(u), k + 1),
{
    assert forall|x: Hex, d: EdgeDirection|
        is_closed(v, x) && (Some(u) == Some(x) ==> d.index_spec() < k + 1) implies #[trigger] relaxed(
        m,
        v,
        x,
        d,
    ) by {
        if x == u && d.index_spec() == k {
            assert(d == EdgeDirection::nth(k));
        }
    }
}

/// Once the edges in all six directions have been followed, the expansion is
/// complete.
proof fn lemma_all_directions_done(
    m: Map<Hex, Walls>,
    from: Hex,
    to: Hex,
    open: Seq<Node>,
    v: Map<Hex, Visit>,
    u: Hex,
)
    requires
        search_inv_but(m, from, to, open, v, None, Some(u), 6),
    ensures
        search_inv(m, from, to, open, v),
{
    assert forall|x: Hex, d: EdgeDirection| is_closed(v, x) implies #[trigger] relaxed(
        m,
        v,
        x,
        d,
    ) by {
        assert(d.index_spec() < 6);
    }
}

/// Recording a shorter walk over the expanded position `u` to its neighbour
/// `n`, and putting `n` on the frontier, leaves the search in order.
#[verifier::rlimit(40)]
proof fn lemma_update(
    m: Map<Hex, Walls>,
    from: Hex,
    to: Hex,
    o0: Seq<Node>,
    v0: Map<Hex, Visit>,
    u: Hex,
    d: EdgeDirection,
    n: Hex,
    done: int,
    node: Node,
)
    requires
        search_inv_but(m, from, to, o0, v0, None, Some(u), done),
        is_closed(v0, u),
        v0[u].g_score < closed_set(v0).len(),
        v0[u].g_score + 1 <= u64::MAX,
        open_step(m, u, d, n),
        !is_closed(v0, n),
        v0.contains_key(n) ==> v0[u].g_score + 1 < v0[n].g_score,
        node == (Node {
            position: n,
            f_score: (v0[u].g_score + 1 + n.distance_spec(to)) as u128,
            g_score: (v0[u].g_score + 1) as u64,
        }),
        v0[u].g_score + 1 + n.distance_spec(to) <= u128::MAX,
    ensures
        ({
            let v1 = v0.insert(
                n,
                Visit { g_score: (v0[u].g_score + 1) as u64, parent: u, closed: false },
            );
            &&& search_inv_but(m, from, to, o0.push(node), v1, None, Some(u), done)
            &&& closed_set(v1) == closed_set(v0)
            &&& relaxed(m, v1, u, d)
            &&& is_closed(v1, u)
            &&& v1[u] == v0[u]
        }),
{
    let v1 = v0.insert(n, Visit { g_score: (v0[u].g_score + 1) as u64, parent: u, closed: false });
    let o1 = o0.push(node);
    assert(rooted(m, v0, from, from));
    assert(n != from);
    assert(n != u);
    assert(closed_set(v1) =~= closed_set(v0));
    assert forall|h: Hex| #[trigger] v1.contains_key(h) implies rooted(m, v1, from, h) by {
        if h == n {
            assert(passable(m, u, n));
        } else {
            assert(rooted(m, v0, from, h));
            if h != from {
                let p = v0[h].parent;
                assert(is_closed(v0, p));
                assert(p != n);
            }
        }
    }
    assert forall|h: Hex| #[trigger] is_closed(v1, h) implies settled(m, v1, from, h) by {
        assert(is_closed(v0, h));
        assert(settled(m, v0, from, h));
    }
    assert forall|x: Hex, e: EdgeDirection|
        is_closed(v1, x) && (Some(u) == Some(x) ==> e.index_spec() < done) implies #[trigger] relaxed(
        m,
        v1,
        x,
        e,
    ) by {
        assert(is_closed(v0, x));
        assert(relaxed(m, v0, x, e));
    }
    assert forall|h: Hex| #[trigger] v1.contains_key(h) && !v1[h].closed implies queued(
        v1,
        o1,
        h,
    ) by {
        if h == n {
            assert(entry_for(o1[o0.len() as int], n, v1[n].g_score));
        } else {
            assert(queued(v0, o0, h));
            let i = choose|i: int| 0 <= i < o0.len() && entry_for(#[trigger] o0[i], h, v0[h].g_score);
            assert(entry_for(o1[i], h, v1[h].g_score));
        }
    }
    assert forall|i: int| 0 <= i < o1.len() implies entry_ok(v1, to, #[trigger] o1[i]) by {
        if i < o0.len() {
            assert(entry_ok(v0, to, o0[i]));
        }
    }
}

/// From a tile with walls on all six edges no walk leads to any other
/// position.
pub proof fn lemma_enclosed_is_cut_off(m: Map<Hex, Walls>, start: Hex, other: Hex)
    requires
        forall|d: EdgeDirection| m[start].has(d),
        other != start,
    ensures
        !reachable(m, start, other),
{
    assert forall|q: Seq<Hex>| !path_between(m, q, start, other) by {
        if path_between(m, q, start, other) {
            assert(step_ok(m, q, 0));
            let a = q[0];
            let b = q[1];
            let d = choose|d: EdgeDirection| open_step(m, a, d, b);
            assert(m[start].has(d));
        }
    }
}

/// Only one entry is the one that the search takes off the frontier next.
proof fn lemma_lowest(open: Seq<Node>, i: int)
    requires
        is_lowest(open, i),
    ensures
        lowest(open) == i,
{
    let j = lowest(open);
    assert(is_lowest(open, j));
    if j < i {
        assert(open[j].f_score > open[i].f_score);
    }
    if i < j {
        assert(open[i].f_score > open[j].f_score);
    }
}

/// The estimate of the number of steps from `from` to `to`: their distance
/// on a grid without walls.
fn heuristic(from: Hex, to: Hex) -> (h: u64)
    ensures
        h == from.distance_spec(to),
{
    from.distance_to(to)
}

/// Puts the start on the frontier, reached by the empty walk.
fn initialize_search(
    open_set: &mut Vec<Node>,
    visits: &mut HexMap<Visit>,
    start: Hex,
    goal: Hex,
)
    requires
        old(open_set)@.len() == 0,
        old(visits)@ == Map::<Hex, Visit>::empty(),
    ensures
        search_state(final(open_set)@, final(visits)@) == search_start(start, goal),
{
    visits.insert(start, Visit { g_score: 0, parent: start, closed: false });
    open_set.push(Node { position: start, f_score: heuristic(start, goal) as u128, g_score: 0 });
    assert(open_set@ =~= search_start(start, goal).open);
}

/// Takes the entry with the lowest score off the frontier; among entries
/// with the same score, the one that has waited longest.
fn pop_lowest(open_set: &mut Vec<Node>) -> (popped: Option<Node>)
    ensures
        old(open_set)@.len() == 0 ==> popped is None && final(open_set)@ == old(open_set)@,
        old(open_set)@.len() > 0 ==> {
            &&& is_lowest(old(open_set)@, lowest(old(open_set)@))
            &&& popped == Some(old(open_set)@[lowest(old(open_set)@)])
            &&& final(open_set)@ == old(open_set)@.remove(lowest(old(open_set)@))
        },
{
    if open_set.len() == 0 {
        return None;
    }
    let mut best: usize = 0;
    let mut i: usize = 1;
    while i < open_set.len()
        invariant
            0 <= best < i <= open_set.len(),
            forall|j: int| 0 <= j < i ==> (#[trigger] open_set@[j]).f_score >= open_set@[best as int].f_score,
            forall|j: int| 0 <= j < best ==> (#[trigger] open_set@[j]).f_score > open_set@[best as int].f_score,
        decreases open_set.len() - i,
    {
        if open_set[i].f_score < open_set[best].f_score {
            best = i;
        }
        i += 1;
    }
    proof {
        lemma_lowest(open_set@, best as int);
    }
    let e = open_set.remove(best);
    Some(e)
}

impl Maze {
    /// The shortest walk from `from` to `to`, or `None` if there is no walk.
    ///
    /// A walk leads from tile to neighbouring tile, never through a wall of
    /// the tile it leaves. The walk from a position to itself is that
    /// position alone.
    #[verifier::rlimit(40)]
    pub fn find_path(&self, from: Hex, to: Hex) -> (path: Option<Vec<Hex>>)
        ensures
            path matches Some(p) ==> shortest_path(self@, p@, from, to),
            path is None <==> !reachable(self@, from, to),
            from == to ==> (path matches Some(p) && p@ == seq![from]),
            match path {
                Some(p) => found_path(self@, from, to) == Some(p@),
                None => found_path(self@, from, to) is None,
            },
    {
        if from == to {
            let p = vec![from];
            proof {
                assert(p@ =~= seq![from]);
                assert(path_between(self@, p@, from, to));
            }
            return Some(p);
        }
        if !self.contains(&from) || !self.contains(&to) {
            proof {
                assert forall|q: Seq<Hex>| !path_between(self@, q, from, to) by {
                    if path_between(self@, q, from, to) {
                        lemma_path_ends(self@, q, from, to);
                    }
                }
            }
            return None;
        }
        let mut open_set: Vec<Node> = Vec::new();
        let mut visits: HexMap<Visit> = HexMap::new();
        initialize_search(&mut open_set, &mut visits, from, to);
        proof {
            self.lemma_finite();
            let v = visits@;
            assert(v == search_start(from, to).visits);
            assert(open_set@ == search_start(from, to).open);
            assert(closed_set(v) =~= Set::<Hex>::empty());
            assert(rooted(self@, v, from, from));
            assert(entry_for(open_set@[0], from, v[from].g_score));
            assert(queued(v, open_set@, from));
            assert(search_inv(self@, from, to, open_set@, v));
        }
        let ghost total: nat = 6 * self@.dom().len() + 1;
        let ghost mut left: nat = total;
        loop
            invariant
                search_inv(self@, from, to, open_set@, visits@),
                from != to,
                self@.contains_key(from),
                self@.contains_key(to),
                total == 6 * self@.dom().len() + 1,
                open_set@.len() + 6 * (self@.dom().len() - closed_set(visits@).len()) <= left,
                search(search_state(open_set@, visits@), self@, from, to, left)
                    == search(search_start(from, to), self@, from, to, total),
            decreases self@.dom().len() - closed_set(visits@).len(), open_set@.len(),
        {
            let ghost before = open_set@;
            let ghost seen = visits@;
            proof {
                lemma_closed_set(self@, seen, from);
            }
            match pop_lowest(&mut open_set) {
                None => {
                    proof {
                        assert(open_set@ =~= Seq::<Node>::empty());
                        assert forall|q: Seq<Hex>| !path_between(self@, q, from, to) by {
                            if path_between(self@, q, from, to) {
                                lemma_exhausted(self@, from, to, seen, q, q.len() - 1);
                            }
                        }
                    }
                    return None;
                },
                Some(current) => {
                    proof {
                        let idx = lowest(before);
                        assert(entry_ok(seen, to, before[idx]));
                        if !is_closed(seen, current.position) {
                            lemma_lowest_is_settled(self@, from, to, before, seen, idx);
                        }
                        lemma_popped(self@, from, to, before, seen, idx);
                    }
                    if current.position == to {
                        let p = self.reconstruct_path(&visits, from, current.position);
                        proof {
                            lemma_trail(self@, seen, from, to);
                        }
                        return Some(p);
                    }
                    let expanded = self.process_current_node(
                        current,
                        from,
                        to,
                        &mut open_set,
                        &mut visits,
                    );
                    proof {
                        lemma_closed_set(self@, visits@, from);
                        if expanded {
                            assert(closed_set(visits@).len() == closed_set(seen).len() + 1);
                        } else {
                            assert(open_set@.len() == before.len() - 1);
                            assert(visits@ == seen);
                        }
                        left = (left - 1) as nat;
                    }
                },
            }
        }
    }

    /// Whether the step from `from` in direction `direction` to `to` is
    /// open: both are tiles and `from` has no wall in that direction.
    fn is_valid_move(&self, from: &Hex, to: &Hex, direction: EdgeDirection) -> (r: bool)
        requires
            from.neighbor_spec(direction) == Some(*to),
        ensures
            r == open_step(self@, *from, direction, *to),
    {
        if let Some(walls) = self.get_walls(from) {
            if self.contains(to) {
                return !walls.contains(direction);
            }
        }
        false
    }

    /// Expands the position of `current` unless it has been expanded before,
    /// and says whether it did.
    #[verifier::rlimit(40)]
    fn process_current_node(
        &self,
        current: Node,
        from: Hex,
        goal: Hex,
        open_set: &mut Vec<Node>,
        visits: &mut HexMap<Visit>,
    ) -> (expanded: bool)
        requires
            search_inv_but(
                self@,
                from,
                goal,
                old(open_set)@,
                old(visits)@,
                Some(current.position),
                None,
                0,
            ),
            entry_ok(old(visits)@, goal, current),
            current.position != goal,
            !is_closed(old(visits)@, current.position) ==> settled(
                self@,
                old(visits)@,
                from,
                current.position,
            ),
        ensures
            search_inv(self@, from, goal, final(open_set)@, final(visits)@),
            expanded ==> closed_set(final(visits)@).len() == closed_set(old(visits)@).len() + 1,
            expanded ==> final(open_set)@.len() <= old(open_set)@.len() + 6,
            !expanded ==> final(visits)@ == old(visits)@ && final(open_set)@ == old(open_set)@,
            search_state(final(open_set)@, final(visits)@) == expand(
                search_state(old(open_set)@, old(visits)@),
                self@,
                current,
                goal,
            ),
    {
        let u = current.position;
        let seen = match visits.get(&u) {
            Some(s) => *s,
            None => {
                return false;
            },
        };
        if seen.closed {
            return false;
        }
        let ghost v0 = visits@;
        proof {
            lemma_closed_set(self@, v0, from);
        }
        visits.insert(u, Visit { g_score: seen.g_score, parent: seen.parent, closed: true });
        proof {
            lemma_close(self@, from, goal, open_set@, v0, u);
        }
        self.process_neighbors(current, from, goal, open_set, visits);
        true
    }

    /// Follows every open edge that leaves the position of `current`.
    #[verifier::rlimit(40)]
    fn process_neighbors(
        &self,
        current: Node,
        from: Hex,
        goal: Hex,
        open_set: &mut Vec<Node>,
        visits: &mut HexMap<Visit>,
    )
        requires
            search_inv_but(
                self@,
                from,
                goal,
                old(open_set)@,
                old(visits)@,
                None,
                Some(current.position),
                0,
            ),
            is_closed(old(visits)@, current.position),
            old(visits)@[current.position].g_score < closed_set(old(visits)@).len(),
        ensures
            search_inv(self@, from, goal, final(open_set)@, final(visits)@),
            closed_set(final(visits)@) == closed_set(old(visits)@),
            final(open_set)@.len() <= old(open_set)@.len() + 6,
            search_state(final(open_set)@, final(visits)@) == relax_upto(
                search_state(old(open_set)@, old(visits)@),
                self@,
                current.position,
                goal,
                6,
            ),
    {
        let ghost s0 = search_state(open_set@, visits@);
        let directions = EdgeDirection::all_directions();
        let u = current.position;
        let mut k: usize = 0;
        while k < 6
            invariant
                0 <= k <= 6,
                forall|i: int| 0 <= i < 6 ==> directions[i] == EdgeDirection::nth(i),
                forall|i: int| 0 <= i < 6 ==> (#[trigger] directions[i]).index_spec() == i,
                u == current.position,
                search_inv_but(self@, from, goal, open_set@, visits@, None, Some(u), k as int),
                is_closed(visits@, u),
                visits@[u].g_score < closed_set(visits@).len(),
                closed_set(visits@) == closed_set(old(visits)@),
                open_set@.len() <= s0.open.len() + k,
                s0 == search_state(old(open_set)@, old(visits)@),
                search_state(open_set@, visits@) == relax_upto(
                    s0,
                    self@,
                    u,
                    goal,
                    k as nat,
                ),
            decreases 6 - k,
        {
            let direction = directions[k];
            let ghost v0 = visits@;
            let ghost o0 = open_set@;
            assert(direction.index_spec() == k);
            assert(direction == EdgeDirection::nth(k as int));
            match u.neighbor(direction) {
                None => {},
                Some(neighbor_pos) => {
                    let closed = match visits.get(&neighbor_pos) {
                        Some(s) => s.closed,
                        None => false,
                    };
                    if closed {
                        proof {
                            lemma_closed_neighbor(self@, from, v0, u, direction, neighbor_pos);
                        }
                    } else if self.is_valid_move(&u, &neighbor_pos, direction) {
                        self.update_neighbor(
                            current,
                            neighbor_pos,
                            direction,
                            from,
                            goal,
                            open_set,
                            visits,
                            k,
                        );
                    }
                },
            }
            proof {
                lemma_direction_done(self@, from, goal, open_set@, visits@, u, k as int);
                assert(search_state(open_set@, visits@) == relax(
                    search_state(o0, v0),
                    self@,
                    u,
                    direction,
                    goal,
                ));
            }
            k += 1;
        }
        proof {
            lemma_all_directions_done(self@, from, goal, open_set@, visits@, u);
        }
    }

    /// Records the walk over `current` to its neighbour `neighbor_pos` if it
    /// is shorter than the walk known so far, and puts the neighbour on the
    /// frontier.
    #[verifier::rlimit(40)]
    fn update_neighbor(
        &self,
        current: Node,
        neighbor_pos: Hex,
        direction: EdgeDirection,
        from: Hex,
        goal: Hex,
        open_set: &mut Vec<Node>,
        visits: &mut HexMap<Visit>,
        done: usize,
    )
        requires
            search_inv_but(
                self@,
                from,
                goal,
                old(open_set)@,
                old(visits)@,
                None,
                Some(current.position),
                done as int,
            ),
            is_closed(old(visits)@, current.position),
            old(visits)@[current.position].g_score < closed_set(old(visits)@).len(),
            open_step(self@, current.position, direction, neighbor_pos),
            !is_closed(old(visits)@, neighbor_pos),
        ensures
            search_inv_but(
                self@,
                from,
                goal,
                final(open_set)@,
                final(visits)@,
                None,
                Some(current.position),
                done as int,
            ),
            is_closed(final(visits)@, current.position),
            final(visits)@[current.position] == old(visits)@[current.position],
            closed_set(final(visits)@) == closed_set(old(visits)@),
            relaxed(self@, final(visits)@, current.position, direction),
            final(open_set)@.len() <= old(open_set)@.len() + 1,
            search_state(final(open_set)@, final(visits)@) == relax(
                search_state(old(open_set)@, old(visits)@),
                self@,
                current.position,
                direction,
                goal,
            ),
    {
        let u = current.position;
        let ghost v0 = visits@;
        let ghost o0 = open_set@;
        proof {
            lemma_closed_set(self@, v0, from);
            self.lemma_finite();
            assert(v0[u].g_score < self@.dom().len());
        }
        let g_here: u64 = match visits.get(&u) {
            Some(s) => s.g_score,
            None => 0,
        };
        let tentative_g_score: u64 = g_here + 1;
        let improves = match visits.get(&neighbor_pos) {
            Some(s) => tentative_g_score < s.g_score,
            None => true,
        };
        if improves {
            visits.insert(
                neighbor_pos,
                Visit { g_score: tentative_g_score, parent: u, closed: false },
            );
            let node = Node {
                position: neighbor_pos,
                f_score: tentative_g_score as u128 + heuristic(neighbor_pos, goal) as u128,
                g_score: tentative_g_score,
            };
            open_set.push(node);
            proof {
                lemma_update(self@, from, goal, o0, v0, u, direction, neighbor_pos, done as int, node);
            }
        }
    }

    /// The walk that the search recorded from `from` to `current`.
    fn reconstruct_path(&self, visits: &HexMap<Visit>, from: Hex, current: Hex) -> (path: Vec<Hex>)
        requires
            forall|x: Hex| #[trigger] visits@.contains_key(x) ==> rooted(self@, visits@, from, x),
            visits@.contains_key(current),
        ensures
            path@ == trail(visits@, from, current, visits@[current].g_score as nat),
    {
        let ghost t = trail(visits@, from, current, visits@[current].g_score as nat);
        proof {
            lemma_trail(self@, visits@, from, current);
        }
        let mut back: Vec<Hex> = Vec::new();
        back.push(current);
        let mut pos = current;
        while pos != from
            invariant
                1 <= back@.len() <= t.len(),
                pos == back@.last(),
                forall|i: int| 0 <= i < back@.len() ==> #[trigger] back@[i] == t[t.len() - 1 - i],
                t.len() == visits@[current].g_score + 1,
                t[0] == from,
                forall|j: int| 1 <= j < t.len() ==> t[j - 1] == visits@[#[trigger] t[j]].parent,
                forall|j: int|
                    0 <= j < t.len() ==> visits@.contains_key(#[trigger] t[j])
                        && visits@[t[j]].g_score == j,
            decreases t.len() - back@.len(),
        {
            let ghost j = t.len() - back@.len();
            assert(back@[back@.len() - 1] == t[j]);
            assert(visits@.contains_key(t[j]));
            let parent = match visits.get(&pos) {
                Some(s) => s.parent,
                None => from,
            };
            assert(j >= 1);
            assert(t[j - 1] == visits@[t[j]].parent);
            back.push(parent);
            pos = parent;
        }
        proof {
            let j = t.len() - back@.len();
            assert(back@[back@.len() - 1] == t[j]);
            assert(visits@[t[j]].g_score == j);
            assert(visits@[t[0]].g_score == 0);
        }
        let mut path: Vec<Hex> = Vec::new();
        let mut i: usize = back.len();
        while i > 0
            invariant
                0 <= i <= back@.len(),
                back@.len() == t.len(),
                path@.len() == back@.len() - i,
                forall|n: int| 0 <= n < back@.len() ==> #[trigger] back@[n] == t[t.len() - 1 - n],
                forall|n: int| 0 <= n < path@.len() ==> #[trigger] path@[n] == t[n],
            decreases i,
        {
            i -= 1;
            path.push(back[i]);
        }
        assert(path@ =~= t);
        path
    }
}

} // verus!
