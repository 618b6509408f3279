//! Maze generation: drawing the orders in which a walk tries the directions
//! and carving along them.
//!
//! The orders come from the ChaCha generator with twelve rounds that a seed
//! is expanded into. The library keeps the state of the generator as two
//! plain values, the key and the position in the stream, and hands both to
//! the generator for every draw.
use crate::carve::{are_orders, carve, carved, is_order, names, order_list};
use crate::hex::{EdgeDirection, Hex};
use crate::maze::Maze;
use crate::perfect::{
    connected, fresh, lemma_carved_keeps_tiles, lemma_carved_perfect, lemma_carved_symmetric,
    perfect, symmetric,
};
use crate::walls::Walls;
use rand::seq::SliceRandom;
use rand::SeedableRng;
use rand_chacha::ChaCha12Rng;
use vstd::prelude::*;

verus! {

/// The key of the generator that `seed` is expanded into.
pub uninterp spec fn key_of_seed(seed: u64) -> Seq<u8>;

/// What a shuffle of `order` gives when the generator with the key `key`
/// stands at position `pos` of its stream: the shuffled order, and the
/// position at which the generator stands afterwards.
pub uninterp spec fn shuffled(key: Seq<u8>, pos: u128, order: Seq<EdgeDirection>) -> (
    Seq<EdgeDirection>,
    u128,
);

/// `ChaCha12Rng::seed_from_u64` and `get_seed`: the key that the seed is
/// expanded into, which is the same for the same seed.
#[verifier::external_body]
fn seed_key(seed: u64) -> (key: [u8; 32])
    ensures
        key@ == key_of_seed(seed),
{
    ChaCha12Rng::seed_from_u64(seed).get_seed()
}

/// `rand::random`: a number from the thread's generator, which is seeded by
/// the system. Nothing is claimed of the number. Where the system has no
/// entropy to give, the call does not return.
#[verifier::external_body]
fn entropy_seed() -> (seed: u64) {
    rand::random()
}

/// `SliceRandom::shuffle` with the generator that `ChaCha12Rng::from_seed`
/// makes of `key` and `set_word_pos` moves to `pos`; the result is the
/// position that `get_word_pos` reports afterwards. The shuffle swaps
/// entries of the array, so the array holds afterwards what it held before,
/// in an order that follows from the key, the position and the array.
#[verifier::external_body]
fn shuffle_at(key: &[u8; 32], pos: u128, order: &mut [EdgeDirection; 6]) -> (next: u128)
    ensures
        (final(order)@, next) == shuffled(key@, pos, old(order)@),
        final(order)@.to_multiset() == old(order)@.to_multiset(),
{
    let mut rng = ChaCha12Rng::from_seed(*key);
    rng.set_word_pos(pos);
    order.shuffle(&mut rng);
    rng.get_word_pos()
}

/// The six directions in the order of their indices.
pub open spec fn plain_order() -> Seq<EdgeDirection> {
    Seq::new(6, |i: int| EdgeDirection::nth(i))
}

/// The position in its stream at which the generator with the key `key`
/// stands after `count` shuffles of the six directions.
pub open spec fn position_after(key: Seq<u8>, count: nat) -> u128
    decreases count,
{
    if count == 0 {
        0
    } else {
        shuffled(key, position_after(key, (count - 1) as nat), plain_order()).1
    }
}

/// The first `count` orders that the generator with the key `key` draws:
/// each is a shuffle of the six directions in the order of their indices.
pub open spec fn drawn_orders(key: Seq<u8>, count: nat) -> Seq<Seq<EdgeDirection>> {
    Seq::new(count, |i: int| shuffled(key, position_after(key, i as nat), plain_order()).0)
}

/// The first `count` orders that follow from `seed`.
pub open spec fn orders_of_seed(seed: u64, count: nat) -> Seq<Seq<EdgeDirection>> {
    drawn_orders(key_of_seed(seed), count)
}

/// The ways to generate a maze.
#[derive(Clone, Copy, Debug, PartialEq, Eq, Structural)]
pub enum GeneratorType {
    /// A depth-first walk that tries the directions in random order and goes
    /// back when it is stuck.
    RecursiveBacktracking,
}

impl Default for GeneratorType {
    fn default() -> (g: GeneratorType)
        ensures
            g == GeneratorType::RecursiveBacktracking,
    {
        GeneratorType::RecursiveBacktracking
    }
}

impl GeneratorType {
    /// Generates a maze in `maze`, which holds the tiles, from `start_pos` or
    /// else from the origin, with random choices that follow from `seed` or
    /// else from the system's entropy.
    pub fn generate(&self, maze: &mut Maze, start_pos: Option<Hex>, seed: Option<u64>)
        ensures
            generated(old(maze)@, start_pos, seed, final(maze)@),
            final(maze)@.dom() == old(maze)@.dom(),
    {
        match self {
            GeneratorType::RecursiveBacktracking => generate_backtracking(maze, start_pos, seed),
        }
    }
}

/// The start of the walk: the given position, or else the origin.
pub open spec fn start_or_origin(start_pos: Option<Hex>) -> Hex {
    match start_pos {
        Some(start) => start,
        None => Hex::origin(),
    }
}

/// Whether `after` is what the generator makes of `before`: what a
/// depth-first walk from the start carves along orders of the six
/// directions, one per tile. With a seed the orders are those that follow
/// from it; without one they follow from some seed.
pub open spec fn generated(
    before: Map<Hex, Walls>,
    start_pos: Option<Hex>,
    seed: Option<u64>,
    after: Map<Hex, Walls>,
) -> bool {
    exists|used: u64|
        {
            &&& seed matches Some(given) ==> used == given
            &&& are_orders(#[trigger] orders_of_seed(used, before.dom().len()), before.dom().len())
            &&& after == carved(
                before,
                start_or_origin(start_pos),
                orders_of_seed(used, before.dom().len()),
            )
        }
}

/// Draws one order of the six directions from the generator with the key
/// `key` at position `pos` of its stream.
fn draw_order(key: &[u8; 32], pos: u128) -> (drawn: ([EdgeDirection; 6], u128))
    ensures
        (drawn.0@, drawn.1) == shuffled(key@, pos, plain_order()),
        is_order(drawn.0@),
{
    let mut order = EdgeDirection::all_directions();
    let ghost plain = order;
    proof {
        assert(plain@ =~= plain_order());
    }
    let next = shuffle_at(key, pos, &mut order);
    proof {
        broadcast use vstd::seq_lib::group_to_multiset_ensures;

        assert forall|d: EdgeDirection| #[trigger] names(order@, d) by {
            assert(plain[d.index_spec() as int] == d);
            assert(plain@.contains(d));
            assert(plain@.to_multiset().count(d) > 0);
            assert(order@.to_multiset().count(d) > 0);
            assert(order@.contains(d));
        }
    }
    (order, next)
}

/// Draws the first `count` orders from the generator with the key `key`.
fn draw_orders(key: &[u8; 32], count: usize) -> (orders: Vec<[EdgeDirection; 6]>)
    ensures
        order_list(orders@) == drawn_orders(key@, count as nat),
        are_orders(order_list(orders@), count as nat),
{
    let mut orders: Vec<[EdgeDirection; 6]> = Vec::new();
    let mut pos: u128 = 0;
    let mut i: usize = 0;
    while i < count
        invariant
            i <= count,
            orders@.len() == i,
            pos == position_after(key@, i as nat),
            forall|j: int|
                0 <= j < i ==> (#[trigger] orders@[j])@ == shuffled(
                    key@,
                    position_after(key@, j as nat),
                    plain_order(),
                ).0 && is_order(orders@[j]@),
        decreases count - i,
    {
        let (order, next) = draw_order(key, pos);
        orders.push(order);
        pos = next;
        i += 1;
    }
    proof {
        assert(order_list(orders@) =~= drawn_orders(key@, count as nat));
    }
    orders
}

/// Carves a maze out of `maze` by a depth-first walk from `start_pos`, or
/// else from the origin. The walk tries the directions on each tile in a
/// random order; with a `seed` the orders follow from it, without one from
/// a seed that is taken from the system's entropy.
///
/// A maze without tiles stays as it is, and so does one that has no tile at
/// the start.
pub fn generate_backtracking(maze: &mut Maze, start_pos: Option<Hex>, seed: Option<u64>)
    ensures
        generated(old(maze)@, start_pos, seed, final(maze)@),
        final(maze)@.dom() == old(maze)@.dom(),
{
    if maze.is_empty() {
        proof {
            let used = match seed {
                Some(given) => given,
                None => 0,
            };
            assert(orders_of_seed(used, 0).len() == 0);
            assert(maze@ == carved(maze@, start_or_origin(start_pos), orders_of_seed(used, 0)));
        }
        return ;
    }
    let start = match start_pos {
        Some(start) => start,
        None => Hex::zero(),
    };
    let used = match seed {
        Some(seed) => seed,
        None => entropy_seed(),
    };
    let key = seed_key(used);
    let orders = draw_orders(&key, maze.len());
    carve(maze, start, &orders);
    proof {
        old(maze).lemma_finite();
        assert(order_list(orders@) == orders_of_seed(used, old(maze)@.dom().len()));
        lemma_carved_keeps_tiles(old(maze)@, start, order_list(orders@));
    }
}

/// Wall symmetry: where every wall of the tiles stands on both sides or on
/// neither before generation, the same holds afterwards.
pub proof fn lemma_generated_symmetric(
    before: Map<Hex, Walls>,
    start_pos: Option<Hex>,
    seed: Option<u64>,
    after: Map<Hex, Walls>,
)
    requires
        before.dom().finite(),
        symmetric(before),
        generated(before, start_pos, seed, after),
    ensures
        symmetric(after),
{
    let n = before.dom().len();
    let used = choose|used: u64|
        {
            &&& seed matches Some(given) ==> used == given
            &&& are_orders(#[trigger] orders_of_seed(used, n), n)
            &&& after == carved(before, start_or_origin(start_pos), orders_of_seed(used, n))
        };
    lemma_carved_symmetric(before, start_or_origin(start_pos), orders_of_seed(used, n));
}

/// The perfect maze: what the generator makes of a fully walled grid in one
/// piece, from a start that is one of its tiles, has the tiles of the grid
/// and is a spanning tree of them. Every tile can be walked to from the
/// start, there is one passage less than there are tiles, each open from
/// both sides, and if there is more than one tile, every tile has an edge
/// without a wall.
pub proof fn lemma_generated_perfect(
    before: Map<Hex, Walls>,
    start_pos: Option<Hex>,
    seed: Option<u64>,
    after: Map<Hex, Walls>,
)
    requires
        before.dom().finite(),
        fresh(before),
        connected(before),
        before.contains_key(start_or_origin(start_pos)),
        generated(before, start_pos, seed, after),
    ensures
        after.dom() == before.dom(),
        perfect(after, start_or_origin(start_pos)),
        before.dom().len() >= 2 ==> forall|h: Hex|
            before.contains_key(h) ==> (#[trigger] after[h]).count_spec() < 6,
{
    let n = before.dom().len();
    let used = choose|used: u64|
        {
            &&& seed matches Some(given) ==> used == given
            &&& are_orders(#[trigger] orders_of_seed(used, n), n)
            &&& after == carved(before, start_or_origin(start_pos), orders_of_seed(used, n))
        };
    lemma_carved_perfect(before, start_or_origin(start_pos), orders_of_seed(used, n));
}

/// Determinism: two mazes that the generator makes of the same tiles, from
/// the same start and with the same seed, have the same walls on every tile.
pub proof fn lemma_generated_deterministic(
    before: Map<Hex, Walls>,
    start_pos: Option<Hex>,
    seed: u64,
    first: Map<Hex, Walls>,
    second: Map<Hex, Walls>,
)
    requires
        generated(before, start_pos, Some(seed), first),
        generated(before, start_pos, Some(seed), second),
    ensures
        first == second,
{
}

} // verus!
