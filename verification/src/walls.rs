//! The walls around one tile: six flags, one per edge direction, packed into
//! the low six bits of a byte.
use crate::hex::EdgeDirection;
use vstd::prelude::*;

verus! {

/// The set of edges of a tile that are closed by a wall.
///
/// Bit `i` of the byte is set exactly if the edge in the direction with index
/// `i` has a wall; the two high bits are never set.
#[derive(Clone, Copy, Debug, PartialEq, Eq, Structural)]
pub struct Walls(u8);

/// The byte in which only the bit of direction `d` is set.
pub open spec fn mask_of(d: EdgeDirection) -> u8 {
    match d {
        EdgeDirection::SouthEast => 0b00_0001,
        EdgeDirection::South => 0b00_0010,
        EdgeDirection::SouthWest => 0b00_0100,
        EdgeDirection::NorthWest => 0b00_1000,
        EdgeDirection::North => 0b01_0000,
        EdgeDirection::NorthEast => 0b10_0000,
    }
}

/// Whether `bits` has the bit of direction `d`.
pub open spec fn bit_of(bits: u8, d: EdgeDirection) -> bool {
    bits & mask_of(d) != 0
}

/// The byte with the bits of all directions in `dirs`.
pub open spec fn mask_of_all(dirs: Seq<EdgeDirection>) -> u8
    decreases dirs.len(),
{
    if dirs.len() == 0 {
        0
    } else {
        mask_of_all(dirs.drop_last()) | mask_of(dirs.last())
    }
}

/// The byte in which only the bit of direction `d` is set.
fn mask(d: EdgeDirection) -> (m: u8)
    ensures
        m == mask_of(d),
{
    match d {
        EdgeDirection::SouthEast => 0b00_0001,
        EdgeDirection::South => 0b00_0010,
        EdgeDirection::SouthWest => 0b00_0100,
        EdgeDirection::NorthWest => 0b00_1000,
        EdgeDirection::North => 0b01_0000,
        EdgeDirection::NorthEast => 0b10_0000,
    }
}

/// The byte of a direction has one of the six low bits and no other.
proof fn lemma_mask_is_bit(d: EdgeDirection)
    ensures
        mask_of(d) == 1 || mask_of(d) == 2 || mask_of(d) == 4 || mask_of(d) == 8 || mask_of(d)
            == 16 || mask_of(d) == 32,
{
}

/// Setting one bit sets that bit, keeps the others and stays below 64.
proof fn lemma_or_bit(b: u8, m: u8, n: u8)
    requires
        m == 1 || m == 2 || m == 4 || m == 8 || m == 16 || m == 32,
        n == 1 || n == 2 || n == 4 || n == 8 || n == 16 || n == 32,
    ensures
        ((b | m) & n != 0) == (m == n || b & n != 0),
        b < 64 ==> (b | m) < 64,
{
    assert(((b | m) & n != 0) == (m == n || b & n != 0)) by (bit_vector)
        requires
            m == 1 || m == 2 || m == 4 || m == 8 || m == 16 || m == 32,
            n == 1 || n == 2 || n == 4 || n == 8 || n == 16 || n == 32,
    ;
    assert(b < 64 ==> (b | m) < 64) by (bit_vector)
        requires
            m == 1 || m == 2 || m == 4 || m == 8 || m == 16 || m == 32,
    ;
}

/// Clearing one bit clears that bit, keeps the others and stays below 64.
proof fn lemma_clear_bit(b: u8, m: u8, n: u8)
    requires
        m == 1 || m == 2 || m == 4 || m == 8 || m == 16 || m == 32,
        n == 1 || n == 2 || n == 4 || n == 8 || n == 16 || n == 32,
    ensures
        ((b & !m) & n != 0) == (m != n && b & n != 0),
        b < 64 ==> (b & !m) < 64,
{
    assert(((b & !m) & n != 0) == (m != n && b & n != 0)) by (bit_vector)
        requires
            m == 1 || m == 2 || m == 4 || m == 8 || m == 16 || m == 32,
            n == 1 || n == 2 || n == 4 || n == 8 || n == 16 || n == 32,
    ;
    assert(b < 64 ==> (b & !m) < 64) by (bit_vector);
}

/// Flipping one bit flips that bit, keeps the others and stays below 64.
proof fn lemma_flip_bit(b: u8, m: u8, n: u8)
    requires
        m == 1 || m == 2 || m == 4 || m == 8 || m == 16 || m == 32,
        n == 1 || n == 2 || n == 4 || n == 8 || n == 16 || n == 32,
    ensures
        ((b ^ m) & n != 0) == ((m == n) != (b & n != 0)),
        b < 64 ==> (b ^ m) < 64,
{
    assert(((b ^ m) & n != 0) == ((m == n) != (b & n != 0))) by (bit_vector)
        requires
            m == 1 || m == 2 || m == 4 || m == 8 || m == 16 || m == 32,
            n == 1 || n == 2 || n == 4 || n == 8 || n == 16 || n == 32,
    ;
    assert(b < 64 ==> (b ^ m) < 64) by (bit_vector)
        requires
            m == 1 || m == 2 || m == 4 || m == 8 || m == 16 || m == 32,
    ;
}

/// The union of two bytes has the bits of either and stays below 64.
proof fn lemma_or_bits(a: u8, b: u8, n: u8)
    ensures
        ((a | b) & n != 0) == (a & n != 0 || b & n != 0),
        a < 64 && b < 64 ==> (a | b) < 64,
{
    assert(((a | b) & n != 0) == (a & n != 0 || b & n != 0)) by (bit_vector);
    assert(a < 64 && b < 64 ==> (a | b) < 64) by (bit_vector);
}

impl Walls {
    #[verifier::type_invariant]
    spec fn low_bits_only(self) -> bool {
        self.0 < 64
    }

    /// The byte that holds the six flags.
    pub closed spec fn bits(self) -> u8 {
        self.0
    }

    /// The wall set that holds the flags of `bits`.
    pub closed spec fn of_bits(bits: u8) -> Walls {
        Walls(bits)
    }

    /// Whether the edge in direction `d` has a wall.
    pub open spec fn has(self, d: EdgeDirection) -> bool {
        bit_of(self.bits(), d)
    }

    /// The wall set with walls on all six edges.
    pub open spec fn full() -> Walls {
        Self::of_bits(0b11_1111)
    }

    /// This wall set with a wall on the edge in direction `d`.
    pub open spec fn with(self, d: EdgeDirection) -> Walls {
        Self::of_bits(self.bits() | mask_of(d))
    }

    /// This wall set with no wall on the edge in direction `d`.
    pub open spec fn without(self, d: EdgeDirection) -> Walls {
        Self::of_bits(self.bits() & !mask_of(d))
    }

    /// 1 if the edge in direction `d` has a wall, else 0.
    pub open spec fn one_if(self, d: EdgeDirection) -> nat {
        if self.has(d) {
            1
        } else {
            0
        }
    }

    /// The number of edges that have a wall.
    pub open spec fn count_spec(self) -> nat {
        self.one_if(EdgeDirection::SouthEast) + self.one_if(EdgeDirection::South) + self.one_if(
            EdgeDirection::SouthWest,
        ) + self.one_if(EdgeDirection::NorthWest) + self.one_if(EdgeDirection::North)
            + self.one_if(EdgeDirection::NorthEast)
    }

    /// Walls on all six edges.
    pub fn new() -> (w: Walls)
        ensures
            w == Walls::full(),
            w.bits() == 0b11_1111,
            forall|d: EdgeDirection| w.has(d),
    {
        proof {
            assert forall|d: EdgeDirection| bit_of(0b11_1111u8, d) by {
                assert(0b11_1111u8 & 1 != 0 && 0b11_1111u8 & 2 != 0 && 0b11_1111u8 & 4 != 0
                    && 0b11_1111u8 & 8 != 0 && 0b11_1111u8 & 16 != 0 && 0b11_1111u8 & 32 != 0)
                    by (bit_vector);
            }
        }
        Walls(0b11_1111)
    }

    /// No wall on any edge.
    pub fn empty() -> (w: Walls)
        ensures
            w.bits() == 0,
            forall|d: EdgeDirection| !w.has(d),
    {
        proof {
            assert forall|d: EdgeDirection| !bit_of(0u8, d) by {
                let m = mask_of(d);
                assert(0u8 & m == 0) by (bit_vector);
            }
        }
        Walls(0)
    }

    /// Walls on all six edges, as a value to hand to `fill` and its like.
    pub fn all_directions() -> (w: Walls)
        ensures
            w == Walls::full(),
            w.bits() == 0b11_1111,
            forall|d: EdgeDirection| w.has(d),
    {
        Walls::new()
    }

    /// The walls on the edges in `dirs`, however often each is named.
    pub fn from_directions(dirs: &[EdgeDirection]) -> (w: Walls)
        ensures
            w.bits() == mask_of_all(dirs@),
            forall|d: EdgeDirection| w.has(d) == dirs@.contains(d),
    {
        let mut w = Walls::empty();
        let mut i: usize = 0;
        while i < dirs.len()
            invariant
                i <= dirs.len(),
                w.bits() == mask_of_all(dirs@.take(i as int)),
                forall|d: EdgeDirection| w.has(d) == dirs@.take(i as int).contains(d),
            decreases dirs.len() - i,
        {
            let d = dirs[i];
            w.insert(d);
            proof {
                let prefix = dirs@.take(i as int);
                let next = dirs@.take(i + 1);
                assert(next.drop_last() == prefix);
                assert(next.last() == d);
                assert forall|e: EdgeDirection| w.has(e) == next.contains(e) by {
                    if e == d {
                        assert(next[i as int] == d);
                    } else if prefix.contains(e) {
                        let j = choose|j: int| 0 <= j < prefix.len() && prefix[j] == e;
                        assert(next[j] == e);
                    } else if next.contains(e) {
                        let j = choose|j: int| 0 <= j < next.len() && next[j] == e;
                        assert(prefix[j] == e);
                    }
                }
            }
            i += 1;
        }
        proof {
            assert(dirs@.take(dirs@.len() as int) == dirs@);
        }
        w
    }

    /// Whether no edge has a wall.
    pub fn is_empty(&self) -> (r: bool)
        ensures
            r == (self.bits() == 0),
            r == (forall|d: EdgeDirection| !self.has(d)),
            r == (self.count_spec() == 0),
    {
        proof {
            use_type_invariant(self);
            if self.0 == 0 {
                assert forall|d: EdgeDirection| !self.has(d) by {
                    let m = mask_of(d);
                    assert(0u8 & m == 0) by (bit_vector);
                }
                assert(!self.has(EdgeDirection::SouthEast) && !self.has(EdgeDirection::South)
                    && !self.has(EdgeDirection::SouthWest) && !self.has(EdgeDirection::NorthWest)
                    && !self.has(EdgeDirection::North) && !self.has(EdgeDirection::NorthEast));
            } else {
                let b = self.0;
                assert(b & 1 != 0 || b & 2 != 0 || b & 4 != 0 || b & 8 != 0 || b & 16 != 0 || b
                    & 32 != 0) by (bit_vector)
                    requires
                        b != 0,
                        b < 64,
                ;
                assert(self.has(EdgeDirection::SouthEast) || self.has(EdgeDirection::South)
                    || self.has(EdgeDirection::SouthWest) || self.has(EdgeDirection::NorthWest)
                    || self.has(EdgeDirection::North) || self.has(EdgeDirection::NorthEast));
            }
        }
        self.0 == 0
    }

    /// Puts a wall on the edge in direction `d` and says whether there was one.
    pub fn insert(&mut self, d: EdgeDirection) -> (was_present: bool)
        ensures
            was_present == old(self).has(d),
            *final(self) == old(self).with(d),
            final(self).bits() == old(self).bits() | mask_of(d),
            forall|e: EdgeDirection| final(self).has(e) == (e == d || old(self).has(e)),
    {
        let m = mask(d);
        let was_present = self.0 & m != 0;
        proof {
            use_type_invariant(&*self);
            lemma_mask_is_bit(d);
            assert forall|e: EdgeDirection| bit_of(self.0 | m, e) == (e == d || bit_of(self.0, e)) by {
                lemma_mask_is_bit(e);
                lemma_or_bit(self.0, m, mask_of(e));
            }
            lemma_or_bit(self.0, m, m);
        }
        self.0 = self.0 | m;
        was_present
    }

    /// Takes the wall off the edge in direction `d` and says whether there
    /// was one; without one nothing changes.
    pub fn remove(&mut self, d: EdgeDirection) -> (was_present: bool)
        ensures
            was_present == old(self).has(d),
            *final(self) == old(self).without(d),
            final(self).bits() == old(self).bits() & !mask_of(d),
            forall|e: EdgeDirection| final(self).has(e) == (e != d && old(self).has(e)),
            !was_present ==> *final(self) == *old(self),
    {
        let m = mask(d);
        let was_present = self.0 & m != 0;
        proof {
            use_type_invariant(&*self);
            lemma_mask_is_bit(d);
            assert forall|e: EdgeDirection| bit_of(self.0 & !m, e) == (e != d && bit_of(self.0, e)) by {
                lemma_mask_is_bit(e);
                lemma_clear_bit(self.0, m, mask_of(e));
            }
            lemma_clear_bit(self.0, m, m);
            if !was_present {
                let b = self.0;
                assert(b & !m == b) by (bit_vector)
                    requires
                        b & m == 0,
                ;
            }
        }
        self.0 = self.0 & !m;
        was_present
    }

    /// Whether the edge in direction `d` has a wall.
    pub fn contains(&self, d: EdgeDirection) -> (r: bool)
        ensures
            r == self.has(d),
    {
        self.0 & mask(d) != 0
    }

    /// The byte that holds the six flags, bit `i` for the direction with
    /// index `i`.
    pub fn as_bits(&self) -> (b: u8)
        ensures
            b == self.bits(),
            b < 64,
    {
        proof {
            use_type_invariant(self);
        }
        self.0
    }

    /// The number of edges that have a wall, from 0 to 6.
    pub fn count(&self) -> (n: u8)
        ensures
            n == self.count_spec(),
            n <= 6,
    {
        let mut n: u8 = 0;
        if self.0 & 0b00_0001 != 0 {
            n += 1;
        }
        if self.0 & 0b00_0010 != 0 {
            n += 1;
        }
        if self.0 & 0b00_0100 != 0 {
            n += 1;
        }
        if self.0 & 0b00_1000 != 0 {
            n += 1;
        }
        if self.0 & 0b01_0000 != 0 {
            n += 1;
        }
        if self.0 & 0b10_0000 != 0 {
            n += 1;
        }
        n
    }

    /// Flips the wall on the edge in direction `d` and says whether there
    /// was one before.
    pub fn toggle(&mut self, d: EdgeDirection) -> (was_present: bool)
        ensures
            was_present == old(self).has(d),
            final(self).bits() == old(self).bits() ^ mask_of(d),
            forall|e: EdgeDirection| final(self).has(e) == ((e == d) != old(self).has(e)),
    {
        let m = mask(d);
        let was_present = self.0 & m != 0;
        proof {
            use_type_invariant(&*self);
            lemma_mask_is_bit(d);
            assert forall|e: EdgeDirection| bit_of(self.0 ^ m, e) == ((e == d) != bit_of(self.0, e)) by {
                lemma_mask_is_bit(e);
                lemma_flip_bit(self.0, m, mask_of(e));
            }
            lemma_flip_bit(self.0, m, m);
        }
        self.0 = self.0 ^ m;
        was_present
    }

    /// Whether all six edges have a wall.
    pub fn is_enclosed(&self) -> (r: bool)
        ensures
            r == (self.count_spec() == 6),
            r == (forall|d: EdgeDirection| self.has(d)),
            r == (self.bits() == 0b11_1111),
    {
        proof {
            use_type_invariant(self);
            let b = self.0;
            if self.count_spec() == 6 {
                assert(self.has(EdgeDirection::SouthEast) && self.has(EdgeDirection::South)
                    && self.has(EdgeDirection::SouthWest) && self.has(EdgeDirection::NorthWest)
                    && self.has(EdgeDirection::North) && self.has(EdgeDirection::NorthEast));
                assert(b == 0b11_1111) by (bit_vector)
                    requires
                        b < 64,
                        b & 1 != 0,
                        b & 2 != 0,
                        b & 4 != 0,
                        b & 8 != 0,
                        b & 16 != 0,
                        b & 32 != 0,
                ;
            }
            if b == 0b11_1111 {
                assert(0b11_1111u8 & 1 != 0 && 0b11_1111u8 & 2 != 0 && 0b11_1111u8 & 4 != 0
                    && 0b11_1111u8 & 8 != 0 && 0b11_1111u8 & 16 != 0 && 0b11_1111u8 & 32 != 0)
                    by (bit_vector);
            }
            if forall|d: EdgeDirection| self.has(d) {
                assert(self.has(EdgeDirection::SouthEast) && self.has(EdgeDirection::South)
                    && self.has(EdgeDirection::SouthWest) && self.has(EdgeDirection::NorthWest)
                    && self.has(EdgeDirection::North) && self.has(EdgeDirection::NorthEast));
            }
        }
        self.count() == 6
    }

    /// Puts a wall on every edge that has one in `other`, and keeps the walls
    /// that are there.
    pub fn fill(&mut self, other: Walls)
        ensures
            final(self).bits() == old(self).bits() | other.bits(),
            forall|d: EdgeDirection| final(self).has(d) == (old(self).has(d) || other.has(d)),
    {
        let ghost before = self.0;
        proof {
            use_type_invariant(&*self);
            use_type_invariant(other);
            lemma_or_bits(before, other.0, 0);
        }
        self.0 = self.0 | other.0;
        proof {
            assert forall|d: EdgeDirection|
                self.has(d) == (bit_of(before, d) || other.has(d)) by {
                lemma_or_bits(before, other.0, mask_of(d));
            }
        }
    }

    /// The byte of a wall set made from a byte is that byte, and every wall
    /// set is made from its byte.
    pub proof fn lemma_of_bits(self, bits: u8)
        ensures
            Walls::of_bits(bits).bits() == bits,
            Walls::of_bits(self.bits()) == self,
    {
    }

    /// What `with` and `without` do to each edge: the named edge gets or
    /// loses its wall and every other edge keeps what it had.
    pub proof fn lemma_with_without(self, d: EdgeDirection)
        ensures
            forall|e: EdgeDirection| self.with(d).has(e) == (e == d || self.has(e)),
            forall|e: EdgeDirection| self.without(d).has(e) == (e != d && self.has(e)),
            forall|e: EdgeDirection| Walls::full().has(e),
            self.has(d) ==> self.with(d) == self,
            !self.has(d) ==> self.without(d) == self,
            self.bits() < 64 ==> self.with(d).bits() < 64 && self.without(d).bits() < 64,
            Walls::full().bits() < 64,
    {
        lemma_mask_is_bit(d);
        let b = self.0;
        let m = mask_of(d);
        assert forall|e: EdgeDirection| self.with(d).has(e) == (e == d || self.has(e)) by {
            lemma_mask_is_bit(e);
            lemma_or_bit(b, m, mask_of(e));
        }
        assert forall|e: EdgeDirection| self.without(d).has(e) == (e != d && self.has(e)) by {
            lemma_mask_is_bit(e);
            lemma_clear_bit(b, m, mask_of(e));
        }
        assert forall|e: EdgeDirection| Walls::full().has(e) by {
            assert(0b11_1111u8 & 1 != 0 && 0b11_1111u8 & 2 != 0 && 0b11_1111u8 & 4 != 0
                && 0b11_1111u8 & 8 != 0 && 0b11_1111u8 & 16 != 0 && 0b11_1111u8 & 32 != 0)
                by (bit_vector);
        }
        lemma_or_bit(b, m, m);
        lemma_clear_bit(b, m, m);
        if self.has(d) {
            assert(b | m == b) by (bit_vector)
                requires
                    b & m != 0,
                    m == 1 || m == 2 || m == 4 || m == 8 || m == 16 || m == 32,
            ;
        }
        if !self.has(d) {
            assert(b & !m == b) by (bit_vector)
                requires
                    b & m == 0,
            ;
        }
    }

    /// The full wall set has six walls, and a wall set with an edge without
    /// a wall has fewer.
    pub proof fn lemma_count(self)
        ensures
            Walls::full().count_spec() == 6,
            self.count_spec() <= 6,
            (exists|d: EdgeDirection| !self.has(d)) ==> self.count_spec() < 6,
            (forall|d: EdgeDirection| self.has(d)) ==> self.count_spec() == 6,
    {
        self.lemma_with_without(EdgeDirection::North);
        assert(Walls::full().has(EdgeDirection::SouthEast) && Walls::full().has(
            EdgeDirection::South,
        ) && Walls::full().has(EdgeDirection::SouthWest) && Walls::full().has(
            EdgeDirection::NorthWest,
        ) && Walls::full().has(EdgeDirection::North) && Walls::full().has(
            EdgeDirection::NorthEast,
        ));
        if exists|d: EdgeDirection| !self.has(d) {
            let d = choose|d: EdgeDirection| !self.has(d);
            assert(!self.has(d));
        }
        if forall|d: EdgeDirection| self.has(d) {
            assert(self.has(EdgeDirection::SouthEast) && self.has(EdgeDirection::South)
                && self.has(EdgeDirection::SouthWest) && self.has(EdgeDirection::NorthWest)
                && self.has(EdgeDirection::North) && self.has(EdgeDirection::NorthEast));
        }
    }
}

impl From<EdgeDirection> for Walls {
    /// The wall set with a wall on the edge in direction `d` alone.
    fn from(d: EdgeDirection) -> (w: Walls) {
        proof {
            lemma_mask_is_bit(d);
        }
        Walls(mask(d))
    }
}

impl vstd::std_specs::convert::FromSpecImpl<EdgeDirection> for Walls {
    open spec fn obeys_from_spec() -> bool {
        true
    }

    open spec fn from_spec(d: EdgeDirection) -> Walls {
        Walls::of_bits(mask_of(d))
    }
}

impl From<u8> for Walls {
    /// The wall set with a wall on the edge whose direction has the index
    /// `index` alone; the empty wall set where no direction has that index.
    fn from(index: u8) -> (w: Walls) {
        if index < 6 {
            let d = EdgeDirection::from_index(index);
            proof {
                lemma_mask_is_bit(d);
            }
            Walls(mask(d))
        } else {
            Walls(0)
        }
    }
}

impl vstd::std_specs::convert::FromSpecImpl<u8> for Walls {
    open spec fn obeys_from_spec() -> bool {
        true
    }

    open spec fn from_spec(index: u8) -> Walls {
        if index < 6 {
            Walls::of_bits(mask_of(EdgeDirection::nth(index as int)))
        } else {
            Walls::of_bits(0)
        }
    }
}

impl<const N: usize> From<[EdgeDirection; N]> for Walls {
    /// The walls on the edges in `dirs`, however often each is named.
    fn from(dirs: [EdgeDirection; N]) -> (w: Walls) {
        let w = Walls::from_directions(dirs.as_slice());
        proof {
            w.lemma_of_bits(0);
        }
        w
    }
}

impl<const N: usize> vstd::std_specs::convert::FromSpecImpl<[EdgeDirection; N]> for Walls {
    open spec fn obeys_from_spec() -> bool {
        true
    }

    open spec fn from_spec(dirs: [EdgeDirection; N]) -> Walls {
        Walls::of_bits(mask_of_all(dirs@))
    }
}

impl Default for Walls {
    /// Walls on all six edges.
    fn default() -> (w: Walls)
        ensures
            w == Walls::full(),
            w.bits() == 0b11_1111,
            forall|d: EdgeDirection| w.has(d),
    {
        Walls::new()
    }
}

} // verus!
