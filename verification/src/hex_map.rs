//! A hash map keyed by grid position.
use crate::hex::Hex;
use std::collections::HashMap;
use vstd::prelude::*;
use vstd::std_specs::iter::IteratorSpec;

verus! {

broadcast use vstd::std_specs::hash::group_hash_axioms;

/// A map from positions to values, stored under the integer key of each
/// position.
#[derive(Debug)]
pub struct HexMap<V> {
    cells: HashMap<u64, V>,
}

impl<V> View for HexMap<V> {
    type V = Map<Hex, V>;

    closed spec fn view(&self) -> Map<Hex, V> {
        Map::new(
            |h: Hex| self.cells@.contains_key(h.key_spec()),
            |h: Hex| self.cells@[h.key_spec()],
        )
    }
}

impl<V> HexMap<V> {
    /// The empty map.
    pub fn new() -> (m: Self)
        ensures
            m@ == Map::<Hex, V>::empty(),
    {
        let m = HexMap { cells: HashMap::new() };
        assert(m@ =~= Map::<Hex, V>::empty());
        m
    }

    /// Stores `value` at `at` and hands back what was stored there.
    pub fn insert(&mut self, at: Hex, value: V) -> (evicted: Option<V>)
        ensures
            final(self)@ == old(self)@.insert(at, value),
            old(self)@.contains_key(at) <==> evicted is Some,
            evicted matches Some(v) ==> v == old(self)@[at],
    {
        let evicted = self.cells.insert(at.key(), value);
        proof {
            assert forall|h: Hex| h.key_spec() == at.key_spec() <==> h == at by {
                Hex::lemma_key_injective(h, at);
            }
            assert(self@ =~= old(self)@.insert(at, value));
        }
        evicted
    }

    /// The value stored at `at`, if there is one.
    pub fn get(&self, at: &Hex) -> (value: Option<&V>)
        ensures
            self@.contains_key(*at) <==> value is Some,
            value matches Some(v) ==> *v == self@[*at],
    {
        let k = at.key();
        self.cells.get(&k)
    }

    /// Whether a value is stored at `at`.
    pub fn contains_key(&self, at: &Hex) -> (r: bool)
        ensures
            r == self@.contains_key(*at),
    {
        let k = at.key();
        self.cells.contains_key(&k)
    }

    /// The number of positions that hold a value.
    pub fn len(&self) -> (n: usize)
        ensures
            n == self@.len(),
            self@.dom().finite(),
    {
        proof {
            self.lemma_finite();
        }
        self.cells.len()
    }

    /// Whether no position holds a value.
    pub fn is_empty(&self) -> (r: bool)
        ensures
            r == (self@.len() == 0),
            r == (self@ == Map::<Hex, V>::empty()),
            self@.dom().finite(),
    {
        proof {
            self.lemma_finite();
            if self@.len() == 0 {
                assert(self@.dom() =~= Set::<Hex>::empty());
                assert(self@ =~= Map::<Hex, V>::empty());
            }
        }
        self.cells.is_empty()
    }

    /// The positions that hold a value, each once, in no particular order.
    pub fn keys(&self) -> (keys: Vec<Hex>)
        ensures
            keys@.no_duplicates(),
            keys@.to_set() == self@.dom(),
            keys@.len() == self@.len(),
    {
        let mut out: Vec<Hex> = Vec::new();
        let ghost raw = self.cells.keys().remaining();
        proof {
            self.lemma_finite();
        }
        for k in it: self.cells.keys()
            invariant
                it.seq() == raw,
                out@.len() == it.index(),
                forall|i: int| 0 <= i < out@.len() ==> (#[trigger] out@[i]).key_spec() == *raw[i],
        {
            out.push(Hex::from_key(*k));
        }
        proof {
            assert forall|i: int, j: int|
                0 <= i < out@.len() && 0 <= j < out@.len() && i != j implies out@[i] != out@[j] by {
                assert(out@[i].key_spec() == *raw[i]);
                assert(out@[j].key_spec() == *raw[j]);
            }
            assert forall|h: Hex| out@.to_set().contains(h) <==> self@.dom().contains(h) by {
                if out@.to_set().contains(h) {
                    let i = choose|i: int| 0 <= i < out@.len() && out@[i] == h;
                    assert(raw.unref()[i] == h.key_spec());
                    assert(raw.unref().to_set().contains(h.key_spec()));
                }
                if self@.dom().contains(h) {
                    assert(raw.unref().to_set().contains(h.key_spec()));
                    let i = choose|i: int| 0 <= i < raw.unref().len() && raw.unref()[i] == h.key_spec();
                    assert(out@[i].key_spec() == h.key_spec());
                    Hex::lemma_key_injective(out@[i], h);
                }
            }
            assert(out@.to_set() =~= self@.dom());
        }
        out
    }

    /// The map holds finitely many positions.
    pub proof fn lemma_dom_finite(&self)
        ensures
            self@.dom().finite(),
            self@.len() <= usize::MAX,
    {
        self.lemma_finite();
        assert(vstd::std_specs::hash::spec_hash_map_len(&self.cells) == self.cells@.len());
    }

    /// The map holds finitely many positions, as many as it has keys.
    proof fn lemma_finite(&self)
        ensures
            self@.dom().finite(),
            self@.len() == self.cells@.len(),
    {
        let keys = self.cells@.dom();
        let unkey = |k: u64| Hex::of_key(k);
        assert forall|k: u64| (#[trigger] Hex::of_key(k)).key_spec() == k by {
            Hex::lemma_of_key(k);
        }
        assert(vstd::relations::injective_on(unkey, keys)) by {
            assert forall|a: u64, b: u64|
                keys.contains(a) && keys.contains(b) && #[trigger] unkey(a) == #[trigger] unkey(
                    b,
                ) implies a == b by {
                Hex::lemma_of_key(a);
                Hex::lemma_of_key(b);
            }
        }
        assert(keys.map(unkey) =~= self@.dom()) by {
            assert forall|h: Hex| keys.map(unkey).contains(h) <==> self@.dom().contains(h) by {
                if self@.dom().contains(h) {
                    let k = h.key_spec();
                    Hex::lemma_key_injective(Hex::of_key(k), h);
                    assert(unkey(k) == h);
                    assert(keys.contains(k));
                }
                if keys.map(unkey).contains(h) {
                    let k = choose|k: u64| keys.contains(k) && unkey(k) == h;
                    assert(h.key_spec() == k);
                }
            }
        }
        vstd::set_lib::lemma_map_size(keys, self@.dom(), unkey);
    }
}

} // verus!
