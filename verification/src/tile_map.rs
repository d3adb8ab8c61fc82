//! Maps keyed by a pair of coordinates, and the tiles of a map.

use vstd::prelude::*;
use std::collections::HashMap;
use crate::tile::Tile;
use crate::team::Team;

verus! {

broadcast use vstd::std_specs::hash::group_hash_axioms;

/// The single integer a (row, column) key is stored under.
pub open spec fn spec_pos_key(k: (u32, u32)) -> u64 {
    (k.0 as int * 0x1_0000_0000 + k.1 as int) as u64
}

/// Packs a (row, column) key into one integer.
pub fn pos_key(k: (u32, u32)) -> (r: u64)
    ensures
        r == spec_pos_key(k),
{
    (k.0 as u64) * 0x1_0000_0000u64 + (k.1 as u64)
}

/// Different keys are stored under different integers.
pub proof fn lemma_pos_key_injective(a: (u32, u32), b: (u32, u32))
    ensures
        spec_pos_key(a) == spec_pos_key(b) <==> a == b,
{
}

/// A map from pairs of coordinates to values.
pub struct PosMap<V> {
    inner: HashMap<u64, V>,
}

/// The tiles of the map. Keys are (row, column), that is (y, x) of the
/// units standing on the tiles.
pub type TileMap = PosMap<Tile>;

impl<V> View for PosMap<V> {
    type V = Map<(u32, u32), V>;

    closed spec fn view(&self) -> Map<(u32, u32), V> {
        Map::new(
            |k: (u32, u32)| self.inner@.contains_key(spec_pos_key(k)),
            |k: (u32, u32)| self.inner@[spec_pos_key(k)],
        )
    }
}

impl<V: Copy> PosMap<V> {
    /// An empty map.
    pub fn new() -> (m: PosMap<V>)
        ensures
            m@ == Map::<(u32, u32), V>::empty(),
    {
        let m = PosMap { inner: HashMap::new() };
        assert(m@ =~= Map::<(u32, u32), V>::empty());
        m
    }

    /// Places `value` under `key`, replacing any value there.
    pub fn insert(&mut self, key: (u32, u32), value: V)
        ensures
            final(self)@ == old(self)@.insert(key, value),
    {
        let k = pos_key(key);
        self.inner.insert(k, value);
        proof {
            assert forall|q: (u32, u32)| #![auto] self.inner@.contains_key(spec_pos_key(q)) == old(self)@.insert(key, value).contains_key(q) by {
                lemma_pos_key_injective(q, key);
            }
        }
        assert(self@ =~= old(self)@.insert(key, value));
    }

    /// Takes away the value under `key`, if any.
    pub fn remove(&mut self, key: (u32, u32))
        ensures
            final(self)@ == old(self)@.remove(key),
    {
        let k = pos_key(key);
        self.inner.remove(&k);
        proof {
            assert forall|q: (u32, u32)| #![auto] self.inner@.contains_key(spec_pos_key(q)) == old(self)@.remove(key).contains_key(q) by {
                lemma_pos_key_injective(q, key);
            }
        }
        assert(self@ =~= old(self)@.remove(key));
    }

    /// The value under `key`, if there is one.
    pub fn get(&self, key: (u32, u32)) -> (r: Option<V>)
        ensures
            r == self@.get(key),
    {
        match self.inner.get(&pos_key(key)) {
            Some(t) => Some(*t),
            None => None,
        }
    }

    pub fn contains_key(&self, key: (u32, u32)) -> (b: bool)
        ensures
            b == self@.contains_key(key),
    {
        self.inner.contains_key(&pos_key(key))
    }

    /// A copy of the map.
    pub fn copy(&self) -> (c: PosMap<V>)
        ensures
            c@ == self@,
    {
        PosMap { inner: self.inner.clone() }
    }

    /// The number of keys.
    pub fn len(&self) -> (n: usize)
        ensures
            n == self@.dom().len(),
            self@.dom().finite(),
    {
        proof { self.lemma_dom_len(); }
        self.inner.len()
    }

    proof fn lemma_dom_len(&self)
        ensures
            self@.dom().len() == self.inner@.dom().len(),
            self@.dom().finite(),
    {
        let d = self.inner@.dom();
        let f = |k: u64| ((k as int / 0x1_0000_0000) as u32, (k as int % 0x1_0000_0000) as u32);
        assert forall|k: u64| #[trigger] d.contains(k) implies spec_pos_key(f(k)) == k by {
        }
        assert(d.map(f) =~= self@.dom()) by {
            assert forall|q: (u32, u32)| self@.dom().contains(q) implies d.map(f).contains(q) by {
                let k = spec_pos_key(q);
                assert(f(k) == q);
                assert(d.contains(k));
            }
        }
        assert forall|a: u64, b: u64| d.contains(a) && d.contains(b) && #[trigger] f(a) == #[trigger] f(b) implies a == b by {
            assert(spec_pos_key(f(a)) == a);
            assert(spec_pos_key(f(b)) == b);
        }
        d.lemma_map_finite(f);
        vstd::set_lib::lemma_map_size(d, d.map(f), f);
    }
}

impl PosMap<Tile> {
    /// Sets the team on the tile under `key`, if there is a tile there.
    pub fn update_team(&mut self, key: (u32, u32), team: Option<Team>)
        ensures
            old(self)@.contains_key(key) ==> final(self)@ == old(self)@.insert(
                key,
                Tile { contained_unit_team: team, ..old(self)@[key] },
            ),
            !old(self)@.contains_key(key) ==> final(self)@ == old(self)@,
    {
        match self.get(key) {
            Some(t) => {
                let mut t2 = t;
                t2.update_team(team);
                self.insert(key, t2);
            },
            None => {},
        }
    }
}

} // verus!
