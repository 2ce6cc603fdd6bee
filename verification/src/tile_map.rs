//! A sparse map from tile coordinates to whatever is kept per tile.

use std::collections::HashMap;

use vstd::prelude::*;

use crate::tile::TileCoord;

verus! {

broadcast use vstd::std_specs::hash::group_hash_axioms;

/// The one number a tile coordinate is filed under.
pub open spec fn key_of(c: (int, int)) -> int {
    (c.0 + 0x8000_0000) * 0x1_0000_0000 + (c.1 + 0x8000_0000)
}

/// Whether a pair of integers is a tile coordinate.
pub open spec fn is_coord(c: (int, int)) -> bool {
    i32::MIN <= c.0 <= i32::MAX && i32::MIN <= c.1 <= i32::MAX
}

/// The tile coordinate as mathematical integers.
pub open spec fn ints(c: TileCoord) -> (int, int) {
    (c.0 as int, c.1 as int)
}

/// The one number a tile coordinate is filed under.
fn key(c: TileCoord) -> (k: u64)
    ensures
        k == key_of(ints(c)),
{
    let hi: u64 = (c.0 as i64 + 0x8000_0000) as u64;
    let lo: u64 = (c.1 as i64 + 0x8000_0000) as u64;
    hi * 0x1_0000_0000 + lo
}

/// The tile coordinate filed under a number.
fn coord(k: u64) -> (c: TileCoord)
    ensures
        k == key_of(ints(c)),
{
    let hi: u64 = k / 0x1_0000_0000;
    let lo: u64 = k % 0x1_0000_0000;
    ((hi as i64 - 0x8000_0000) as i32, (lo as i64 - 0x8000_0000) as i32)
}

/// A sparse map from tile coordinates. A coordinate that holds nothing costs nothing.
#[derive(Clone, Debug, PartialEq)]
pub struct TileMap<T> {
    map: HashMap<u64, T>,
}

impl<T> View for TileMap<T> {
    type V = Map<(int, int), T>;

    closed spec fn view(&self) -> Map<(int, int), T> {
        Map::new(
            |c: (int, int)| is_coord(c) && self.map@.contains_key(key_of(c) as u64),
            |c: (int, int)| self.map@[key_of(c) as u64],
        )
    }
}

impl<T> TileMap<T> {
    /// As many coordinates are held as numbers are filed.
    proof fn lemma_len(&self)
        ensures
            forall|c: (int, int)| #[trigger] self@.contains_key(c) ==> is_coord(c),
            self@.dom().finite(),
            self@.len() == self.map@.len(),
    {
        let f = |k: u64| ((k as int) / 0x1_0000_0000 - 0x8000_0000, (k as int) % 0x1_0000_0000 - 0x8000_0000);
        let image = self.map@.dom().map(f);
        assert forall|c: (int, int)| self@.dom().contains(c) implies image.contains(c) by {
            let k = key_of(c) as u64;
            assert(self.map@.dom().contains(k));
            assert(f(k) == c);
        }
        assert forall|c: (int, int)| image.contains(c) implies self@.dom().contains(c) by {
            let k = choose|k: u64| self.map@.dom().contains(k) && f(k) == c;
            assert(key_of(c) == k as int);
        }
        assert(image =~= self@.dom());
        self.map@.dom().lemma_map_finite(f);
        assert(vstd::relations::injective_on(f, self.map@.dom()));
        vstd::set_lib::lemma_map_size(self.map@.dom(), image, f);
    }

    /// A map that holds nothing.
    pub fn new() -> (m: TileMap<T>)
        ensures
            m@ == Map::<(int, int), T>::empty(),
    {
        let m = TileMap { map: HashMap::new() };
        assert(m@ =~= Map::<(int, int), T>::empty());
        m
    }

    /// How many tiles are held.
    pub fn len(&self) -> (n: usize)
        ensures
            n == self@.len(),
            self@.dom().finite(),
    {
        proof {
            self.lemma_len();
        }
        self.map.len()
    }

    /// Whether nothing is held.
    pub fn is_empty(&self) -> (r: bool)
        ensures
            r == (self@ == Map::<(int, int), T>::empty()),
    {
        proof {
            self.lemma_len();
            if self@.len() == 0 {
                self@.dom().lemma_len0_is_empty();
                assert(self@ =~= Map::<(int, int), T>::empty());
            }
        }
        self.map.len() == 0
    }

    /// Whether a tile is held.
    pub fn contains(&self, c: TileCoord) -> (r: bool)
        ensures
            r == self@.contains_key(ints(c)),
    {
        self.map.contains_key(&key(c))
    }

    /// What is held for a tile.
    pub fn get(&self, c: TileCoord) -> (r: Option<&T>)
        ensures
            match r {
                Some(t) => self@.contains_key(ints(c)) && *t == self@[ints(c)],
                None => !self@.contains_key(ints(c)),
            },
    {
        self.map.get(&key(c))
    }

    /// Hold something for a tile, in place of what was held.
    pub fn insert(&mut self, c: TileCoord, value: T)
        ensures
            final(self)@ == old(self)@.insert(ints(c), value),
    {
        let k: u64 = key(c);
        self.map.insert(k, value);
        assert(self@ =~= old(self)@.insert(ints(c), value));
    }

    /// Stop holding a tile, and hand back what was held.
    pub fn remove(&mut self, c: TileCoord) -> (r: Option<T>)
        ensures
            final(self)@ == old(self)@.remove(ints(c)),
            match r {
                Some(t) => old(self)@.contains_key(ints(c)) && t == old(self)@[ints(c)],
                None => !old(self)@.contains_key(ints(c)),
            },
    {
        let k: u64 = key(c);
        let r = self.map.remove(&k);
        assert(self@ =~= old(self)@.remove(ints(c)));
        r
    }

    /// Hold nothing any more.
    pub fn clear(&mut self)
        ensures
            final(self)@ == Map::<(int, int), T>::empty(),
    {
        self.map.clear();
        assert(self@ =~= Map::<(int, int), T>::empty());
    }

    /// The coordinates of every tile held, each once, in no particular order.
    pub fn coords(&self) -> (v: Vec<TileCoord>)
        ensures
            forall|i: int| 0 <= i < v@.len() ==> self@.contains_key(ints(#[trigger] v@[i])),
            forall|c: (int, int)|
                #[trigger] self@.contains_key(c) ==> exists|i: int|
                    0 <= i < v@.len() && ints(#[trigger] v@[i]) == c,
            forall|i: int, j: int|
                0 <= i < j < v@.len() ==> ints(#[trigger] v@[i]) != ints(#[trigger] v@[j]),
            v@.len() == self@.len(),
            self@.dom().finite(),
    {
        let mut v: Vec<TileCoord> = Vec::new();
        let keys = self.map.keys();
        let ghost filed: Seq<&u64> = vstd::std_specs::iter::IteratorSpec::remaining(&keys);
        for k in it: keys
            invariant
                it.seq() == filed,
                v@.len() == it.index(),
                forall|i: int| 0 <= i < v@.len() ==> *filed[i] == key_of(ints(#[trigger] v@[i])),
        {
            v.push(coord(*k));
        }
        proof {
            self.lemma_len();
            let plain = filed.unref();
            assert(plain.to_set() == self.map@.dom());
            assert forall|i: int| 0 <= i < v@.len() implies self@.contains_key(
                ints(#[trigger] v@[i]),
            ) by {
                assert(plain[i] == *filed[i]);
                assert(plain.to_set().contains(plain[i]));
            }
            assert forall|c: (int, int)| #[trigger] self@.contains_key(c) implies exists|i: int|
                0 <= i < v@.len() && ints(#[trigger] v@[i]) == c by {
                assert(plain.to_set().contains(key_of(c) as u64));
                let i = choose|i: int| 0 <= i < plain.len() && plain[i] == key_of(c) as u64;
                assert(plain[i] == *filed[i]);
                assert(ints(v@[i]) == c);
            }
        }
        v
    }
}

} // verus!
