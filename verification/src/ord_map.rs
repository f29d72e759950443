//! An insertion-ordered map from `usize` keys to values of any type.
//!
//! The keys are held in an `OrderSet`, which finds a key's position in
//! constant time; the values are held in a `Vec`, each at the position of its
//! key. Removal swaps the last entry into the gap, so it is constant-time too
//! but moves one entry.

use vstd::prelude::*;
use ordermap::OrderSet;
use crate::order_set::{
    index_seq, index_set_get, index_set_insert, index_set_len, index_set_new, index_set_position,
    index_set_swap_remove, lemma_push_no_duplicates, lemma_swap_removed, swap_removed,
};

verus! {

/// An insertion-ordered map keyed by `usize`.
#[derive(Debug)]
pub struct OrdMap<V> {
    keys: OrderSet<usize>,
    vals: Vec<V>,
}

impl<V> OrdMap<V> {
    /// The keys, in iteration order.
    pub closed spec fn keys(&self) -> Seq<usize> {
        index_seq(self.keys)
    }

    /// The values, each at the position of its key.
    pub closed spec fn vals(&self) -> Seq<V> {
        self.vals@
    }

    /// Every key occurs once and has one value.
    pub open spec fn wf(&self) -> bool {
        &&& self.keys().no_duplicates()
        &&& self.keys().len() == self.vals().len()
    }

    /// Whether `k` is a key of the map.
    pub open spec fn has(&self, k: usize) -> bool {
        self.keys().contains(k)
    }

    /// The value stored under `k`.
    pub open spec fn value(&self, k: usize) -> V
        recommends
            self.has(k),
    {
        self.vals()[self.keys().index_of(k)]
    }

    /// The map as a mathematical map, without its order.
    pub open spec fn map(&self) -> Map<usize, V> {
        Map::new(|k: usize| self.has(k), |k: usize| self.value(k))
    }

    /// In a well-formed map a key at position `i` has the value at position `i`.
    pub proof fn lemma_position(&self, i: int)
        requires
            self.wf(),
            0 <= i < self.keys().len(),
        ensures
            self.has(self.keys()[i]),
            self.keys().index_of(self.keys()[i]) == i,
            self.value(self.keys()[i]) == self.vals()[i],
    {
        let k = self.keys()[i];
        assert(self.keys().contains(k));
        let j = self.keys().index_of(k);
        assert(0 <= j < self.keys().len() && self.keys()[j] == k);
    }

    /// An empty map.
    pub fn new() -> (m: Self)
        ensures
            m.wf(),
            m.keys() == Seq::<usize>::empty(),
            m.vals() == Seq::<V>::empty(),
            m.map() == Map::<usize, V>::empty(),
    {
        let m = OrdMap { keys: index_set_new(), vals: Vec::new() };
        assert(m.map() =~= Map::<usize, V>::empty());
        m
    }

    /// The number of entries.
    pub fn len(&self) -> (n: usize)
        requires
            self.wf(),
        ensures
            n == self.keys().len(),
    {
        self.vals.len()
    }

    /// Whether `k` is a key of the map.
    pub fn contains_key(&self, k: usize) -> (r: bool)
        ensures
            r == self.has(k),
    {
        index_set_position(&self.keys, k).is_some()
    }

    /// The value stored under `k`, if there is one.
    pub fn get(&self, k: usize) -> (r: Option<&V>)
        requires
            self.wf(),
        ensures
            match r {
                Some(v) => self.has(k) && *v == self.value(k),
                None => !self.has(k),
            },
    {
        match index_set_position(&self.keys, k) {
            Some(i) => {
                proof {
                    self.lemma_position(i as int);
                }
                Some(&self.vals[i])
            },
            None => None,
        }
    }

    /// The value stored under `k`, to be changed in place. The keys, their
    /// order and all other values stay as they are.
    pub fn get_mut(&mut self, k: usize) -> (r: Option<&mut V>)
        requires
            old(self).wf(),
        ensures
            final(self).keys() == old(self).keys(),
            match r {
                Some(v) => {
                    &&& old(self).has(k)
                    &&& *v == old(self).value(k)
                    &&& final(self).vals() == old(self).vals().update(
                        old(self).keys().index_of(k),
                        *final(v),
                    )
                },
                None => !old(self).has(k) && final(self).vals() == old(self).vals(),
            },
    {
        match index_set_position(&self.keys, k) {
            Some(i) => {
                proof {
                    self.lemma_position(i as int);
                }
                Some(&mut self.vals[i])
            },
            None => None,
        }
    }

    /// The entry at position `i`, if the position is in range.
    pub fn get_index(&self, i: usize) -> (r: Option<(usize, &V)>)
        requires
            self.wf(),
        ensures
            match r {
                Some((k, v)) => i < self.keys().len() && k == self.keys()[i as int] && *v
                    == self.vals()[i as int],
                None => i >= self.keys().len(),
            },
    {
        match index_set_get(&self.keys, i) {
            Some(k) => Some((k, &self.vals[i])),
            None => None,
        }
    }

    /// Stores `v` under `k`. A new key is appended at the end; a key that is
    /// already present keeps its position and gives its former value back.
    pub fn insert(&mut self, k: usize, v: V) -> (r: Option<V>)
        requires
            old(self).wf(),
        ensures
            final(self).wf(),
            final(self).map() == old(self).map().insert(k, v),
            match r {
                Some(former) => {
                    &&& old(self).has(k)
                    &&& former == old(self).value(k)
                    &&& final(self).keys() == old(self).keys()
                    &&& final(self).vals() == old(self).vals().update(
                        old(self).keys().index_of(k),
                        v,
                    )
                },
                None => {
                    &&& !old(self).has(k)
                    &&& final(self).keys() == old(self).keys().push(k)
                    &&& final(self).vals() == old(self).vals().push(v)
                },
            },
    {
        match index_set_position(&self.keys, k) {
            Some(i) => {
                proof {
                    self.lemma_position(i as int);
                }
                let ghost stored = v;
                let mut v = v;
                std::mem::swap(&mut self.vals[i], &mut v);
                proof {
                    assert forall|u: usize| self.has(u) implies #[trigger] self.value(u) == (if u
                        == k {
                        stored
                    } else {
                        old(self).value(u)
                    }) by {
                        let j = self.keys().index_of(u);
                        assert(self.keys()[j] == u);
                    }
                    assert(self.map() =~= old(self).map().insert(k, stored));
                }
                Some(v)
            },
            None => {
                let added = index_set_insert(&mut self.keys, k);
                self.vals.push(v);
                proof {
                    let ok = old(self).keys();
                    let nk = self.keys();
                    lemma_push_no_duplicates(ok, k);
                    assert(nk[ok.len() as int] == k);
                    assert forall|u: usize| self.has(u) == (u == k || old(self).has(u)) by {
                        assert(nk.to_set().contains(u) == ok.to_set().insert(k).contains(u));
                    }
                    assert forall|u: usize| self.has(u) implies #[trigger] self.value(u) == (if u
                        == k {
                        v
                    } else {
                        old(self).value(u)
                    }) by {
                        if u == k {
                            self.lemma_position(ok.len() as int);
                        } else {
                            let j = ok.index_of(u);
                            assert(ok[j] == u);
                            assert(nk[j] == u);
                            self.lemma_position(j);
                        }
                    }
                    assert(self.map() =~= old(self).map().insert(k, v));
                }
                None
            },
        }
    }

    /// Removes the entry of `k` and gives its value back. The last entry
    /// takes the place of the removed one.
    pub fn swap_remove(&mut self, k: usize) -> (r: Option<V>)
        requires
            old(self).wf(),
        ensures
            final(self).wf(),
            match r {
                Some(v) => {
                    &&& old(self).has(k)
                    &&& v == old(self).value(k)
                    &&& final(self).keys() == swap_removed(
                        old(self).keys(),
                        old(self).keys().index_of(k),
                    )
                    &&& final(self).vals() == swap_removed(
                        old(self).vals(),
                        old(self).keys().index_of(k),
                    )
                },
                None => {
                    &&& !old(self).has(k)
                    &&& final(self).keys() == old(self).keys()
                    &&& final(self).vals() == old(self).vals()
                },
            },
    {
        match index_set_swap_remove(&mut self.keys, k) {
            Some(i) => {
                proof {
                    old(self).lemma_position(i as int);
                    lemma_swap_removed(old(self).keys(), i as int);
                }
                let v = self.vals.swap_remove(i);
                assert(self.vals@ =~= swap_removed(old(self).vals(), i as int));
                Some(v)
            },
            None => None,
        }
    }

    /// Takes the map apart: its entries, in order.
    pub fn into_entries(self) -> (v: Vec<(usize, V)>)
        requires
            self.wf(),
        ensures
            v@.len() == self.keys().len(),
            forall|j: int| 0 <= j < v@.len() ==> v@[j] == (self.keys()[j], self.vals()[j]),
    {
        let OrdMap { keys, vals } = self;
        let mut out: Vec<(usize, V)> = Vec::new();
        let ghost all = vals@;
        for val in it: vals.into_iter()
            invariant
                it.seq() == all,
                all.len() == index_seq(keys).len(),
                out@.len() == it.index(),
                forall|j: int| 0 <= j < out@.len() ==> out@[j] == (index_seq(keys)[j], all[j]),
        {
            let pos = out.len();
            match index_set_get(&keys, pos) {
                Some(k) => {
                    out.push((k, val));
                },
                None => {},
            }
        }
        out
    }
}

} // verus!
