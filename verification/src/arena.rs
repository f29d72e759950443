//! The container of nodes: an insertion-ordered map from allocated indices
//! to values, with two-phase allocation.

use vstd::prelude::*;
use crate::id_distributer::IdDistributer;
use crate::index::NodeIndex;
use crate::ord_map::OrdMap;
use crate::order_set::swap_removed;

verus! {

/// Why an arena refused to store a value.
#[derive(Debug, Clone, Copy, PartialEq, Eq, Structural)]
pub enum ArenaError {
    /// The allocator has no index left to hand out.
    Exhausted,
    /// The index is empty, so nothing can be stored under it.
    EmptyIndex,
    /// A value is already stored under the index.
    Occupied(NodeIndex),
}

/// Whether entry `j` of `entries` cannot be appended to an arena with the
/// indices `keys`: its index is empty, occupied, or listed earlier.
pub open spec fn clashes<V>(keys: Seq<usize>, entries: Seq<(NodeIndex, V)>, j: int) -> bool {
    ||| entries[j].0.0 == 0
    ||| keys.contains(entries[j].0.0)
    ||| exists|q: int| 0 <= q < j && entries[q].0 == entries[j].0
}

/// Whether entry `j` of `entries` is the first that cannot be appended to
/// an arena with the indices `keys`.
pub open spec fn first_clash_at<V>(keys: Seq<usize>, entries: Seq<(NodeIndex, V)>, j: int) -> bool {
    &&& 0 <= j < entries.len()
    &&& clashes(keys, entries, j)
    &&& forall|q: int| 0 <= q < j ==> !clashes(keys, entries, q)
}

/// An insertion-ordered container keyed by allocated indices.
#[derive(Debug)]
pub struct Arena<V> {
    distributer: IdDistributer,
    container: OrdMap<V>,
}

impl<V> Arena<V> {
    /// The occupied indices, in iteration order.
    pub closed spec fn keys(&self) -> Seq<usize> {
        self.container.keys()
    }

    /// The stored values, each at the position of its index.
    pub closed spec fn vals(&self) -> Seq<V> {
        self.container.vals()
    }

    /// No index is stored twice, each has one value, and the empty index is
    /// never occupied.
    pub closed spec fn wf(&self) -> bool {
        &&& self.container.wf()
        &&& !self.keys().contains(0)
    }

    /// Whether a value is stored under `k`.
    pub open spec fn has(&self, k: usize) -> bool {
        self.keys().contains(k)
    }

    /// The value stored under `k`.
    pub open spec fn value(&self, k: usize) -> V
        recommends
            self.has(k),
    {
        self.vals()[self.keys().index_of(k)]
    }

    /// What follows from well-formedness.
    pub proof fn lemma_wf(&self)
        requires
            self.wf(),
        ensures
            self.keys().no_duplicates(),
            self.keys().len() == self.vals().len(),
            !self.has(0),
    {
    }

    /// In a well-formed arena the index at position `i` has the value at
    /// position `i`.
    pub proof fn lemma_position(&self, i: int)
        requires
            self.wf(),
            0 <= i < self.keys().len(),
        ensures
            self.has(self.keys()[i]),
            self.keys().index_of(self.keys()[i]) == i,
            self.value(self.keys()[i]) == self.vals()[i],
    {
        self.container.lemma_position(i);
    }

    /// After a value was changed in place, the other values are as before.
    pub proof fn lemma_after_update(&self, before: &Arena<V>, x: usize)
        requires
            before.wf(),
            before.has(x),
            self.keys() == before.keys(),
            self.vals().len() == before.vals().len(),
            forall|j: int|
                0 <= j < self.vals().len() && j != before.keys().index_of(x) ==> self.vals()[j]
                    == before.vals()[j],
        ensures
            forall|z: usize| z != x && before.has(z) ==> self.value(z) == before.value(z),
    {
        let i = before.keys().index_of(x);
        assert(before.keys()[i] == x);
        assert forall|z: usize| z != x && before.has(z) implies self.value(z) == before.value(
            z,
        ) by {
            let j = before.keys().index_of(z);
            assert(before.keys()[j] == z);
        }
    }

    /// After a value was appended, the other values are as before.
    pub proof fn lemma_after_push(&self, before: &Arena<V>, x: usize, v: V)
        requires
            before.wf(),
            !before.has(x),
            self.keys() == before.keys().push(x),
            self.vals() == before.vals().push(v),
        ensures
            forall|z: usize| self.has(z) == (z == x || before.has(z)),
            self.value(x) == v,
            forall|z: usize| before.has(z) ==> self.value(z) == before.value(z),
    {
        let ok = before.keys();
        let nk = self.keys();
        crate::order_set::lemma_push_no_duplicates(ok, x);
        assert forall|z: usize| self.has(z) == (z == x || before.has(z)) by {
            assert(nk.to_set().contains(z) == ok.to_set().insert(x).contains(z));
        }
        assert(nk[ok.len() as int] == x);
        assert(nk.contains(x));
        let ix = nk.index_of(x);
        assert(nk[ix] == x);
        assert(ix == ok.len());
        assert forall|z: usize| before.has(z) implies self.value(z) == before.value(z) by {
            let j = ok.index_of(z);
            assert(ok[j] == z);
            assert(nk[j] == z);
            let k = nk.index_of(z);
            assert(nk.contains(z));
            assert(nk[k] == z);
            assert(k == j);
        }
    }

    /// After a removal, the other values are as before.
    pub proof fn lemma_after_remove(&self, before: &Arena<V>, x: usize)
        requires
            before.wf(),
            before.has(x),
            self.keys() == swap_removed(before.keys(), before.keys().index_of(x)),
            self.vals() == swap_removed(before.vals(), before.keys().index_of(x)),
        ensures
            forall|z: usize| self.has(z) == (z != x && before.has(z)),
            forall|z: usize| z != x && before.has(z) ==> self.value(z) == before.value(z),
    {
        let ok = before.keys();
        let nk = self.keys();
        let i = ok.index_of(x);
        assert(ok[i] == x);
        crate::order_set::lemma_swap_removed(ok, i);
        assert forall|z: usize| self.has(z) == (z != x && before.has(z)) by {
            assert(nk.to_set().contains(z) == ok.to_set().remove(x).contains(z));
        }
        assert forall|z: usize| z != x && before.has(z) implies self.value(z) == before.value(
            z,
        ) by {
            let j = ok.index_of(z);
            assert(ok[j] == z);
            assert(j != i);
            let k = nk.index_of(z);
            assert(nk.contains(z));
            assert(nk[k] == z);
            if j == ok.len() - 1 {
                assert(nk[i] == z);
                assert(k == i);
            } else {
                assert(nk[j] == z);
                assert(k == j);
            }
        }
    }

    /// An empty arena that draws its indices from `distributer`.
    pub fn new(distributer: IdDistributer) -> (a: Self)
        ensures
            a.wf(),
            a.keys() == Seq::<usize>::empty(),
            a.vals() == Seq::<V>::empty(),
            a.allocator() == distributer,
    {
        Arena { distributer, container: OrdMap::new() }
    }

    /// Allocates an index without storing anything under it. Gives nothing
    /// once the allocator is exhausted.
    pub fn reserve(&mut self) -> (r: Option<NodeIndex>)
        ensures
            final(self).keys() == old(self).keys(),
            final(self).vals() == old(self).vals(),
            final(self).wf() == old(self).wf(),
            final(self).allocator() == old(self).allocator(),
            r matches Some(i) ==> i.0 > old(self).allocator().floor(),
    {
        match self.distributer.allocate() {
            Some(id) => Some(NodeIndex(id)),
            None => None,
        }
    }

    /// The allocator that the arena draws its indices from.
    pub closed spec fn allocator(&self) -> IdDistributer {
        self.distributer
    }

    /// Stores `item` under the index `i`, which must not be empty and must
    /// not be occupied, at the end of the order. A caller that cannot tell
    /// uses [`Self::try_fill_back`].
    pub fn fill_back(&mut self, i: NodeIndex, item: V)
        requires
            old(self).wf(),
            i.0 != 0,
            !old(self).has(i.0),
        ensures
            final(self).wf(),
            final(self).allocator() == old(self).allocator(),
            final(self).keys() == old(self).keys().push(i.0),
            final(self).vals() == old(self).vals().push(item),
    {
        let _stored = self.try_fill_back(i, item);
    }

    /// Stores `item` under `i`, at the end of the order. An empty or
    /// occupied index is refused, and the arena stays as it was.
    pub fn try_fill_back(&mut self, i: NodeIndex, item: V) -> (r: Result<(), ArenaError>)
        requires
            old(self).wf(),
        ensures
            final(self).wf(),
            final(self).allocator() == old(self).allocator(),
            match r {
                Ok(()) => {
                    &&& i.0 != 0
                    &&& !old(self).has(i.0)
                    &&& final(self).keys() == old(self).keys().push(i.0)
                    &&& final(self).vals() == old(self).vals().push(item)
                },
                Err(e) => {
                    &&& final(self).keys() == old(self).keys()
                    &&& final(self).vals() == old(self).vals()
                    &&& e == if i.0 == 0 {
                        ArenaError::EmptyIndex
                    } else {
                        ArenaError::Occupied(i)
                    }
                    &&& i.0 == 0 || old(self).has(i.0)
                },
            },
    {
        if i.0 == 0 {
            return Err(ArenaError::EmptyIndex);
        }
        if self.container.contains_key(i.0) {
            return Err(ArenaError::Occupied(i));
        }
        self.container.insert(i.0, item);
        proof {
            assert forall|j: int| 0 <= j < self.keys().len() implies self.keys()[j] != 0 by {
                if j < old(self).keys().len() {
                    assert(old(self).keys().contains(old(self).keys()[j]));
                }
            }
        }
        Ok(())
    }

    /// Allocates an index and stores `item` under it, at the end of the
    /// order. Where the allocator is exhausted, or hands out an index that
    /// is occupied already, the arena stays as it was.
    pub fn insert(&mut self, item: V) -> (r: Result<NodeIndex, ArenaError>)
        requires
            old(self).wf(),
        ensures
            final(self).wf(),
            final(self).allocator() == old(self).allocator(),
            match r {
                Ok(i) => {
                    &&& i.0 > old(self).allocator().floor()
                    &&& !old(self).has(i.0)
                    &&& final(self).keys() == old(self).keys().push(i.0)
                    &&& final(self).vals() == old(self).vals().push(item)
                },
                Err(e) => {
                    &&& final(self).keys() == old(self).keys()
                    &&& final(self).vals() == old(self).vals()
                    &&& e matches ArenaError::Occupied(i) ==> old(self).has(i.0)
                    &&& e != ArenaError::EmptyIndex
                },
            },
    {
        match self.distributer.allocate() {
            Some(id) => {
                let i = NodeIndex(id);
                match self.try_fill_back(i, item) {
                    Ok(()) => Ok(i),
                    Err(e) => Err(e),
                }
            },
            None => Err(ArenaError::Exhausted),
        }
    }

    /// Replaces the value stored under `i` by what `f` makes of it. The
    /// value moves to the end of the order, and the last entry takes its
    /// former place.
    pub fn update_with<F: FnOnce(V) -> V>(&mut self, i: NodeIndex, f: F)
        requires
            old(self).wf(),
            old(self).has(i.0),
            call_requires(f, (old(self).value(i.0),)),
        ensures
            final(self).wf(),
            final(self).allocator() == old(self).allocator(),
            final(self).keys() == swap_removed(
                old(self).keys(),
                old(self).keys().index_of(i.0),
            ).push(i.0),
            final(self).vals().len() == old(self).vals().len(),
            final(self).vals().drop_last() == swap_removed(
                old(self).vals(),
                old(self).keys().index_of(i.0),
            ),
            call_ensures(f, (old(self).value(i.0),), final(self).vals().last()),
            final(self).has(i.0),
            final(self).value(i.0) == final(self).vals().last(),
            forall|z: usize| final(self).has(z) == old(self).has(z),
            forall|z: usize|
                z != i.0 && old(self).has(z) ==> final(self).value(z) == old(self).value(z),
    {
        let ghost a0 = *self;
        proof {
            a0.lemma_wf();
        }
        match self.remove(i) {
            Some(v) => {
                let ghost a1 = *self;
                let w = f(v);
                let r = self.try_fill_back(i, w);
                proof {
                    a1.lemma_after_remove(&a0, i.0);
                    assert(r is Ok);
                    self.lemma_after_push(&a1, i.0, w);
                    assert(self.vals().drop_last() =~= a1.vals());
                    assert forall|z: usize| self.has(z) == a0.has(z) by {
                        assert(a1.has(z) == (z != i.0 && a0.has(z)));
                    }
                    assert forall|z: usize| z != i.0 && a0.has(z) implies self.value(z)
                        == a0.value(z) by {
                        assert(a1.has(z));
                    }
                }
            },
            None => {},
        }
    }

    /// Removes the value stored under `i` and gives it back. The last entry
    /// takes the place of the removed one.
    pub fn remove(&mut self, i: NodeIndex) -> (r: Option<V>)
        requires
            old(self).wf(),
        ensures
            final(self).wf(),
            final(self).allocator() == old(self).allocator(),
            match r {
                Some(v) => {
                    &&& old(self).has(i.0)
                    &&& v == old(self).value(i.0)
                    &&& final(self).keys() == swap_removed(
                        old(self).keys(),
                        old(self).keys().index_of(i.0),
                    )
                    &&& final(self).vals() == swap_removed(
                        old(self).vals(),
                        old(self).keys().index_of(i.0),
                    )
                },
                None => {
                    &&& !old(self).has(i.0)
                    &&& final(self).keys() == old(self).keys()
                    &&& final(self).vals() == old(self).vals()
                },
            },
    {
        let r = self.container.swap_remove(i.0);
        proof {
            if r is Some {
                let k = old(self).keys();
                let p = k.index_of(i.0);
                assert(k.contains(i.0));
                crate::order_set::lemma_swap_removed(k, p);
                assert(!self.keys().to_set().contains(0)) by {
                    assert(!k.to_set().contains(0));
                }
            }
        }
        r
    }

    /// Whether a value is stored under `i`.
    pub fn contains(&self, i: NodeIndex) -> (r: bool)
        ensures
            r == self.has(i.0),
    {
        self.container.contains_key(i.0)
    }

    /// The value stored under `i`, if there is one.
    pub fn get(&self, i: NodeIndex) -> (r: Option<&V>)
        requires
            self.wf(),
        ensures
            match r {
                Some(v) => self.has(i.0) && *v == self.value(i.0),
                None => !self.has(i.0),
            },
    {
        self.container.get(i.0)
    }

    /// The value stored under `i`, to be changed in place. Indices, order
    /// and all other values stay as they are.
    pub fn get_mut(&mut self, i: NodeIndex) -> (r: Option<&mut V>)
        requires
            old(self).wf(),
        ensures
            final(self).wf(),
            final(self).allocator() == old(self).allocator(),
            final(self).keys() == old(self).keys(),
            match r {
                Some(v) => {
                    &&& old(self).has(i.0)
                    &&& *v == old(self).value(i.0)
                    &&& final(self).vals() == old(self).vals().update(
                        old(self).keys().index_of(i.0),
                        *final(v),
                    )
                },
                None => !old(self).has(i.0) && final(self).vals() == old(self).vals(),
            },
    {
        self.container.get_mut(i.0)
    }

    /// The entry at position `pos` of the order, if the position is in range.
    pub fn get_index(&self, pos: usize) -> (r: Option<(NodeIndex, &V)>)
        requires
            self.wf(),
        ensures
            match r {
                Some((i, v)) => pos < self.keys().len() && i.0 == self.keys()[pos as int] && *v
                    == self.vals()[pos as int],
                None => pos >= self.keys().len(),
            },
    {
        match self.container.get_index(pos) {
            Some((k, v)) => Some((NodeIndex(k), v)),
            None => None,
        }
    }

    /// The number of stored values.
    pub fn len(&self) -> (n: usize)
        requires
            self.wf(),
        ensures
            n == self.keys().len(),
    {
        self.container.len()
    }

    /// All entries, in order.
    pub fn iter(&self) -> (v: Vec<(NodeIndex, &V)>)
        requires
            self.wf(),
        ensures
            v@.len() == self.keys().len(),
            forall|j: int|
                0 <= j < v@.len() ==> v@[j].0.0 == self.keys()[j] && *v@[j].1 == self.vals()[j],
    {
        let mut v: Vec<(NodeIndex, &V)> = Vec::new();
        let n = self.len();
        let mut pos: usize = 0;
        while pos < n
            invariant
                self.wf(),
                n == self.keys().len(),
                pos <= n,
                v@.len() == pos,
                forall|j: int|
                    0 <= j < pos ==> v@[j].0.0 == self.keys()[j] && *v@[j].1 == self.vals()[j],
            decreases n - pos,
        {
            match self.get_index(pos) {
                Some(e) => {
                    v.push(e);
                },
                None => {},
            }
            pos = pos + 1;
        }
        v
    }

    /// Takes the arena apart: its entries, in order.
    pub fn into_entries(self) -> (v: Vec<(NodeIndex, V)>)
        requires
            self.wf(),
        ensures
            v@.len() == self.keys().len(),
            forall|j: int| 0 <= j < v@.len() ==> v@[j] == (NodeIndex(self.keys()[j]), self.vals()[j]),
    {
        let Arena { distributer, container } = self;
        let entries = container.into_entries();
        let ghost all = entries@;
        let mut out: Vec<(NodeIndex, V)> = Vec::new();
        for e in it: entries.into_iter()
            invariant
                it.seq() == all,
                out@.len() == it.index(),
                forall|j: int| 0 <= j < out@.len() ==> out@[j] == (NodeIndex(all[j].0), all[j].1),
        {
            out.push((NodeIndex(e.0), e.1));
        }
        out
    }

    /// Whether any index of `entries` is occupied in this arena, or empty,
    /// or occurs twice in `entries`: the first such index, if there is one.
    pub fn first_clash(&self, entries: &Vec<(NodeIndex, V)>) -> (r: Option<NodeIndex>)
        requires
            self.wf(),
        ensures
            match r {
                Some(i) => exists|j: int| #[trigger]
                    first_clash_at(self.keys(), entries@, j) && entries@[j].0 == i,
                None => forall|j: int| 0 <= j < entries@.len() ==> !clashes(self.keys(), entries@, j),
            },
    {
        let mut seen: OrdMap<()> = OrdMap::new();
        let mut j: usize = 0;
        while j < entries.len()
            invariant
                j <= entries.len(),
                self.wf(),
                seen.wf(),
                forall|k: usize| seen.has(k) <==> exists|q: int| 0 <= q < j && entries@[q].0.0 == k,
                forall|q: int| 0 <= q < j ==> !clashes(self.keys(), entries@, q),
            decreases entries.len() - j,
        {
            let i = entries[j].0;
            if i.0 == 0 || self.container.contains_key(i.0) || seen.contains_key(i.0) {
                proof {
                    if seen.has(i.0) {
                        let q = choose|q: int| 0 <= q < j && entries@[q].0.0 == i.0;
                        assert(entries@[q].0 == i);
                        assert(0 <= q < j && entries@[q].0 == entries@[j as int].0);
                    }
                    assert(clashes(self.keys(), entries@, j as int));
                    assert(first_clash_at(self.keys(), entries@, j as int) && entries@[j as int].0
                        == i);
                }
                return Some(i);
            }
            let ghost before = seen;
            seen.insert(i.0, ());
            proof {
                assert forall|k: usize| seen.has(k) <==> exists|q: int|
                    0 <= q < j + 1 && entries@[q].0.0 == k by {
                    assert(seen.map().contains_key(k) == before.map().insert(i.0, ()).contains_key(
                        k,
                    ));
                    assert(seen.has(k) == seen.map().contains_key(k));
                    assert(before.has(k) == before.map().contains_key(k));
                    if before.has(k) {
                        let q = choose|q: int| 0 <= q < j && entries@[q].0.0 == k;
                        assert(0 <= q < j + 1);
                    }
                    if k == i.0 {
                        assert(0 <= j < j + 1 && entries@[j as int].0.0 == k);
                    }
                    if exists|q: int| 0 <= q < j + 1 && entries@[q].0.0 == k {
                        let q = choose|q: int| 0 <= q < j + 1 && entries@[q].0.0 == k;
                        if q < j {
                            assert(before.has(k));
                        }
                    }
                }
                assert(!clashes(self.keys(), entries@, j as int)) by {
                    if exists|q: int| 0 <= q < j && entries@[q].0 == entries@[j as int].0 {
                        let q = choose|q: int| 0 <= q < j && entries@[q].0 == entries@[j as int].0;
                        assert(before.has(i.0));
                    }
                }
            }
            j = j + 1;
        }
        None
    }

    /// Appends `entries` in their order. None of their indices may be
    /// empty, occupied, or listed twice. A caller that cannot tell uses
    /// [`Self::try_merge`].
    pub fn merge(&mut self, entries: Vec<(NodeIndex, V)>)
        requires
            old(self).wf(),
            forall|j: int| 0 <= j < entries@.len() ==> !clashes(old(self).keys(), entries@, j),
        ensures
            final(self).wf(),
            final(self).allocator() == old(self).allocator(),
            final(self).keys() == old(self).keys() + Seq::new(
                entries@.len(),
                |j: int| entries@[j].0.0,
            ),
            final(self).vals() == old(self).vals() + Seq::new(entries@.len(), |j: int| entries@[j].1),
    {
        let _merged = self.try_merge(entries);
    }

    /// Appends `entries` in their order. Nothing is stored where one of the
    /// indices is empty, occupied, or listed twice: the first such index is
    /// given back.
    pub fn try_merge(&mut self, entries: Vec<(NodeIndex, V)>) -> (r: Result<(), ArenaError>)
        requires
            old(self).wf(),
        ensures
            final(self).wf(),
            final(self).allocator() == old(self).allocator(),
            match r {
                Ok(()) => {
                    &&& forall|j: int| 0 <= j < entries@.len() ==> !clashes(old(self).keys(), entries@, j)
                    &&& final(self).keys() == old(self).keys() + Seq::new(
                        entries@.len(),
                        |j: int| entries@[j].0.0,
                    )
                    &&& final(self).vals() == old(self).vals() + Seq::new(
                        entries@.len(),
                        |j: int| entries@[j].1,
                    )
                },
                Err(e) => {
                    &&& final(self).keys() == old(self).keys()
                    &&& final(self).vals() == old(self).vals()
                    &&& exists|j: int| #[trigger]
                        first_clash_at(old(self).keys(), entries@, j) && e == (if entries@[j].0.0
                            == 0 {
                            ArenaError::EmptyIndex
                        } else {
                            ArenaError::Occupied(entries@[j].0)
                        })
                },
            },
    {
        match self.first_clash(&entries) {
            Some(i) => {
                return Err(
                    if i.0 == 0 {
                        ArenaError::EmptyIndex
                    } else {
                        ArenaError::Occupied(i)
                    },
                );
            },
            None => {},
        }
        let ghost all = entries@;
        let ghost k0 = self.keys();
        let ghost v0 = self.vals();
        let ghost d0 = self.allocator();
        for e in it: entries.into_iter()
            invariant
                it.seq() == all,
                self.wf(),
                self.allocator() == d0,
                forall|j: int| 0 <= j < all.len() ==> !clashes(k0, all, j),
                self.keys() == k0 + Seq::new(it.index() as nat, |j: int| all[j].0.0),
                self.vals() == v0 + Seq::new(it.index() as nat, |j: int| all[j].1),
        {
            let ghost n = it.index();
            let ghost kb = self.keys();
            proof {
                assert(!clashes(k0, all, n));
                assert(!self.has(e.0.0)) by {
                    if kb.contains(e.0.0) {
                        let q = choose|q: int| 0 <= q < kb.len() && kb[q] == e.0.0;
                        if q < k0.len() {
                            assert(k0[q] == e.0.0);
                            assert(k0.contains(e.0.0));
                        } else {
                            assert(all[q - k0.len()].0 == all[n].0);
                        }
                    }
                }
            }
            let r = self.try_fill_back(e.0, e.1);
            proof {
                assert(self.keys() =~= k0 + Seq::new((n + 1) as nat, |j: int| all[j].0.0));
                assert(self.vals() =~= v0 + Seq::new((n + 1) as nat, |j: int| all[j].1));
            }
        }
        Ok(())
    }
}

} // verus!
