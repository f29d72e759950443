//! The reverse index of links: for each target, the records of the links
//! that point at it.
//!
//! A record is a triple `(source, field, position)`: the node that holds the
//! link and where in that node the link sits.

use vstd::prelude::*;
use ordermap::OrderSet;
use crate::ord_map::OrdMap;
use crate::order_set::{
    lemma_push_no_duplicates, lemma_swap_removed, swap_removed, triple_seq, triple_set_contains,
    triple_set_get, triple_set_insert, triple_set_len, triple_set_new, triple_set_swap_remove,
};

verus! {

/// The reverse index.
#[derive(Debug)]
pub struct BackLinks {
    buckets: OrdMap<OrderSet<(usize, usize, usize)>>,
}

impl BackLinks {
    /// Whether the index has a bucket for target `t`.
    pub closed spec fn has_key(&self, t: usize) -> bool {
        self.buckets.has(t)
    }

    /// The records in the bucket of `t`, in the order in which the bucket
    /// yields them.
    pub closed spec fn bucket(&self, t: usize) -> Seq<(usize, usize, usize)> {
        triple_seq(self.buckets.value(t))
    }

    /// The records of the links that point at `t`; none where `t` has no
    /// bucket.
    pub open spec fn records(&self, t: usize) -> Set<(usize, usize, usize)> {
        if self.has_key(t) {
            self.bucket(t).to_set()
        } else {
            Set::empty()
        }
    }

    /// No bucket holds a record twice.
    pub closed spec fn wf(&self) -> bool {
        &&& self.buckets.wf()
        &&& forall|i: int|
            0 <= i < self.buckets.vals().len() ==> (#[trigger] triple_seq(
                self.buckets.vals()[i],
            )).no_duplicates()
    }

    /// In a well-formed index no bucket holds a record twice.
    pub proof fn lemma_bucket(&self, t: usize)
        requires
            self.wf(),
            self.has_key(t),
        ensures
            self.bucket(t).no_duplicates(),
    {
        let i = self.buckets.keys().index_of(t);
        assert(self.buckets.keys().contains(t));
        assert(triple_seq(self.buckets.vals()[i]).no_duplicates());
    }

    /// An index without buckets.
    pub fn new() -> (b: Self)
        ensures
            b.wf(),
            forall|t: usize| !b.has_key(t),
    {
        BackLinks { buckets: OrdMap::new() }
    }

    /// Whether the index has a bucket for `t`.
    pub fn contains_key(&self, t: usize) -> (r: bool)
        ensures
            r == self.has_key(t),
    {
        self.buckets.contains_key(t)
    }

    /// Whether the bucket of `t` holds `rec`.
    pub fn contains(&self, t: usize, rec: (usize, usize, usize)) -> (r: bool)
        requires
            self.wf(),
        ensures
            r == self.records(t).contains(rec),
    {
        match self.buckets.get(t) {
            Some(set) => triple_set_contains(set, rec),
            None => false,
        }
    }

    /// Gives `t` an empty bucket unless it has a bucket already.
    pub fn ensure_key(&mut self, t: usize)
        requires
            old(self).wf(),
        ensures
            final(self).wf(),
            final(self).has_key(t),
            forall|u: usize| u != t ==> final(self).has_key(u) == old(self).has_key(u),
            forall|u: usize| final(self).records(u) == old(self).records(u),
            forall|u: usize| old(self).has_key(u) ==> final(self).bucket(u) == old(self).bucket(u),
    {
        if !self.buckets.contains_key(t) {
            let set = triple_set_new();
            self.buckets.insert(t, set);
            proof {
                let ok = old(self).buckets.keys();
                let nk = self.buckets.keys();
                assert forall|u: usize| u != t implies self.has_key(u) == old(self).has_key(u) by {
                    lemma_push_no_duplicates(ok, t);
                    assert(nk.to_set().contains(u) == ok.to_set().insert(t).contains(u));
                }
                assert(nk[ok.len() as int] == t);
                assert forall|u: usize| old(self).has_key(u) implies self.bucket(u) == old(
                    self,
                ).bucket(u) by {
                    let i = ok.index_of(u);
                    assert(nk[i] == u);
                    self.buckets.lemma_position(i);
                }
                self.buckets.lemma_position(ok.len() as int);
                assert forall|u: usize| self.records(u) == old(self).records(u) by {
                    if u == t {
                        assert(self.bucket(t) =~= Seq::empty());
                        assert(self.records(t) =~= Set::empty());
                    } else {
                        assert(self.has_key(u) == old(self).has_key(u));
                    }
                }
            }
        }
    }

    /// Puts `rec` into the bucket of `t`, which is made if need be.
    pub fn add(&mut self, t: usize, rec: (usize, usize, usize))
        requires
            old(self).wf(),
        ensures
            final(self).wf(),
            final(self).has_key(t),
            forall|u: usize| u != t ==> final(self).has_key(u) == old(self).has_key(u),
            forall|u: usize| u != t ==> final(self).records(u) == old(self).records(u),
            final(self).records(t) == old(self).records(t).insert(rec),
    {
        self.ensure_key(t);
        let ghost mid = *self;
        let ghost keys = self.buckets.keys();
        let ghost pos = keys.index_of(t);
        proof {
            assert(keys.contains(t));
            mid.lemma_bucket(t);
        }
        match self.buckets.get_mut(t) {
            Some(set) => {
                triple_set_insert(set, rec);
            },
            None => {},
        }
        proof {
            let before = mid.bucket(t);
            let after = triple_seq(self.buckets.vals()[pos]);
            if !before.contains(rec) {
                lemma_push_no_duplicates(before, rec);
            }
            assert(after.to_set() =~= before.to_set().insert(rec));
            assert(self.buckets.keys() == keys);
            assert forall|i: int| 0 <= i < self.buckets.vals().len() implies (#[trigger] triple_seq(
                self.buckets.vals()[i],
            )).no_duplicates() by {
                if i != pos {
                    assert(self.buckets.vals()[i] == mid.buckets.vals()[i]);
                }
            }
            assert forall|u: usize| u != t implies self.records(u) == old(self).records(u) by {
                if self.has_key(u) {
                    let i = keys.index_of(u);
                    assert(keys[i] == u);
                    assert(i != pos);
                    assert(self.buckets.value(u) == mid.buckets.value(u));
                }
            }
        }
    }

    /// Takes `rec` out of the bucket of `t`. The bucket stays, even if empty.
    pub fn remove(&mut self, t: usize, rec: (usize, usize, usize))
        requires
            old(self).wf(),
        ensures
            final(self).wf(),
            forall|u: usize| final(self).has_key(u) == old(self).has_key(u),
            forall|u: usize| u != t ==> final(self).records(u) == old(self).records(u),
            final(self).records(t) == old(self).records(t).remove(rec),
    {
        let ghost keys = self.buckets.keys();
        let ghost pos = keys.index_of(t);
        proof {
            if self.has_key(t) {
                assert(keys.contains(t));
                self.lemma_bucket(t);
            }
        }
        match self.buckets.get_mut(t) {
            Some(set) => {
                triple_set_swap_remove(set, rec);
            },
            None => {},
        }
        proof {
            if old(self).has_key(t) {
                let before = old(self).bucket(t);
                let after = triple_seq(self.buckets.vals()[pos]);
                if before.contains(rec) {
                    let i = before.index_of(rec);
                    assert(0 <= i < before.len() && before[i] == rec);
                    // the removed position is the one the set reported
                    lemma_swap_removed(before, i);
                    let j = choose|j: int|
                        0 <= j < before.len() && before[j] == rec && after == swap_removed(before, j);
                    assert(j == i);
                }
                assert(after.to_set() =~= before.to_set().remove(rec));
                assert forall|i: int|
                    0 <= i < self.buckets.vals().len() implies (#[trigger] triple_seq(
                    self.buckets.vals()[i],
                )).no_duplicates() by {
                    if i != pos {
                        assert(self.buckets.vals()[i] == old(self).buckets.vals()[i]);
                    }
                }
                assert forall|u: usize| u != t implies self.records(u) == old(self).records(u) by {
                    if self.has_key(u) {
                        let i = keys.index_of(u);
                        assert(keys[i] == u);
                        assert(i != pos);
                        assert(self.buckets.value(u) == old(self).buckets.value(u));
                    }
                }
            } else {
                assert(self.records(t) =~= old(self).records(t).remove(rec));
            }
        }
    }

    /// The records of the bucket of `t`, in order; none where `t` has no
    /// bucket.
    pub fn entries(&self, t: usize) -> (v: Vec<(usize, usize, usize)>)
        requires
            self.wf(),
        ensures
            v@.no_duplicates(),
            v@.to_set() == self.records(t),
            self.has_key(t) ==> v@ == self.bucket(t),
    {
        let mut v: Vec<(usize, usize, usize)> = Vec::new();
        match self.buckets.get(t) {
            Some(set) => {
                proof {
                    self.lemma_bucket(t);
                }
                let n = triple_set_len(set);
                let mut i: usize = 0;
                while i < n
                    invariant
                        i <= n,
                        n == triple_seq(*set).len(),
                        v@ == triple_seq(*set).take(i as int),
                    decreases n - i,
                {
                    match triple_set_get(set, i) {
                        Some(rec) => {
                            v.push(rec);
                            assert(triple_seq(*set).take(i + 1) =~= triple_seq(*set).take(
                                i as int,
                            ).push(rec));
                        },
                        None => {},
                    }
                    i = i + 1;
                }
                assert(triple_seq(*set).take(n as int) =~= triple_seq(*set));
            },
            None => {
                assert(v@.to_set() =~= Set::empty());
            },
        }
        v
    }

    /// The targets that have a bucket, each once.
    pub fn targets(&self) -> (v: Vec<usize>)
        requires
            self.wf(),
        ensures
            v@.no_duplicates(),
            forall|t: usize| v@.contains(t) <==> self.has_key(t),
    {
        let mut v: Vec<usize> = Vec::new();
        let n = self.buckets.len();
        let mut i: usize = 0;
        while i < n
            invariant
                i <= n,
                self.buckets.wf(),
                n == self.buckets.keys().len(),
                v@ == self.buckets.keys().take(i as int),
            decreases n - i,
        {
            match self.buckets.get_index(i) {
                Some(entry) => {
                    v.push(entry.0);
                    assert(self.buckets.keys().take(i + 1) =~= self.buckets.keys().take(
                        i as int,
                    ).push(entry.0));
                },
                None => {},
            }
            i = i + 1;
        }
        proof {
            assert(self.buckets.keys().take(n as int) =~= self.buckets.keys());
        }
        v
    }

    /// Drops the bucket of `t` with all its records.
    pub fn remove_key(&mut self, t: usize)
        requires
            old(self).wf(),
        ensures
            final(self).wf(),
            !final(self).has_key(t),
            forall|u: usize| u != t ==> final(self).has_key(u) == old(self).has_key(u),
            forall|u: usize| u != t ==> final(self).records(u) == old(self).records(u),
            forall|u: usize| u != t && old(self).has_key(u) ==> final(self).bucket(u) == old(self).bucket(u),
    {
        let ghost ok = self.buckets.keys();
        let ghost ov = self.buckets.vals();
        let r = self.buckets.swap_remove(t);
        proof {
            if r is Some {
                let p = ok.index_of(t);
                assert(ok.contains(t));
                lemma_swap_removed(ok, p);
                let nk = self.buckets.keys();
                let nv = self.buckets.vals();
                assert(!nk.to_set().contains(t));
                assert forall|u: usize| u != t implies self.has_key(u) == old(self).has_key(u) by {
                    assert(nk.to_set().contains(u) == ok.to_set().remove(t).contains(u));
                }
                assert forall|i: int| 0 <= i < nv.len() implies (#[trigger] triple_seq(
                    nv[i],
                )).no_duplicates() by {
                    if i == p {
                        assert(nv[i] == ov[ov.len() - 1]);
                    } else {
                        assert(nv[i] == ov[i]);
                    }
                }
                assert forall|u: usize| u != t && old(self).has_key(u) implies self.bucket(u)
                    == old(self).bucket(u) by {
                    let i = ok.index_of(u);
                    assert(ok[i] == u && 0 <= i < ok.len());
                    assert(i != p);
                    if i == ok.len() - 1 {
                        assert(nk[p] == u);
                        self.buckets.lemma_position(p);
                        assert(nv[p] == ov[i]);
                    } else {
                        assert(nk[i] == u);
                        self.buckets.lemma_position(i);
                    }
                }
                assert forall|u: usize| u != t implies self.records(u) == old(self).records(u) by {
                    assert(self.has_key(u) == old(self).has_key(u));
                }
            }
        }
    }
}

} // verus!
