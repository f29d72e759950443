//! The record of link changes made while a transaction is applied.
//!
//! An event is a triple `(source, target, field)`: node `source` gained or
//! lost a link to `target` in field `field`. Adding an event that was recorded
//! as removed cancels the removal, and the other way round, so that the
//! recorder holds the net change.

use vstd::prelude::*;
use ordermap::OrderSet;
use crate::order_set::{
    lemma_push_no_duplicates, lemma_swap_removed, triple_seq, triple_set_contains,
    triple_set_get, triple_set_insert, triple_set_len, triple_set_new, triple_set_swap_remove,
};

verus! {

/// The net link changes of a commit.
#[derive(Debug)]
pub struct LinkChangeRecorder {
    adds: OrderSet<(usize, usize, usize)>,
    removes: OrderSet<(usize, usize, usize)>,
}

impl LinkChangeRecorder {
    /// The links that came into being, in the order in which they are
    /// handed out.
    pub closed spec fn adds_seq(&self) -> Seq<(usize, usize, usize)> {
        triple_seq(self.adds)
    }

    /// The links that went away, in the order in which they are handed out.
    pub closed spec fn removes_seq(&self) -> Seq<(usize, usize, usize)> {
        triple_seq(self.removes)
    }

    /// The links that came into being.
    pub open spec fn adds(&self) -> Set<(usize, usize, usize)> {
        self.adds_seq().to_set()
    }

    /// The links that went away.
    pub open spec fn removes(&self) -> Set<(usize, usize, usize)> {
        self.removes_seq().to_set()
    }

    /// No event is recorded twice on either side.
    pub closed spec fn wf(&self) -> bool {
        &&& triple_seq(self.adds).no_duplicates()
        &&& triple_seq(self.removes).no_duplicates()
    }

    /// A well-formed recorder hands out each event once.
    pub proof fn lemma_wf(&self)
        requires
            self.wf(),
        ensures
            self.adds_seq().no_duplicates(),
            self.removes_seq().no_duplicates(),
    {
    }

    /// A recorder without events.
    pub fn new() -> (r: Self)
        ensures
            r.wf(),
            r.adds() == Set::<(usize, usize, usize)>::empty(),
            r.removes() == Set::<(usize, usize, usize)>::empty(),
    {
        let r = LinkChangeRecorder { adds: triple_set_new(), removes: triple_set_new() };
        assert(r.adds() =~= Set::empty());
        assert(r.removes() =~= Set::empty());
        r
    }

    /// Records that `x` gained a link to `y` in field `l`. A link to the
    /// empty index is no link and is not recorded. An event that was
    /// recorded as removed is taken back instead.
    pub fn add_link(&mut self, x: usize, y: usize, l: usize)
        requires
            old(self).wf(),
        ensures
            final(self).wf(),
            y == 0 ==> final(self).adds() == old(self).adds() && final(self).removes() == old(
                self,
            ).removes(),
            y != 0 && old(self).removes().contains((x, y, l)) ==> {
                &&& final(self).adds() == old(self).adds()
                &&& final(self).removes() == old(self).removes().remove((x, y, l))
            },
            y != 0 && !old(self).removes().contains((x, y, l)) ==> {
                &&& final(self).adds() == old(self).adds().insert((x, y, l))
                &&& final(self).removes() == old(self).removes()
            },
    {
        if y == 0 {
            return ;
        }
        let e = (x, y, l);
        if triple_set_contains(&self.removes, e) {
            let ghost before = triple_seq(self.removes);
            let pos = triple_set_swap_remove(&mut self.removes, e);
            proof {
                lemma_swap_removed(before, pos.unwrap() as int);
            }
        } else {
            let ghost before = triple_seq(self.adds);
            let added = triple_set_insert(&mut self.adds, e);
            proof {
                if added {
                    lemma_push_no_duplicates(before, e);
                } else {
                    assert(before.to_set() =~= before.to_set().insert(e));
                }
            }
        }
    }

    /// Records that `x` lost its link to `y` in field `l`. A link to the
    /// empty index is no link and is not recorded. An event that was
    /// recorded as added is taken back instead.
    pub fn remove_link(&mut self, x: usize, y: usize, l: usize)
        requires
            old(self).wf(),
        ensures
            final(self).wf(),
            y == 0 ==> final(self).adds() == old(self).adds() && final(self).removes() == old(
                self,
            ).removes(),
            y != 0 && old(self).adds().contains((x, y, l)) ==> {
                &&& final(self).removes() == old(self).removes()
                &&& final(self).adds() == old(self).adds().remove((x, y, l))
            },
            y != 0 && !old(self).adds().contains((x, y, l)) ==> {
                &&& final(self).removes() == old(self).removes().insert((x, y, l))
                &&& final(self).adds() == old(self).adds()
            },
    {
        if y == 0 {
            return ;
        }
        let e = (x, y, l);
        if triple_set_contains(&self.adds, e) {
            let ghost before = triple_seq(self.adds);
            let pos = triple_set_swap_remove(&mut self.adds, e);
            proof {
                lemma_swap_removed(before, pos.unwrap() as int);
            }
        } else {
            let ghost before = triple_seq(self.removes);
            let added = triple_set_insert(&mut self.removes, e);
            proof {
                if added {
                    lemma_push_no_duplicates(before, e);
                } else {
                    assert(before.to_set() =~= before.to_set().insert(e));
                }
            }
        }
    }

    /// The recorded additions, in order.
    pub fn added(&self) -> (v: Vec<(usize, usize, usize)>)
        requires
            self.wf(),
        ensures
            v@ == self.adds_seq(),
            v@.no_duplicates(),
    {
        copy_out(&self.adds)
    }

    /// The recorded removals, in order.
    pub fn removed(&self) -> (v: Vec<(usize, usize, usize)>)
        requires
            self.wf(),
        ensures
            v@ == self.removes_seq(),
            v@.no_duplicates(),
    {
        copy_out(&self.removes)
    }
}

/// The items of a set of triples, in order.
pub(crate) fn copy_out(set: &OrderSet<(usize, usize, usize)>) -> (v: Vec<(usize, usize, usize)>)
    ensures
        v@ == triple_seq(*set),
{
    let mut v: Vec<(usize, usize, usize)> = Vec::new();
    let n = triple_set_len(set);
    let mut i: usize = 0;
    while i < n
        invariant
            i <= n,
            n == triple_seq(*set).len(),
            v@ == triple_seq(*set).take(i as int),
        decreases n - i,
    {
        match triple_set_get(set, i) {
            Some(rec) => {
                v.push(rec);
                assert(triple_seq(*set).take(i + 1) =~= triple_seq(*set).take(i as int).push(rec));
            },
            None => {},
        }
        i = i + 1;
    }
    assert(triple_seq(*set).take(n as int) =~= triple_seq(*set));
    v
}

} // verus!
