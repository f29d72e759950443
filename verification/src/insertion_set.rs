//! A set of numbers that keeps the order in which its members came.

use vstd::prelude::*;
use ordermap::OrderSet;
use crate::order_set::{
    index_seq, index_set_get, index_set_insert, index_set_len, index_set_new, index_set_position,
    index_set_remove, lemma_push_no_duplicates, lemma_push_to_set,
};

verus! {

/// A set of numbers that keeps the order in which its members came: a new
/// member stands last, and when a member leaves, those behind it move up.
#[derive(Debug)]
pub struct InsertionSet {
    items: OrderSet<usize>,
}

impl View for InsertionSet {
    type V = Set<usize>;

    closed spec fn view(&self) -> Set<usize> {
        index_seq(self.items).to_set()
    }
}

impl InsertionSet {
    /// The members in their order.
    pub closed spec fn order(&self) -> Seq<usize> {
        index_seq(self.items)
    }

    /// A set without members.
    pub fn new() -> (r: Self)
        ensures
            r@ == Set::<usize>::empty(),
            r.order() == Seq::<usize>::empty(),
    {
        let r = InsertionSet { items: index_set_new() };
        assert(r@ =~= Set::<usize>::empty());
        r
    }

    /// Whether `x` is a member.
    pub fn contains(&self, x: &usize) -> (r: bool)
        ensures
            r == self@.contains(*x),
    {
        match index_set_position(&self.items, *x) {
            Some(i) => {
                assert(index_seq(self.items).contains(*x));
                true
            },
            None => false,
        }
    }

    /// Makes `x` a member, behind all others, unless it is one. Says
    /// whether it was new.
    pub fn insert(&mut self, x: usize) -> (r: bool)
        ensures
            r == !old(self)@.contains(x),
            final(self)@ == old(self)@.insert(x),
            final(self).order() == if r {
                old(self).order().push(x)
            } else {
                old(self).order()
            },
    {
        let ghost before = index_seq(self.items);
        let added = index_set_insert(&mut self.items, x);
        proof {
            if added {
                lemma_push_to_set(before, x);
            } else {
                assert(before.to_set() =~= before.to_set().insert(x));
            }
        }
        added
    }

    /// Takes `x` out, where it is a member; the members behind it move up.
    /// Says whether it was a member.
    pub fn remove(&mut self, x: &usize) -> (r: bool)
        ensures
            r == old(self)@.contains(*x),
            final(self)@ == old(self)@.remove(*x),
    {
        let ghost before = index_seq(self.items);
        let mut found = false;
        let mut left = index_set_len(&self.items);
        while left > 0
            invariant
                before == index_seq(old(self).items),
                left == index_seq(self.items).len(),
                found || index_seq(self.items) == before,
                forall|y: usize|
                    y != *x ==> index_seq(self.items).contains(y) == before.contains(y),
                found ==> before.contains(*x),
            decreases left,
        {
            let ghost now = index_seq(self.items);
            match index_set_remove(&mut self.items, *x) {
                Some(i) => {
                    proof {
                        let after = now.remove(i as int);
                        assert(now.contains(*x));
                        assert forall|y: usize| y != *x implies after.contains(y) == now.contains(
                            y,
                        ) by {
                            if after.contains(y) {
                                let a = choose|a: int| 0 <= a < after.len() && after[a] == y;
                                let sa = if a < i { a } else { a + 1 };
                                assert(now[sa] == y);
                            }
                            if now.contains(y) {
                                let b = choose|b: int| 0 <= b < now.len() && now[b] == y;
                                let tb = if b < i { b } else { b - 1 };
                                assert(after[tb] == y);
                            }
                        }
                    }
                    found = true;
                    left = left - 1;
                },
                None => {
                    proof {
                        let last = index_seq(self.items);
                        assert forall|y: usize| last.to_set().contains(y) <==> before.to_set().remove(
                            *x,
                        ).contains(y) by {
                            if y != *x {
                                assert(last.contains(y) == before.contains(y));
                            }
                        }
                        assert(last.to_set() =~= before.to_set().remove(*x));
                    }
                    return found;
                },
            }
        }
        proof {
            let last = index_seq(self.items);
            assert(!last.contains(*x));
            assert forall|y: usize| last.to_set().contains(y) <==> before.to_set().remove(
                *x,
            ).contains(y) by {
                if y != *x {
                    assert(last.contains(y) == before.contains(y));
                }
            }
            assert(last.to_set() =~= before.to_set().remove(*x));
            if !found {
                assert(before.len() == 0);
            }
        }
        found
    }

    /// The members in their order, each once.
    pub fn items(&self) -> (v: Vec<usize>)
        ensures
            v@.to_set() == self@,
            v@.no_duplicates(),
            self.order().no_duplicates() ==> v@ == self.order(),
    {
        let n = index_set_len(&self.items);
        let mut seen: OrderSet<usize> = index_set_new();
        let mut v: Vec<usize> = Vec::new();
        let mut i: usize = 0;
        while i < n
            invariant
                i <= n,
                n == index_seq(self.items).len(),
                v@ == index_seq(seen),
                v@.no_duplicates(),
                v@.to_set() == index_seq(self.items).take(i as int).to_set(),
                index_seq(self.items).no_duplicates() ==> v@ == index_seq(self.items).take(i as int),
            decreases n - i,
        {
            let ghost all = index_seq(self.items);
            match index_set_get(&self.items, i) {
                Some(x) => {
                    let ghost before = v@;
                    let fresh = index_set_insert(&mut seen, x);
                    proof {
                        assert(all.take(i + 1) =~= all.take(i as int).push(x));
                        lemma_push_to_set(all.take(i as int), x);
                    }
                    if fresh {
                        v.push(x);
                        proof {
                            lemma_push_no_duplicates(before, x);
                            lemma_push_to_set(before, x);
                        }
                    } else {
                        proof {
                            assert(before.to_set().contains(x));
                            assert(before.to_set() =~= before.to_set().insert(x));
                            if all.no_duplicates() {
                                assert(all.take(i as int).contains(x));
                                let j = choose|j: int|
                                    0 <= j < i && all.take(i as int)[j] == x;
                                assert(all[j] == all[i as int]);
                            }
                        }
                    }
                },
                None => {},
            }
            i = i + 1;
        }
        proof {
            assert(index_seq(self.items).take(n as int) =~= index_seq(self.items));
        }
        v
    }
}

} // verus!
