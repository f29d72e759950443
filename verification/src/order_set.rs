//! The boundary to `ordermap`: insertion-ordered hash sets of plain integers.
//!
//! Two instances of [`OrderSet`] are used by this crate: sets of `usize`
//! (the keys of an ordered map, with their positions) and sets of triples of
//! `usize` (link records). What such a set holds is named by [`index_seq`]
//! and [`triple_seq`]: its items in iteration order. The functions below call
//! one method of `OrderSet` each and state what that method does to the
//! sequence. Verus takes these statements on trust; everything else in the
//! crate is proved from them.

use vstd::prelude::*;
use ordermap::OrderSet;

verus! {

#[verifier::external_type_specification]
#[verifier::external_body]
#[verifier::reject_recursive_types(T)]
#[verifier::reject_recursive_types(S)]
pub struct ExOrderSet<T, S>(OrderSet<T, S>);

/// The items of a set of integers, in iteration order.
pub uninterp spec fn index_seq(s: OrderSet<usize>) -> Seq<usize>;

/// The items of a set of triples, in iteration order.
pub uninterp spec fn triple_seq(s: OrderSet<(usize, usize, usize)>) -> Seq<(usize, usize, usize)>;

/// What a swap-removal at position `i` leaves: the last item takes the place
/// of the removed one, and the sequence gets shorter by one.
pub open spec fn swap_removed<T>(s: Seq<T>, i: int) -> Seq<T>
    recommends
        0 <= i < s.len(),
{
    s.update(i, s.last()).drop_last()
}

/// `OrderSet::new`: a set without items.
#[verifier::external_body]
pub(crate) fn index_set_new() -> (s: OrderSet<usize>)
    ensures
        index_seq(s) == Seq::<usize>::empty(),
{
    OrderSet::new()
}

/// `OrderSet::len`: the number of items.
#[verifier::external_body]
pub(crate) fn index_set_len(s: &OrderSet<usize>) -> (n: usize)
    ensures
        n == index_seq(*s).len(),
{
    s.len()
}

/// `OrderSet::insert`: an item that is already present leaves the set as it
/// is and gives `false`; a new item is appended and gives `true`.
#[verifier::external_body]
pub(crate) fn index_set_insert(s: &mut OrderSet<usize>, v: usize) -> (added: bool)
    ensures
        added == !index_seq(*old(s)).contains(v),
        index_seq(*final(s)) == if added {
            index_seq(*old(s)).push(v)
        } else {
            index_seq(*old(s))
        },
{
    s.insert(v)
}

/// `OrderSet::get_index_of`: the position of an item, if it is present.
#[verifier::external_body]
pub(crate) fn index_set_position(s: &OrderSet<usize>, v: usize) -> (pos: Option<usize>)
    ensures
        match pos {
            Some(i) => i < index_seq(*s).len() && index_seq(*s)[i as int] == v,
            None => !index_seq(*s).contains(v),
        },
{
    s.get_index_of(&v)
}

/// `OrderSet::get_index`: the item at a position, if the position is in range.
#[verifier::external_body]
pub(crate) fn index_set_get(s: &OrderSet<usize>, i: usize) -> (item: Option<usize>)
    ensures
        item == if i < index_seq(*s).len() {
            Some(index_seq(*s)[i as int])
        } else {
            None::<usize>
        },
{
    s.get_index(i).copied()
}

/// `OrderSet::swap_remove_full`: removes an item by moving the last item into
/// its place, and gives the position it had. An absent item changes nothing.
#[verifier::external_body]
pub(crate) fn index_set_swap_remove(s: &mut OrderSet<usize>, v: usize) -> (pos: Option<usize>)
    ensures
        match pos {
            Some(i) => {
                &&& i < index_seq(*old(s)).len()
                &&& index_seq(*old(s))[i as int] == v
                &&& index_seq(*final(s)) == swap_removed(index_seq(*old(s)), i as int)
            },
            None => {
                &&& !index_seq(*old(s)).contains(v)
                &&& index_seq(*final(s)) == index_seq(*old(s))
            },
        },
{
    s.swap_remove_full(&v).map(|found| found.0)
}

/// `OrderSet::remove_full`: removes an item, moving the items behind it up
/// by one place, and gives the position it had. An absent item changes
/// nothing.
#[verifier::external_body]
pub(crate) fn index_set_remove(s: &mut OrderSet<usize>, v: usize) -> (pos: Option<usize>)
    ensures
        match pos {
            Some(i) => {
                &&& i < index_seq(*old(s)).len()
                &&& index_seq(*old(s))[i as int] == v
                &&& index_seq(*final(s)) == index_seq(*old(s)).remove(i as int)
            },
            None => {
                &&& !index_seq(*old(s)).contains(v)
                &&& index_seq(*final(s)) == index_seq(*old(s))
            },
        },
{
    s.remove_full(&v).map(|found| found.0)
}

/// `OrderSet::new`: a set without items.
#[verifier::external_body]
pub(crate) fn triple_set_new() -> (s: OrderSet<(usize, usize, usize)>)
    ensures
        triple_seq(s) == Seq::<(usize, usize, usize)>::empty(),
{
    OrderSet::new()
}

/// `OrderSet::len`: the number of items.
#[verifier::external_body]
pub(crate) fn triple_set_len(s: &OrderSet<(usize, usize, usize)>) -> (n: usize)
    ensures
        n == triple_seq(*s).len(),
{
    s.len()
}

/// `OrderSet::contains`: whether an item is present.
#[verifier::external_body]
pub(crate) fn triple_set_contains(s: &OrderSet<(usize, usize, usize)>, v: (usize, usize, usize)) -> (found: bool)
    ensures
        found == triple_seq(*s).contains(v),
{
    s.contains(&v)
}

/// `OrderSet::insert`: an item that is already present leaves the set as it
/// is and gives `false`; a new item is appended and gives `true`.
#[verifier::external_body]
pub(crate) fn triple_set_insert(s: &mut OrderSet<(usize, usize, usize)>, v: (usize, usize, usize)) -> (added: bool)
    ensures
        added == !triple_seq(*old(s)).contains(v),
        triple_seq(*final(s)) == if added {
            triple_seq(*old(s)).push(v)
        } else {
            triple_seq(*old(s))
        },
{
    s.insert(v)
}

/// `OrderSet::get_index`: the item at a position, if the position is in range.
#[verifier::external_body]
pub(crate) fn triple_set_get(s: &OrderSet<(usize, usize, usize)>, i: usize) -> (item: Option<(usize, usize, usize)>)
    ensures
        item == if i < triple_seq(*s).len() {
            Some(triple_seq(*s)[i as int])
        } else {
            None::<(usize, usize, usize)>
        },
{
    s.get_index(i).copied()
}

/// `OrderSet::swap_remove_full`: removes an item by moving the last item into
/// its place, and gives the position it had. An absent item changes nothing.
#[verifier::external_body]
pub(crate) fn triple_set_swap_remove(s: &mut OrderSet<(usize, usize, usize)>, v: (usize, usize, usize)) -> (pos: Option<usize>)
    ensures
        match pos {
            Some(i) => {
                &&& i < triple_seq(*old(s)).len()
                &&& triple_seq(*old(s))[i as int] == v
                &&& triple_seq(*final(s)) == swap_removed(triple_seq(*old(s)), i as int)
            },
            None => {
                &&& !triple_seq(*old(s)).contains(v)
                &&& triple_seq(*final(s)) == triple_seq(*old(s))
            },
        },
{
    s.swap_remove_full(&v).map(|found| found.0)
}

/// What a list holds after an item was appended: what it held, and the
/// item.
pub proof fn lemma_push_to_set<T>(s: Seq<T>, v: T)
    ensures
        s.push(v).to_set() == s.to_set().insert(v),
{
    let t = s.push(v);
    assert forall|y: T| t.to_set().contains(y) <==> s.to_set().insert(v).contains(y) by {
        if t.contains(y) {
            let j = choose|j: int| 0 <= j < t.len() && t[j] == y;
            if j < s.len() {
                assert(s[j] == y);
            }
        }
        if s.contains(y) {
            let j = choose|j: int| 0 <= j < s.len() && s[j] == y;
            assert(t[j] == y);
        }
        if y == v {
            assert(t[s.len() as int] == v);
        }
    }
    assert(t.to_set() =~= s.to_set().insert(v));
}

/// Appending an item that is not yet there keeps a sequence free of repeats.
pub proof fn lemma_push_no_duplicates<T>(s: Seq<T>, v: T)
    requires
        s.no_duplicates(),
        !s.contains(v),
    ensures
        s.push(v).no_duplicates(),
        s.push(v).to_set() == s.to_set().insert(v),
{
    let t = s.push(v);
    assert forall|i: int, j: int| 0 <= i < t.len() && 0 <= j < t.len() && i != j implies t[i] != t[j] by {
        if i < s.len() && j < s.len() {
        } else if i < s.len() {
            assert(s.contains(s[i]));
        } else {
            assert(s.contains(s[j]));
        }
    }
    assert forall|x: T| t.to_set().contains(x) <==> s.to_set().insert(v).contains(x) by {
        if t.to_set().contains(x) {
            let i = choose|i: int| 0 <= i < t.len() && t[i] == x;
            if i < s.len() {
                assert(s.contains(x));
            }
        }
        if s.to_set().insert(v).contains(x) {
            if x == v {
                assert(t[s.len() as int] == v);
            } else {
                let i = choose|i: int| 0 <= i < s.len() && s[i] == x;
                assert(t[i] == x);
            }
        }
    }
    assert(t.to_set() =~= s.to_set().insert(v));
}

/// A swap-removal keeps a sequence free of repeats and takes exactly the
/// removed item out of its set of items.
pub proof fn lemma_swap_removed<T>(s: Seq<T>, i: int)
    requires
        s.no_duplicates(),
        0 <= i < s.len(),
    ensures
        swap_removed(s, i).no_duplicates(),
        swap_removed(s, i).len() == s.len() - 1,
        swap_removed(s, i).to_set() == s.to_set().remove(s[i]),
        forall|j: int| 0 <= j < s.len() - 1 && j != i ==> swap_removed(s, i)[j] == s[j],
        i < s.len() - 1 ==> swap_removed(s, i)[i] == s.last(),
{
    let t = swap_removed(s, i);
    let n = s.len() as int;
    assert forall|a: int, b: int| 0 <= a < t.len() && 0 <= b < t.len() && a != b implies t[a] != t[b] by {
        let sa = if a == i { n - 1 } else { a };
        let sb = if b == i { n - 1 } else { b };
        assert(t[a] == s[sa]);
        assert(t[b] == s[sb]);
    }
    assert forall|x: T| t.to_set().contains(x) <==> s.to_set().remove(s[i]).contains(x) by {
        if t.to_set().contains(x) {
            let a = choose|a: int| 0 <= a < t.len() && t[a] == x;
            let sa = if a == i { n - 1 } else { a };
            assert(t[a] == s[sa]);
            assert(s.contains(x));
        }
        if s.to_set().remove(s[i]).contains(x) {
            let a = choose|a: int| 0 <= a < s.len() && s[a] == x;
            assert(a != i);
            if a == n - 1 {
                assert(t[i] == x);
            } else {
                assert(t[a] == x);
            }
        }
    }
    assert(t.to_set() =~= s.to_set().remove(s[i]));
}

} // verus!

verus! {

/// In a sequence free of repeats, the first `i + 1` items are the first `i`
/// items and one more.
pub proof fn lemma_take_step<T>(s: Seq<T>, i: int)
    requires
        s.no_duplicates(),
        0 <= i < s.len(),
    ensures
        s.take(i + 1).to_set() == s.take(i).to_set().insert(s[i]),
        !s.take(i).contains(s[i]),
{
    assert(s.take(i + 1) =~= s.take(i).push(s[i]));
    if s.take(i).contains(s[i]) {
        let j = choose|j: int| 0 <= j < i && s.take(i)[j] == s[i];
        assert(s[j] == s[i]);
    }
    assert(s.take(i).no_duplicates());
    lemma_push_no_duplicates(s.take(i), s[i]);
}

/// In a sequence free of repeats, the items from `i + 1` on are the items
/// from `i` on without the item at `i`.
pub proof fn lemma_skip_step<T>(s: Seq<T>, i: int)
    requires
        s.no_duplicates(),
        0 <= i < s.len(),
    ensures
        s.skip(i + 1).to_set() == s.skip(i).to_set().remove(s[i]),
        s.skip(i).contains(s[i]),
{
    let a = s.skip(i);
    let b = s.skip(i + 1);
    assert(a[0] == s[i]);
    assert forall|x: T| b.to_set().contains(x) <==> a.to_set().remove(s[i]).contains(x) by {
        if b.to_set().contains(x) {
            let j = choose|j: int| 0 <= j < b.len() && b[j] == x;
            assert(a[j + 1] == x);
            assert(s[i + 1 + j] == x);
        }
        if a.to_set().remove(s[i]).contains(x) {
            let j = choose|j: int| 0 <= j < a.len() && a[j] == x;
            assert(j != 0);
            assert(b[j - 1] == x);
        }
    }
    assert(b.to_set() =~= a.to_set().remove(s[i]));
}

} // verus!
