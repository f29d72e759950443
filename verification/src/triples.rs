//! The order in which link changes are followed up.
//!
//! A link change is a triple of numbers: source, target and field. Changes
//! are followed up in the ascending order of these triples, so that what a
//! commit does depends on which links changed and not on when each change
//! was noted.

use vstd::prelude::*;

verus! {

/// Whether link change `a` comes before link change `b`: by source, then
/// by target, then by field.
pub open spec fn triple_before(a: (usize, usize, usize), b: (usize, usize, usize)) -> bool {
    a.0 < b.0 || (a.0 == b.0 && (a.1 < b.1 || (a.1 == b.1 && a.2 < b.2)))
}

/// Whether the link changes stand in ascending order. None stands twice
/// then.
pub open spec fn ordered(s: Seq<(usize, usize, usize)>) -> bool {
    forall|i: int, j: int| 0 <= i < j < s.len() ==> triple_before(#[trigger] s[i], #[trigger] s[j])
}

/// The link changes of a finite set in ascending order.
pub open spec fn in_order(set: Set<(usize, usize, usize)>) -> Seq<(usize, usize, usize)> {
    choose|s: Seq<(usize, usize, usize)>| ordered(s) && s.to_set() == set
}

/// Two lists in ascending order that hold the same link changes are one
/// list.
pub proof fn lemma_ordered_unique(a: Seq<(usize, usize, usize)>, b: Seq<(usize, usize, usize)>)
    requires
        ordered(a),
        ordered(b),
        a.to_set() == b.to_set(),
    ensures
        a == b,
    decreases a.len(),
{
    if a.len() == 0 {
        if b.len() > 0 {
            assert(b.to_set().contains(b[0]));
            assert(a.to_set().contains(b[0]));
        }
        assert(a =~= b);
    } else {
        assert(a.to_set().contains(a[0]));
        assert(b.contains(a[0]));
        let ma = a.last();
        let mb = b.last();
        assert(a.to_set().contains(ma));
        assert(b.to_set().contains(mb));
        let j = choose|j: int| 0 <= j < b.len() && b[j] == ma;
        let i = choose|i: int| 0 <= i < a.len() && a[i] == mb;
        assert(ma == mb) by {
            if j < b.len() - 1 && i < a.len() - 1 {
                assert(triple_before(b[j], b[b.len() - 1]));
                assert(triple_before(a[i], a[a.len() - 1]));
            }
        }
        let a0 = a.drop_last();
        let b0 = b.drop_last();
        assert forall|x: (usize, usize, usize)| a0.to_set().contains(x) <==> b0.to_set().contains(
            x,
        ) by {
            if a0.contains(x) {
                let k = choose|k: int| 0 <= k < a0.len() && a0[k] == x;
                assert(a[k] == x);
                assert(triple_before(a[k], a[a.len() - 1]));
                assert(a.to_set().contains(x));
                let q = choose|q: int| 0 <= q < b.len() && b[q] == x;
                assert(b0[q] == x);
            }
            if b0.contains(x) {
                let k = choose|k: int| 0 <= k < b0.len() && b0[k] == x;
                assert(b[k] == x);
                assert(triple_before(b[k], b[b.len() - 1]));
                assert(b.to_set().contains(x));
                let q = choose|q: int| 0 <= q < a.len() && a[q] == x;
                assert(a0[q] == x);
            }
        }
        assert(a0.to_set() =~= b0.to_set());
        assert(ordered(a0)) by {
            assert forall|p: int, q: int| 0 <= p < q < a0.len() implies triple_before(
                #[trigger] a0[p],
                #[trigger] a0[q],
            ) by {
                assert(a0[p] == a[p] && a0[q] == a[q]);
            }
        }
        assert(ordered(b0)) by {
            assert forall|p: int, q: int| 0 <= p < q < b0.len() implies triple_before(
                #[trigger] b0[p],
                #[trigger] b0[q],
            ) by {
                assert(b0[p] == b[p] && b0[q] == b[q]);
            }
        }
        lemma_ordered_unique(a0, b0);
        assert(a =~= a0.push(ma));
        assert(b =~= b0.push(mb));
    }
}

/// A list in ascending order is the ascending order of what it holds.
pub proof fn lemma_in_order(s: Seq<(usize, usize, usize)>)
    requires
        ordered(s),
    ensures
        in_order(s.to_set()) == s,
        s.no_duplicates(),
{
    let q = in_order(s.to_set());
    assert(ordered(q) && q.to_set() == s.to_set());
    lemma_ordered_unique(q, s);
}

/// `sort_unstable` of slices, on a `Vec` of triples of numbers: the items
/// are put in ascending order, where triples are ordered by their first
/// parts, then by their second parts, then by their third parts. The list
/// holds the same items as before, each as often as before.
#[verifier::external_body]
pub(crate) fn sort_triples(v: &mut Vec<(usize, usize, usize)>)
    ensures
        final(v)@.to_multiset() == old(v)@.to_multiset(),
        forall|i: int, j: int|
            0 <= i < j < final(v)@.len() ==> #[trigger] final(v)@[i] == #[trigger] final(v)@[j]
                || triple_before(final(v)@[i], final(v)@[j]),
{
    v.sort_unstable();
}

/// The link changes of a list that holds none twice, in ascending order.
pub fn sorted(list: Vec<(usize, usize, usize)>) -> (v: Vec<(usize, usize, usize)>)
    requires
        list@.no_duplicates(),
    ensures
        ordered(v@),
        v@.no_duplicates(),
        v@.to_set() == list@.to_set(),
        v@ == in_order(list@.to_set()),
{
    let mut v = list;
    sort_triples(&mut v);
    proof {
        list@.to_multiset_ensures();
        v@.to_multiset_ensures();
        list@.lemma_multiset_has_no_duplicates();
        v@.lemma_multiset_has_no_duplicates_conv();
        assert(v@.to_set() =~= list@.to_set()) by {
            assert forall|x: (usize, usize, usize)| v@.to_set().contains(x)
                <==> list@.to_set().contains(x) by {
                assert(v@.contains(x) <==> v@.to_multiset().count(x) > 0);
                assert(list@.contains(x) <==> list@.to_multiset().count(x) > 0);
            }
        }
        lemma_in_order(v@);
    }
    v
}

} // verus!
