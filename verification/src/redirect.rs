//! Resolution of chained redirections.
//!
//! A commit may redirect `a` to `b` and `b` to `c`. Such requests are not
//! applied one after the other: each is first resolved to its final target,
//! so that the references to `a` go to `c` at once, whatever the order of the
//! requests. A request that would make an index its own target is a loop and
//! makes the whole list invalid.

use vstd::prelude::*;
use crate::index::NodeIndex;
use crate::ord_map::OrdMap;

verus! {

/// Whether `x` has no parent in `fa`.
pub open spec fn is_root(fa: Map<usize, usize>, x: usize) -> bool {
    !fa.contains_key(x) || fa[x] == x
}

/// The index reached from `x` by following parents in `fa`, for at most
/// `fuel` steps.
pub open spec fn root(fa: Map<usize, usize>, x: usize, fuel: nat) -> usize
    decreases fuel,
{
    if fuel == 0 || is_root(fa, x) {
        x
    } else {
        root(fa, fa[x], (fuel - 1) as nat)
    }
}

/// The parents after the first `k` requests were taken in, or nothing where
/// one of them closed a loop. Each request `(old, new)` makes the current
/// root of `new` the parent of `old`.
pub open spec fn parents(pairs: Seq<(usize, usize)>, k: nat) -> Option<Map<usize, usize>>
    decreases k,
{
    if k == 0 {
        Some(Map::empty())
    } else {
        match parents(pairs, (k - 1) as nat) {
            None => None,
            Some(fa) => {
                let old = pairs[k - 1].0;
                let r = root(fa, pairs[k - 1].1, pairs.len());
                if r == old {
                    None
                } else {
                    Some(fa.insert(old, r))
                }
            },
        }
    }
}

/// The final target of each request, or nothing where the requests hold a
/// loop. The target of `(old, new)` is the root of `new` once all requests
/// were taken in.
pub open spec fn resolved(pairs: Seq<(usize, usize)>) -> Option<Seq<usize>> {
    match parents(pairs, pairs.len()) {
        None => None,
        Some(fa) => Some(Seq::new(pairs.len(), |i: int| root(fa, pairs[i].1, pairs.len()))),
    }
}

/// The requests as pairs of numbers.
pub open spec fn plain(pairs: Seq<(NodeIndex, NodeIndex)>) -> Seq<(usize, usize)> {
    Seq::new(pairs.len(), |i: int| (pairs[i].0.0, pairs[i].1.0))
}

/// Computes [`root`].
fn find_root(fa: &OrdMap<usize>, x: usize, fuel: usize) -> (r: usize)
    requires
        fa.wf(),
    ensures
        r == root(fa.map(), x, fuel as nat),
{
    let mut cur = x;
    let mut left = fuel;
    while left > 0
        invariant
            fa.wf(),
            root(fa.map(), x, fuel as nat) == root(fa.map(), cur, left as nat),
        decreases left,
    {
        match fa.get(cur) {
            Some(p) => {
                if *p == cur {
                    return cur;
                }
                cur = *p;
            },
            None => {
                return cur;
            },
        }
        left = left - 1;
    }
    cur
}

/// Resolves a list of redirection requests `(old, new)`: gives the final
/// target of each request, in the order of the requests, or nothing where a
/// request closes a loop.
pub fn resolve_redirects(pairs: &Vec<(NodeIndex, NodeIndex)>) -> (r: Option<Vec<NodeIndex>>)
    ensures
        match r {
            Some(targets) => {
                &&& resolved(plain(pairs@)) is Some
                &&& targets@.len() == pairs@.len()
                &&& forall|i: int|
                    0 <= i < targets@.len() ==> targets@[i].0 == resolved(plain(pairs@))->0[i]
            },
            None => resolved(plain(pairs@)) is None,
        },
{
    let ghost reqs = plain(pairs@);
    let n = pairs.len();
    let mut fa: OrdMap<usize> = OrdMap::new();
    let mut k: usize = 0;
    while k < n
        invariant
            k <= n,
            n == pairs@.len(),
            reqs == plain(pairs@),
            fa.wf(),
            parents(reqs, k as nat) == Some(fa.map()),
        decreases n - k,
    {
        let (old, new) = pairs[k];
        let r = find_root(&fa, new.0, n);
        assert(reqs[k as int] == (old.0, new.0));
        if r == old.0 {
            proof {
                assert(parents(reqs, (k + 1) as nat) is None);
                lemma_loop_stays(reqs, (k + 1) as nat, n as nat);
            }
            return None;
        }
        fa.insert(old.0, r);
        k = k + 1;
    }
    let mut targets: Vec<NodeIndex> = Vec::new();
    let mut i: usize = 0;
    while i < n
        invariant
            i <= n,
            n == pairs@.len(),
            reqs == plain(pairs@),
            fa.wf(),
            parents(reqs, n as nat) == Some(fa.map()),
            targets@.len() == i,
            forall|j: int| 0 <= j < i ==> targets@[j].0 == root(fa.map(), reqs[j].1, n as nat),
        decreases n - i,
    {
        let (old, new) = pairs[i];
        assert(reqs[i as int] == (old.0, new.0));
        let r = find_root(&fa, new.0, n);
        targets.push(NodeIndex(r));
        i = i + 1;
    }
    Some(targets)
}

/// Once a request closed a loop, taking in more requests does not mend it.
pub proof fn lemma_loop_stays(pairs: Seq<(usize, usize)>, k: nat, n: nat)
    requires
        parents(pairs, k) is None,
        k <= n,
    ensures
        parents(pairs, n) is None,
    decreases n - k,
{
    if k < n {
        lemma_loop_stays(pairs, k + 1, n);
    }
}

/// No index is redirected by two of the requests.
pub open spec fn distinct_olds(pairs: Seq<(usize, usize)>) -> bool {
    forall|i: int, j: int|
        0 <= i < j < pairs.len() ==> (#[trigger] pairs[i]).0 != (#[trigger] pairs[j]).0
}

/// Whether one of the first `k` requests redirects `x`.
pub open spec fn is_old(pairs: Seq<(usize, usize)>, k: int, x: usize) -> bool {
    exists|i: int| 0 <= i < k && i < pairs.len() && (#[trigger] pairs[i]).0 == x
}

/// Whether one of the first `k` requests redirects `a` to `b`.
pub open spec fn requested(pairs: Seq<(usize, usize)>, k: int, a: usize, b: usize) -> bool {
    exists|i: int| 0 <= i < k && i < pairs.len() && #[trigger] pairs[i] == (a, b)
}

/// Whether `p` is a path along the first `k` requests: each index of `p` is
/// redirected to the next one.
pub open spec fn is_path(pairs: Seq<(usize, usize)>, k: int, p: Seq<usize>) -> bool {
    &&& p.len() >= 1
    &&& forall|j: int| 0 <= j < p.len() - 1 ==> #[trigger] requested(pairs, k, p[j], p[j + 1])
}

/// Whether the first `k` requests lead from `x` to `y`, in any number of
/// steps.
pub open spec fn reaches(pairs: Seq<(usize, usize)>, k: int, x: usize, y: usize) -> bool {
    exists|p: Seq<usize>| #[trigger] is_path(pairs, k, p) && p[0] == x && p.last() == y
}

/// Whether the first `k` requests hold a loop: a path of at least one step
/// that ends where it began.
pub open spec fn cyclic(pairs: Seq<(usize, usize)>, k: int) -> bool {
    exists|p: Seq<usize>| #[trigger] is_path(pairs, k, p) && p.len() >= 2 && p[0] == p.last()
}

/// Whether the parent of the index that request `i` redirects is, if it is
/// redirected itself, redirected by a later request.
pub open spec fn parent_is_later(pairs: Seq<(usize, usize)>, k: int, fa: Map<usize, usize>, i: int) -> bool {
    forall|j: int| 0 <= j < k && (#[trigger] pairs[j]).0 == fa[pairs[i].0] ==> i < j
}

/// What holds of the parents after the first `k` requests were taken in:
/// exactly the redirected indices have a parent; a parent that is itself
/// redirected was redirected by a later request; and the requests lead from
/// each redirected index to its parent.
pub open spec fn linked_up(pairs: Seq<(usize, usize)>, k: int, fa: Map<usize, usize>) -> bool {
    &&& forall|x: usize| #[trigger] fa.contains_key(x) <==> is_old(pairs, k, x)
    &&& forall|i: int| 0 <= i < k ==> #[trigger] parent_is_later(pairs, k, fa, i)
    &&& forall|i: int| 0 <= i < k ==> #[trigger] reaches(pairs, k, pairs[i].0, fa[pairs[i].0])
}

/// Two paths that meet end to end make one path.
pub proof fn lemma_join(pairs: Seq<(usize, usize)>, k: int, p: Seq<usize>, q: Seq<usize>)
    requires
        is_path(pairs, k, p),
        is_path(pairs, k, q),
        p.last() == q[0],
    ensures
        is_path(pairs, k, p + q.skip(1)),
        (p + q.skip(1))[0] == p[0],
        (p + q.skip(1)).last() == q.last(),
        (p + q.skip(1)).len() == p.len() + q.len() - 1,
{
    let r = p + q.skip(1);
    assert forall|j: int| 0 <= j < r.len() - 1 implies #[trigger] requested(
        pairs,
        k,
        r[j],
        r[j + 1],
    ) by {
        if j < p.len() - 1 {
            assert(r[j] == p[j] && r[j + 1] == p[j + 1]);
            assert(requested(pairs, k, p[j], p[j + 1]));
        } else {
            let m = j - (p.len() - 1);
            assert(r[j] == q[m]) by {
                if m == 0 {
                    assert(r[j] == p[p.len() - 1]);
                } else {
                    assert(r[j] == q.skip(1)[m - 1]);
                }
            }
            assert(r[j + 1] == q.skip(1)[m]);
            assert(r[j + 1] == q[m + 1]);
            assert(requested(pairs, k, q[m], q[m + 1]));
        }
    }
    if q.len() == 1 {
        assert(r =~= p);
    } else {
        assert(r.last() == q.skip(1).last());
    }
}

/// A path along the first `k` requests is a path along more of them.
pub proof fn lemma_path_grows(pairs: Seq<(usize, usize)>, k: int, n: int, p: Seq<usize>)
    requires
        is_path(pairs, k, p),
        k <= n,
    ensures
        is_path(pairs, n, p),
{
    assert forall|j: int| 0 <= j < p.len() - 1 implies #[trigger] requested(
        pairs,
        n,
        p[j],
        p[j + 1],
    ) by {
        assert(requested(pairs, k, p[j], p[j + 1]));
        let i = choose|i: int| 0 <= i < k && i < pairs.len() && #[trigger] pairs[i] == (p[j], p[j + 1]);
        assert(0 <= i < n && i < pairs.len() && pairs[i] == (p[j], p[j + 1]));
    }
}

/// Following parents for long enough ends at an index without a parent,
/// and the requests lead there. `t` is the number of the request that
/// redirects `x`, if there is one.
pub proof fn lemma_root(
    pairs: Seq<(usize, usize)>,
    k: int,
    fa: Map<usize, usize>,
    x: usize,
    fuel: nat,
    t: int,
)
    requires
        0 <= k <= pairs.len(),
        linked_up(pairs, k, fa),
        fa.contains_key(x) ==> 0 <= t < k && pairs[t].0 == x && fuel >= k - t,
    ensures
        !fa.contains_key(root(fa, x, fuel)),
        reaches(pairs, k, x, root(fa, x, fuel)),
    decreases fuel,
{
    if !fa.contains_key(x) {
        let p = seq![x];
        assert(is_path(pairs, k, p));
        assert(p[0] == x && p.last() == x);
    } else {
        let y = fa[x];
        assert(parent_is_later(pairs, k, fa, t));
        assert(y != x) by {
            if y == x {
                assert(pairs[t].0 == fa[pairs[t].0]);
            }
        }
        assert(reaches(pairs, k, pairs[t].0, fa[pairs[t].0]));
        let p = choose|p: Seq<usize>| #[trigger] is_path(pairs, k, p) && p[0] == x && p.last() == y;
        if fa.contains_key(y) {
            assert(is_old(pairs, k, y));
            let j = choose|j: int| 0 <= j < k && j < pairs.len() && (#[trigger] pairs[j]).0 == y;
            assert(pairs[j].0 == fa[pairs[t].0]);
            assert(t < j);
            lemma_root(pairs, k, fa, y, (fuel - 1) as nat, j);
        } else {
            lemma_root(pairs, k, fa, y, (fuel - 1) as nat, 0);
        }
        let r = root(fa, y, (fuel - 1) as nat);
        assert(root(fa, x, fuel) == r);
        let q = choose|q: Seq<usize>| #[trigger] is_path(pairs, k, q) && q[0] == y && q.last() == r;
        lemma_join(pairs, k, p, q);
        assert(is_path(pairs, k, p + q.skip(1)));
    }
}

/// Taking in a request that closes no loop keeps the parents linked up.
pub proof fn lemma_step(pairs: Seq<(usize, usize)>, k0: int, fa: Map<usize, usize>)
    requires
        distinct_olds(pairs),
        0 <= k0 < pairs.len(),
        linked_up(pairs, k0, fa),
    ensures
        ({
            let o = pairs[k0].0;
            let r = root(fa, pairs[k0].1, pairs.len());
            if r == o {
                cyclic(pairs, k0 + 1)
            } else {
                linked_up(pairs, k0 + 1, fa.insert(o, r))
            }
        }),
{
    let k = k0 + 1;
    let o = pairs[k0].0;
    let n = pairs[k0].1;
    assert(!fa.contains_key(o)) by {
        if is_old(pairs, k0, o) {
            let i = choose|i: int| 0 <= i < k0 && i < pairs.len() && (#[trigger] pairs[i]).0 == o;
            assert(pairs[i].0 != pairs[k0].0);
        }
    }
    if fa.contains_key(n) {
        assert(is_old(pairs, k0, n));
        let j = choose|j: int| 0 <= j < k0 && j < pairs.len() && (#[trigger] pairs[j]).0 == n;
        lemma_root(pairs, k0, fa, n, pairs.len(), j);
    } else {
        lemma_root(pairs, k0, fa, n, pairs.len(), 0);
    }
    let r = root(fa, n, pairs.len());
    let q = choose|q: Seq<usize>| #[trigger] is_path(pairs, k0, q) && q[0] == n && q.last() == r;
    lemma_path_grows(pairs, k0, k, q);
    let step = seq![o, n];
    assert(is_path(pairs, k, step)) by {
        assert forall|j: int| 0 <= j < step.len() - 1 implies #[trigger] requested(
            pairs,
            k,
            step[j],
            step[j + 1],
        ) by {
            assert(pairs[k0] == (step[0], step[1]));
        }
    }
    lemma_join(pairs, k, step, q);
    let whole = step + q.skip(1);
    if r == o {
        assert(is_path(pairs, k, whole) && whole.len() >= 2 && whole[0] == whole.last());
    } else {
        let fb = fa.insert(o, r);
        assert forall|x: usize| #[trigger] fb.contains_key(x) <==> is_old(pairs, k, x) by {
            assert(fa.contains_key(x) <==> is_old(pairs, k0, x));
            if is_old(pairs, k0, x) {
                let i = choose|i: int| 0 <= i < k0 && i < pairs.len() && (#[trigger] pairs[i]).0 == x;
                assert(0 <= i < k && pairs[i].0 == x);
            }
            if x == o {
                assert(0 <= k0 < k && pairs[k0].0 == x);
            }
            if is_old(pairs, k, x) {
                let i = choose|i: int| 0 <= i < k && i < pairs.len() && (#[trigger] pairs[i]).0 == x;
                if i < k0 {
                    assert(is_old(pairs, k0, x));
                }
            }
        }
        assert forall|i: int| 0 <= i < k implies #[trigger] parent_is_later(pairs, k, fb, i) by {
            assert forall|j: int| 0 <= j < k && (#[trigger] pairs[j]).0 == fb[pairs[i].0] implies i
                < j by {
                if i < k0 {
                    assert(pairs[i].0 != pairs[k0].0);
                    assert(fb[pairs[i].0] == fa[pairs[i].0]);
                    assert(parent_is_later(pairs, k0, fa, i));
                } else {
                    assert(fb[pairs[i].0] == r);
                    if j < k0 {
                        assert(is_old(pairs, k0, r));
                        assert(fa.contains_key(r));
                    }
                }
            }
        }
        assert forall|i: int| 0 <= i < k implies #[trigger] reaches(
            pairs,
            k,
            pairs[i].0,
            fb[pairs[i].0],
        ) by {
            if i < k0 {
                assert(pairs[i].0 != pairs[k0].0);
                assert(reaches(pairs, k0, pairs[i].0, fa[pairs[i].0]));
                let p = choose|p: Seq<usize>|
                    #[trigger] is_path(pairs, k0, p) && p[0] == pairs[i].0 && p.last()
                        == fa[pairs[i].0];
                lemma_path_grows(pairs, k0, k, p);
            } else {
                assert(is_path(pairs, k, whole) && whole[0] == o && whole.last() == r);
            }
        }
    }
}

/// While no request is refused, the parents are linked up as
/// [`linked_up`] says. A request is refused only where the requests hold a
/// loop.
pub proof fn lemma_parents(pairs: Seq<(usize, usize)>, k: nat)
    requires
        distinct_olds(pairs),
        k <= pairs.len(),
    ensures
        match parents(pairs, k) {
            Some(fa) => linked_up(pairs, k as int, fa),
            None => cyclic(pairs, k as int),
        },
    decreases k,
{
    if k == 0 {
        let fa = Map::<usize, usize>::empty();
        assert(linked_up(pairs, 0, fa));
    } else {
        lemma_parents(pairs, (k - 1) as nat);
        let k0 = (k - 1) as int;
        match parents(pairs, (k - 1) as nat) {
            None => {
                let p = choose|p: Seq<usize>|
                    #[trigger] is_path(pairs, k0, p) && p.len() >= 2 && p[0] == p.last();
                lemma_path_grows(pairs, k0, k as int, p);
            },
            Some(fa) => {
                lemma_step(pairs, k0, fa);
            },
        }
    }
}

/// What the resolution gives for requests that redirect no index twice:
/// the target of each request is reached from its new index along the
/// requests, and is itself not redirected.
pub proof fn lemma_resolved(pairs: Seq<(usize, usize)>, i: int)
    requires
        distinct_olds(pairs),
        resolved(pairs) is Some,
        0 <= i < pairs.len(),
    ensures
        reaches(pairs, pairs.len() as int, pairs[i].1, resolved(pairs)->0[i]),
        !is_old(pairs, pairs.len() as int, resolved(pairs)->0[i]),
{
    let n = pairs.len();
    lemma_parents(pairs, n);
    let fa = parents(pairs, n)->0;
    let x = pairs[i].1;
    if fa.contains_key(x) {
        assert(is_old(pairs, n as int, x));
        let j = choose|j: int| 0 <= j < n && j < pairs.len() && (#[trigger] pairs[j]).0 == x;
        lemma_root(pairs, n as int, fa, x, n, j);
    } else {
        lemma_root(pairs, n as int, fa, x, n, 0);
    }
    assert(!fa.contains_key(root(fa, x, n)));
}

/// A path that starts on a loop never leaves it: each of its indices is
/// redirected.
pub proof fn lemma_stays_on_loop(pairs: Seq<(usize, usize)>, c: Seq<usize>, q: Seq<usize>, j: int)
    requires
        distinct_olds(pairs),
        is_path(pairs, pairs.len() as int, c),
        c.len() >= 2,
        c[0] == c.last(),
        is_path(pairs, pairs.len() as int, q),
        q[0] == c[0],
        0 <= j < q.len(),
    ensures
        exists|m: int| 0 <= m < c.len() - 1 && c[m] == q[j],
        is_old(pairs, pairs.len() as int, q[j]),
    decreases j,
{
    let n = pairs.len() as int;
    if j == 0 {
        assert(0 <= 0 < c.len() - 1 && c[0] == q[0]);
    } else {
        lemma_stays_on_loop(pairs, c, q, j - 1);
        let m = choose|m: int| 0 <= m < c.len() - 1 && c[m] == q[j - 1];
        assert(requested(pairs, n, q[j - 1], q[j - 1 + 1]));
        let a = choose|a: int|
            0 <= a < n && a < pairs.len() && #[trigger] pairs[a] == (q[j - 1], q[j - 1 + 1]);
        assert(requested(pairs, n, c[m], c[m + 1]));
        let b = choose|b: int| 0 <= b < n && b < pairs.len() && #[trigger] pairs[b] == (c[m], c[m + 1]);
        assert(pairs[a].0 == pairs[b].0);
        assert(a == b) by {
            if a < b {
                assert(pairs[a].0 != pairs[b].0);
            }
            if b < a {
                assert(pairs[b].0 != pairs[a].0);
            }
        }
        assert(q[j] == c[m + 1]);
        if m + 1 == c.len() - 1 {
            assert(0 <= 0 < c.len() - 1 && c[0] == q[j]);
        } else {
            assert(0 <= m + 1 < c.len() - 1 && c[m + 1] == q[j]);
        }
    }
    let m = choose|m: int| 0 <= m < c.len() - 1 && c[m] == q[j];
    assert(requested(pairs, n, c[m], c[m + 1]));
    let b = choose|b: int| 0 <= b < n && b < pairs.len() && #[trigger] pairs[b] == (c[m], c[m + 1]);
    assert(pairs[b].0 == q[j]);
}

/// Requests that redirect no index twice and hold a loop are refused.
pub proof fn lemma_loops_are_refused(pairs: Seq<(usize, usize)>)
    requires
        distinct_olds(pairs),
        cyclic(pairs, pairs.len() as int),
    ensures
        resolved(pairs) is None,
{
    let n = pairs.len() as int;
    if resolved(pairs) is Some {
        lemma_parents(pairs, pairs.len());
        let fa = parents(pairs, pairs.len())->0;
        let c = choose|c: Seq<usize>| #[trigger] is_path(pairs, n, c) && c.len() >= 2 && c[0] == c.last();
        let x = c[0];
        assert(requested(pairs, n, c[0], c[0int + 1]));
        let i0 = choose|i: int| 0 <= i < n && i < pairs.len() && #[trigger] pairs[i] == (c[0], c[0int + 1]);
        assert(pairs[i0].0 == x);
        assert(is_old(pairs, n, x));
        assert(fa.contains_key(x));
        lemma_root(pairs, n, fa, x, pairs.len(), i0);
        let r = root(fa, x, pairs.len());
        let q = choose|q: Seq<usize>| #[trigger] is_path(pairs, n, q) && q[0] == x && q.last() == r;
        lemma_stays_on_loop(pairs, c, q, q.len() - 1);
        assert(is_old(pairs, n, r));
        assert(fa.contains_key(r));
        assert(false);
    }
}

/// Whether `pairs` are the steps of the chain `xs`, in any order: request
/// `i` redirects the index at place `order[i]` of the chain to the next
/// one, and every step of the chain is requested once.
pub open spec fn is_chain(xs: Seq<usize>, pairs: Seq<(usize, usize)>, order: Seq<int>) -> bool {
    &&& xs.len() >= 2
    &&& xs.no_duplicates()
    &&& order.len() == pairs.len()
    &&& order.no_duplicates()
    &&& forall|i: int|
        0 <= i < pairs.len() ==> 0 <= #[trigger] order[i] < xs.len() - 1 && pairs[i] == (
            xs[order[i]],
            xs[order[i] + 1],
        )
    &&& forall|j: int| 0 <= j < xs.len() - 1 ==> #[trigger] order.contains(j)
}

/// A path along the steps of a chain moves along the chain, one place per
/// step.
pub proof fn lemma_along_chain(
    xs: Seq<usize>,
    pairs: Seq<(usize, usize)>,
    order: Seq<int>,
    p: Seq<usize>,
    a: int,
    j: int,
)
    requires
        is_chain(xs, pairs, order),
        is_path(pairs, pairs.len() as int, p),
        0 <= a < xs.len(),
        p[0] == xs[a],
        0 <= j < p.len(),
    ensures
        a + j < xs.len(),
        p[j] == xs[a + j],
    decreases j,
{
    if j > 0 {
        lemma_along_chain(xs, pairs, order, p, a, j - 1);
        let n = pairs.len() as int;
        assert(requested(pairs, n, p[j - 1], p[j - 1 + 1]));
        let i = choose|i: int|
            0 <= i < n && i < pairs.len() && #[trigger] pairs[i] == (p[j - 1], p[j - 1 + 1]);
        assert(0 <= order[i] < xs.len() - 1);
        assert(xs[order[i]] == xs[a + j - 1]);
        assert(order[i] == a + j - 1);
    }
}

/// Redirecting along a chain, in one list of requests in any order, gives
/// every request the end of the chain as its target: redirecting `a` to `b`
/// and `b` to `c` is redirecting both to `c`.
pub proof fn lemma_chain(xs: Seq<usize>, pairs: Seq<(usize, usize)>, order: Seq<int>)
    requires
        is_chain(xs, pairs, order),
    ensures
        distinct_olds(pairs),
        resolved(pairs) == Some(Seq::new(pairs.len(), |i: int| xs.last())),
{
    let n = pairs.len() as int;
    assert(distinct_olds(pairs)) by {
        assert forall|i: int, j: int| 0 <= i < j < pairs.len() implies (#[trigger] pairs[i]).0 != (
        #[trigger] pairs[j]).0 by {
            if pairs[i].0 == pairs[j].0 {
                assert(0 <= order[i] < xs.len() - 1 && 0 <= order[j] < xs.len() - 1);
                assert(xs[order[i]] == xs[order[j]]);
                assert(order[i] == order[j]);
            }
        }
    }
    lemma_parents(pairs, pairs.len());
    if parents(pairs, pairs.len()) is None {
        let c = choose|c: Seq<usize>| #[trigger] is_path(pairs, n, c) && c.len() >= 2 && c[0] == c.last();
        assert(requested(pairs, n, c[0], c[0int + 1]));
        let i = choose|i: int| 0 <= i < n && i < pairs.len() && #[trigger] pairs[i] == (c[0], c[0int + 1]);
        assert(0 <= order[i] < xs.len() - 1);
        lemma_along_chain(xs, pairs, order, c, order[i], c.len() - 1);
        assert(false);
    }
    let ts = resolved(pairs)->0;
    assert forall|i: int| 0 <= i < pairs.len() implies ts[i] == xs.last() by {
        lemma_resolved(pairs, i);
        let t = ts[i];
        let p = choose|p: Seq<usize>|
            #[trigger] is_path(pairs, n, p) && p[0] == pairs[i].1 && p.last() == t;
        assert(0 <= order[i] < xs.len() - 1);
        lemma_along_chain(xs, pairs, order, p, order[i] + 1, p.len() - 1);
        let m = order[i] + 1 + (p.len() - 1);
        assert(t == xs[m]);
        if m < xs.len() - 1 {
            assert(order.contains(m));
            let w = choose|w: int| 0 <= w < order.len() && order[w] == m;
            assert(0 <= order[w] < xs.len() - 1);
            assert(pairs[w].0 == t);
            assert(is_old(pairs, n, t));
        }
    }
    assert(ts =~= Seq::new(pairs.len(), |i: int| xs.last()));
}

/// The requests that redirect each index that `pairs` redirect straight to
/// `end`.
pub open spec fn direct(pairs: Seq<(usize, usize)>, end: usize) -> Seq<(usize, usize)> {
    Seq::new(pairs.len(), |i: int| (pairs[i].0, end))
}

/// Redirecting along a chain is redirecting each of its indices straight to
/// its end: both lists of requests resolve to the same targets, so a commit
/// applies the same redirections for either.
pub proof fn lemma_chain_is_direct(xs: Seq<usize>, pairs: Seq<(usize, usize)>, order: Seq<int>)
    requires
        is_chain(xs, pairs, order),
    ensures
        resolved(direct(pairs, xs.last())) is Some,
        resolved(pairs) == resolved(direct(pairs, xs.last())),
{
    let end = xs.last();
    let d = direct(pairs, end);
    let n = d.len() as int;
    lemma_chain(xs, pairs, order);
    assert(distinct_olds(d)) by {
        assert forall|i: int, j: int| 0 <= i < j < d.len() implies (#[trigger] d[i]).0 != (
        #[trigger] d[j]).0 by {
            assert(pairs[i].0 != pairs[j].0);
        }
    }
    assert(!is_old(d, n, end)) by {
        if is_old(d, n, end) {
            let i = choose|i: int| 0 <= i < n && i < d.len() && (#[trigger] d[i]).0 == end;
            assert(0 <= order[i] < xs.len() - 1);
            assert(xs[order[i]] == xs[xs.len() - 1]);
        }
    }
    lemma_parents(d, d.len());
    if parents(d, d.len()) is None {
        let c = choose|c: Seq<usize>| #[trigger] is_path(d, n, c) && c.len() >= 2 && c[0] == c.last();
        assert(requested(d, n, c[0], c[0int + 1]));
        assert(is_old(d, n, c[0]));
        assert(requested(d, n, c[c.len() - 2], c[c.len() - 2 + 1]));
        assert(c.last() == end);
        assert(false);
    }
    let ts = resolved(d)->0;
    assert forall|i: int| 0 <= i < d.len() implies ts[i] == end by {
        lemma_resolved(d, i);
        let p = choose|p: Seq<usize>| #[trigger] is_path(d, n, p) && p[0] == d[i].1 && p.last() == ts[i];
        if p.len() >= 2 {
            assert(requested(d, n, p[0], p[0int + 1]));
            assert(is_old(d, n, end));
        }
    }
    assert(ts =~= Seq::new(pairs.len(), |i: int| xs.last()));
}

} // verus!
