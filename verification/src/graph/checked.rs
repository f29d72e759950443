//! Commits that run the checks of the caller on what they changed.

use vstd::prelude::*;
use crate::changes::LinkChangeRecorder;
use crate::check::{CheckResult, GraphCheck};
use crate::error::CommitError;
use crate::graph::Graph;
use crate::index::NodeIndex;
use crate::node::Node;
use crate::schema::contains_usize;
use crate::transaction::Transaction;

verus! {

/// The result of the commit itself behind the result `r` of a commit with
/// checks: where the checks of the caller failed, the commit had gone
/// through.
pub open spec fn commit_result(r: Result<(), CommitError>) -> Result<(), CommitError> {
    if r is Err && r->Err_0 is CheckFailed {
        Ok(())
    } else {
        r
    }
}

/// The first parts of the events in `events`, each once, in the order of
/// their first occurrence.
pub(crate) fn sources(events: &Vec<(usize, usize, usize)>) -> (v: Vec<usize>)
    ensures
        v@.no_duplicates(),
        forall|x: usize| v@.contains(x) <==> exists|j: int| 0 <= j < events@.len() && events@[j].0 == x,
{
    let mut v: Vec<usize> = Vec::new();
    let mut k: usize = 0;
    while k < events.len()
        invariant
            k <= events.len(),
            v@.no_duplicates(),
            forall|x: usize| v@.contains(x) <==> exists|j: int| 0 <= j < k && events@[j].0 == x,
        decreases events.len() - k,
    {
        let x = events[k].0;
        let ghost before = v@;
        if !contains_usize(&v, x) {
            v.push(x);
            proof {
                crate::order_set::lemma_push_no_duplicates(before, x);
            }
        }
        proof {
            assert forall|y: usize| v@.contains(y) <==> exists|j: int|
                0 <= j < k + 1 && events@[j].0 == y by {
                assert(v@.contains(y) <==> before.contains(y) || y == x) by {
                    if v@ != before {
                        assert(v@.to_set().contains(y) <==> before.to_set().insert(x).contains(y));
                    }
                }
                if before.contains(y) {
                    let j = choose|j: int| 0 <= j < k && events@[j].0 == y;
                    assert(0 <= j < k + 1 && events@[j].0 == y);
                }
                if y == x {
                    assert(0 <= k < k + 1 && events@[k as int].0 == y);
                }
                if exists|j: int| 0 <= j < k + 1 && events@[j].0 == y {
                    let j = choose|j: int| 0 <= j < k + 1 && events@[j].0 == y;
                    if j < k {
                        assert(before.contains(y));
                    }
                }
            }
        }
        k = k + 1;
    }
    v
}

/// The names in `ns` whose flag in `flags` is set, in order.
pub open spec fn picked(ns: Seq<Seq<char>>, flags: Seq<bool>) -> Seq<Seq<char>>
    decreases ns.len(),
{
    if ns.len() == 0 || flags.len() != ns.len() {
        Seq::empty()
    } else {
        let rest = picked(ns.drop_last(), flags.drop_last());
        if flags.last() {
            rest.push(ns.last())
        } else {
            rest
        }
    }
}

/// The names picked from names in ascending order are names of the list,
/// and stand in ascending order themselves: failed checks of one kind are
/// reported by name.
pub proof fn lemma_picked_ascending(ns: Seq<Seq<char>>, flags: Seq<bool>)
    requires
        crate::check::ascending(ns),
    ensures
        crate::check::ascending(picked(ns, flags)),
        forall|k: int| 0 <= k < picked(ns, flags).len() ==> ns.contains(#[trigger] picked(ns, flags)[k]),
    decreases ns.len(),
{
    if ns.len() == 0 || flags.len() != ns.len() {
    } else {
        let head = ns.drop_last();
        let rest = picked(head, flags.drop_last());
        assert forall|i: int, j: int| 0 <= i < j < head.len() implies crate::text::text_before(
            #[trigger] head[i],
            #[trigger] head[j],
        ) by {
            assert(head[i] == ns[i] && head[j] == ns[j]);
        }
        lemma_picked_ascending(head, flags.drop_last());
        let all = picked(ns, flags);
        assert forall|k: int| 0 <= k < all.len() implies ns.contains(#[trigger] all[k]) by {
            if k < rest.len() {
                assert(head.contains(rest[k]));
                let j = choose|j: int| 0 <= j < head.len() && head[j] == rest[k];
                assert(ns[j] == rest[k]);
            } else {
                assert(ns[ns.len() - 1] == all[k]);
            }
        }
        assert forall|i: int, j: int| 0 <= i < j < all.len() implies crate::text::text_before(
            #[trigger] all[i],
            #[trigger] all[j],
        ) by {
            if j < rest.len() {
                assert(all[i] == rest[i] && all[j] == rest[j]);
            } else {
                assert(head.contains(rest[i]));
                let q = choose|q: int| 0 <= q < head.len() && head[q] == rest[i];
                assert(ns[q] == rest[i]);
                assert(all[j] == ns[ns.len() - 1]);
            }
        }
    }
}

/// The texts of a list of strings.
pub open spec fn texts(v: Seq<String>) -> Seq<Seq<char>> {
    Seq::new(v.len(), |i: int| v[i]@)
}

/// Whether every registered check can be called on every node and link.
pub open spec fn callable<
    D,
    NC: Fn(NodeIndex, &Node<D>) -> CheckResult,
    LC: Fn(NodeIndex, NodeIndex, &Node<D>, Option<&Node<D>>) -> CheckResult,
>(checks: &GraphCheck<NC, LC>) -> bool {
    &&& forall|i: int, x: NodeIndex, n: &Node<D>|
        0 <= i < checks.node_funcs().len() ==> #[trigger] call_requires(
            &checks.node_funcs()[i],
            (x, n),
        )
    &&& forall|i: int, x: NodeIndex, y: NodeIndex, n: &Node<D>, m: Option<&Node<D>>|
        0 <= i < checks.link_add_funcs().len() ==> #[trigger] call_requires(
            &checks.link_add_funcs()[i],
            (x, y, n, m),
        )
    &&& forall|i: int, x: NodeIndex, y: NodeIndex, n: &Node<D>, m: Option<&Node<D>>|
        0 <= i < checks.link_remove_funcs().len() ==> #[trigger] call_requires(
            &checks.link_remove_funcs()[i],
            (x, y, n, m),
        )
}

impl<D> Graph<D> {
    /// The target of a link as the checks see it: the node, if the graph
    /// holds one under `y`.
    pub open spec fn seen(&self, y: usize) -> Option<&Node<D>> {
        if self.has(y) {
            Some(&self.stored(y))
        } else {
            None
        }
    }

    /// Whether node check `f`, run on node `x`, can give a fault, or can
    /// pass, as `bad` says.
    pub open spec fn node_verdict<NC: Fn(NodeIndex, &Node<D>) -> CheckResult>(
        &self,
        f: &NC,
        x: usize,
        bad: bool,
    ) -> bool {
        exists|r: CheckResult|
            #[trigger] call_ensures(f, (NodeIndex(x), &self.stored(x)), r) && (r is Err) == bad
    }

    /// Whether node check `f` found fault with one of the nodes in `xs`
    /// that the graph holds.
    pub open spec fn node_check_fails<NC: Fn(NodeIndex, &Node<D>) -> CheckResult>(
        &self,
        f: &NC,
        xs: Seq<usize>,
    ) -> bool {
        exists|j: int| 0 <= j < xs.len() && self.has(xs[j]) && #[trigger] self.node_verdict(f, xs[j], true)
    }

    /// Whether node check `f` passed every node in `xs` that the graph
    /// holds.
    pub open spec fn node_check_passes<NC: Fn(NodeIndex, &Node<D>) -> CheckResult>(
        &self,
        f: &NC,
        xs: Seq<usize>,
    ) -> bool {
        forall|j: int|
            0 <= j < xs.len() && self.has(xs[j]) ==> #[trigger] self.node_verdict(f, xs[j], false)
    }

    /// Whether link check `f`, run on the link `e`, can give a fault, or can
    /// pass, as `bad` says.
    pub open spec fn link_verdict<
        LC: Fn(NodeIndex, NodeIndex, &Node<D>, Option<&Node<D>>) -> CheckResult,
    >(&self, f: &LC, e: (usize, usize, usize), bad: bool) -> bool {
        exists|r: CheckResult|
            #[trigger] call_ensures(
                f,
                (NodeIndex(e.0), NodeIndex(e.1), &self.stored(e.0), self.seen(e.1)),
                r,
            ) && (r is Err) == bad
    }

    /// Whether link check `f` found fault with one of the links in `es`
    /// whose source the graph holds.
    pub open spec fn link_check_fails<
        LC: Fn(NodeIndex, NodeIndex, &Node<D>, Option<&Node<D>>) -> CheckResult,
    >(&self, f: &LC, es: Seq<(usize, usize, usize)>) -> bool {
        exists|j: int|
            0 <= j < es.len() && self.has(es[j].0) && #[trigger] self.link_verdict(f, es[j], true)
    }

    /// Whether link check `f` passed every link in `es` whose source the
    /// graph holds.
    pub open spec fn link_check_passes<
        LC: Fn(NodeIndex, NodeIndex, &Node<D>, Option<&Node<D>>) -> CheckResult,
    >(&self, f: &LC, es: Seq<(usize, usize, usize)>) -> bool {
        forall|j: int|
            0 <= j < es.len() && self.has(es[j].0) ==> #[trigger] self.link_verdict(f, es[j], false)
    }

    /// Runs one node check on the nodes in `xs`, up to the first fault.
    pub(crate) fn run_node_check<NC: Fn(NodeIndex, &Node<D>) -> CheckResult>(
        &self,
        f: &NC,
        xs: &Vec<usize>,
    ) -> (failed: bool)
        requires
            self.wf(),
            forall|x: NodeIndex, n: &Node<D>| call_requires(f, (x, n)),
        ensures
            failed ==> self.node_check_fails(f, xs@),
            !failed ==> self.node_check_passes(f, xs@),
    {
        let mut j: usize = 0;
        while j < xs.len()
            invariant
                j <= xs.len(),
                self.wf(),
                forall|x: NodeIndex, n: &Node<D>| call_requires(f, (x, n)),
                forall|q: int|
                    0 <= q < j && self.has(xs@[q]) ==> #[trigger] self.node_verdict(
                        f,
                        xs@[q],
                        false,
                    ),
            decreases xs.len() - j,
        {
            let x = NodeIndex(xs[j]);
            match self.nodes.get(x) {
                Some(n) => {
                    let r = f(x, n);
                    let bad = r.is_err();
                    proof {
                        assert(call_ensures(f, (NodeIndex(xs@[j as int]), &self.stored(xs@[j as int])), r));
                        assert(self.node_verdict(f, xs@[j as int], bad));
                    }
                    if bad {
                        return true;
                    }
                },
                None => {},
            }
            j = j + 1;
        }
        false
    }

    /// Runs one link check on the links in `es`, up to the first fault.
    pub(crate) fn run_link_check<
        LC: Fn(NodeIndex, NodeIndex, &Node<D>, Option<&Node<D>>) -> CheckResult,
    >(&self, f: &LC, es: &Vec<(usize, usize, usize)>) -> (failed: bool)
        requires
            self.wf(),
            forall|x: NodeIndex, y: NodeIndex, n: &Node<D>, m: Option<&Node<D>>|
                call_requires(f, (x, y, n, m)),
        ensures
            failed ==> self.link_check_fails(f, es@),
            !failed ==> self.link_check_passes(f, es@),
    {
        let mut j: usize = 0;
        while j < es.len()
            invariant
                j <= es.len(),
                self.wf(),
                forall|x: NodeIndex, y: NodeIndex, n: &Node<D>, m: Option<&Node<D>>|
                    call_requires(f, (x, y, n, m)),
                forall|q: int|
                    0 <= q < j && self.has(es@[q].0) ==> #[trigger] self.link_verdict(
                        f,
                        es@[q],
                        false,
                    ),
            decreases es.len() - j,
        {
            let x = NodeIndex(es[j].0);
            let y = NodeIndex(es[j].1);
            match self.nodes.get(x) {
                Some(n) => {
                    let m = self.nodes.get(y);
                    let r = f(x, y, n, m);
                    let bad = r.is_err();
                    proof {
                        let e = es@[j as int];
                        assert(m == self.seen(e.1));
                        assert(call_ensures(
                            f,
                            (NodeIndex(e.0), NodeIndex(e.1), &self.stored(e.0), self.seen(e.1)),
                            r,
                        ));
                        assert(self.link_verdict(f, e, bad));
                    }
                    if bad {
                        return true;
                    }
                },
                None => {},
            }
            j = j + 1;
        }
        false
    }

    /// Runs a list of node checks, each up to its first fault, and gives
    /// the names of those that found one.
    pub(crate) fn run_node_checks<NC: Fn(NodeIndex, &Node<D>) -> CheckResult>(
        &self,
        list: &Vec<(String, NC)>,
        xs: &Vec<usize>,
        failed: &mut Vec<String>,
    ) -> (flags: Ghost<Seq<bool>>)
        requires
            self.wf(),
            forall|i: int, x: NodeIndex, n: &Node<D>|
                0 <= i < list@.len() ==> #[trigger] call_requires(&list@[i].1, (x, n)),
        ensures
            flags@.len() == list@.len(),
            texts(final(failed)@) == texts(old(failed)@) + picked(crate::check::names(list@), flags@),
            forall|i: int|
                0 <= i < list@.len() ==> (if flags@[i] {
                    self.node_check_fails(&list@[i].1, xs@)
                } else {
                    self.node_check_passes(&list@[i].1, xs@)
                }),
    {
        let ghost ns = crate::check::names(list@);
        let ghost mut flags: Seq<bool> = Seq::empty();
        let mut i: usize = 0;
        proof {
            assert(ns.take(0) =~= Seq::empty());
            assert(texts(failed@) =~= texts(old(failed)@) + picked(ns.take(0), flags));
        }
        while i < list.len()
            invariant
                i <= list.len(),
                self.wf(),
                ns == crate::check::names(list@),
                forall|k: int, x: NodeIndex, n: &Node<D>|
                    0 <= k < list@.len() ==> #[trigger] call_requires(&list@[k].1, (x, n)),
                flags.len() == i,
                texts(failed@) == texts(old(failed)@) + picked(ns.take(i as int), flags),
                forall|k: int|
                    0 <= k < i ==> (if flags[k] {
                        self.node_check_fails(&list@[k].1, xs@)
                    } else {
                        self.node_check_passes(&list@[k].1, xs@)
                    }),
            decreases list.len() - i,
        {
            proof {
                assert forall|x: NodeIndex, n: &Node<D>| call_requires(&list@[i as int].1, (x, n)) by {
                }
            }
            let bad = self.run_node_check(&list[i].1, xs);
            let ghost before = texts(failed@);
            if bad {
                failed.push(list[i].0.clone());
            }
            proof {
                let old_flags = flags;
                flags = flags.push(bad);
                let t = ns.take(i + 1);
                assert(t.drop_last() =~= ns.take(i as int));
                assert(flags.drop_last() =~= old_flags);
                assert(t.last() == list@[i as int].0@);
                if bad {
                    assert(texts(failed@) =~= before.push(list@[i as int].0@));
                }
                assert(texts(failed@) =~= texts(old(failed)@) + picked(t, flags));
            }
            i = i + 1;
        }
        assert(ns.take(list@.len() as int) =~= ns);
        Ghost(flags)
    }

    /// Runs a list of link checks, each up to its first fault, and gives
    /// the names of those that found one.
    pub(crate) fn run_link_checks<
        LC: Fn(NodeIndex, NodeIndex, &Node<D>, Option<&Node<D>>) -> CheckResult,
    >(
        &self,
        list: &Vec<(String, LC)>,
        es: &Vec<(usize, usize, usize)>,
        failed: &mut Vec<String>,
    ) -> (flags: Ghost<Seq<bool>>)
        requires
            self.wf(),
            forall|i: int, x: NodeIndex, y: NodeIndex, n: &Node<D>, m: Option<&Node<D>>|
                0 <= i < list@.len() ==> #[trigger] call_requires(&list@[i].1, (x, y, n, m)),
        ensures
            flags@.len() == list@.len(),
            texts(final(failed)@) == texts(old(failed)@) + picked(crate::check::names(list@), flags@),
            forall|i: int|
                0 <= i < list@.len() ==> (if flags@[i] {
                    self.link_check_fails(&list@[i].1, es@)
                } else {
                    self.link_check_passes(&list@[i].1, es@)
                }),
    {
        let ghost ns = crate::check::names(list@);
        let ghost mut flags: Seq<bool> = Seq::empty();
        let mut i: usize = 0;
        proof {
            assert(ns.take(0) =~= Seq::empty());
            assert(texts(failed@) =~= texts(old(failed)@) + picked(ns.take(0), flags));
        }
        while i < list.len()
            invariant
                i <= list.len(),
                self.wf(),
                ns == crate::check::names(list@),
                forall|k: int, x: NodeIndex, y: NodeIndex, n: &Node<D>, m: Option<&Node<D>>|
                    0 <= k < list@.len() ==> #[trigger] call_requires(&list@[k].1, (x, y, n, m)),
                flags.len() == i,
                texts(failed@) == texts(old(failed)@) + picked(ns.take(i as int), flags),
                forall|k: int|
                    0 <= k < i ==> (if flags[k] {
                        self.link_check_fails(&list@[k].1, es@)
                    } else {
                        self.link_check_passes(&list@[k].1, es@)
                    }),
            decreases list.len() - i,
        {
            proof {
                assert forall|x: NodeIndex, y: NodeIndex, n: &Node<D>, m: Option<&Node<D>>|
                    call_requires(&list@[i as int].1, (x, y, n, m)) by {
                }
            }
            let bad = self.run_link_check(&list[i].1, es);
            let ghost before = texts(failed@);
            if bad {
                failed.push(list[i].0.clone());
            }
            proof {
                let old_flags = flags;
                flags = flags.push(bad);
                let t = ns.take(i + 1);
                assert(t.drop_last() =~= ns.take(i as int));
                assert(flags.drop_last() =~= old_flags);
                assert(t.last() == list@[i as int].0@);
                if bad {
                    assert(texts(failed@) =~= before.push(list@[i as int].0@));
                }
                assert(texts(failed@) =~= texts(old(failed)@) + picked(t, flags));
            }
            i = i + 1;
        }
        assert(ns.take(list@.len() as int) =~= ns);
        Ghost(flags)
    }

    /// Whether `failed` holds the names of the checks that found fault with
    /// what the recorder `lcr` says was changed, where `xs` are the sources
    /// of the changed links and `nf`, `af`, `rf` say of each node check,
    /// check of added links and check of removed links whether it found
    /// fault.
    pub open spec fn reports_with<
        NC: Fn(NodeIndex, &Node<D>) -> CheckResult,
        LC: Fn(NodeIndex, NodeIndex, &Node<D>, Option<&Node<D>>) -> CheckResult,
    >(
        &self,
        lcr: &LinkChangeRecorder,
        checks: &GraphCheck<NC, LC>,
        failed: Seq<Seq<char>>,
        xs: Seq<usize>,
        nf: Seq<bool>,
        af: Seq<bool>,
        rf: Seq<bool>,
    ) -> bool {
        &&& forall|x: usize|
            xs.contains(x) <==> exists|e: (usize, usize, usize)|
                (lcr.adds().contains(e) || lcr.removes().contains(e)) && e.0 == x
        &&& nf.len() == checks.node_funcs().len()
        &&& af.len() == checks.link_add_funcs().len()
        &&& rf.len() == checks.link_remove_funcs().len()
        &&& picked(checks.node_names(), nf) + picked(checks.link_add_names(), af) + picked(
            checks.link_remove_names(),
            rf,
        ) == failed
        &&& forall|i: int|
            0 <= i < nf.len() ==> (if nf[i] {
                self.node_check_fails(&checks.node_funcs()[i], xs)
            } else {
                self.node_check_passes(&checks.node_funcs()[i], xs)
            })
        &&& forall|i: int|
            0 <= i < af.len() ==> (if af[i] {
                self.link_check_fails(&checks.link_add_funcs()[i], lcr.adds_seq())
            } else {
                self.link_check_passes(&checks.link_add_funcs()[i], lcr.adds_seq())
            })
        &&& forall|i: int|
            0 <= i < rf.len() ==> (if rf[i] {
                self.link_check_fails(&checks.link_remove_funcs()[i], lcr.removes_seq())
            } else {
                self.link_check_passes(&checks.link_remove_funcs()[i], lcr.removes_seq())
            })
    }

    /// Whether `failed` holds the names of the checks that found fault with
    /// what the recorder `lcr` says was changed: first the node checks, run
    /// on the sources of the changed links, then the checks of added links,
    /// then the checks of removed links, each list in its order.
    pub open spec fn reports<
        NC: Fn(NodeIndex, &Node<D>) -> CheckResult,
        LC: Fn(NodeIndex, NodeIndex, &Node<D>, Option<&Node<D>>) -> CheckResult,
    >(
        &self,
        lcr: &LinkChangeRecorder,
        checks: &GraphCheck<NC, LC>,
        failed: Seq<Seq<char>>,
    ) -> bool {
        exists|xs: Seq<usize>, nf: Seq<bool>, af: Seq<bool>, rf: Seq<bool>|
            #[trigger] self.reports_with(lcr, checks, failed, xs, nf, af, rf)
    }

    /// Runs the checks of the caller on what was changed, and gives the
    /// names of the checks that found fault.
    pub(crate) fn check_change<
        NC: Fn(NodeIndex, &Node<D>) -> CheckResult,
        LC: Fn(NodeIndex, NodeIndex, &Node<D>, Option<&Node<D>>) -> CheckResult,
    >(&self, lcr: &LinkChangeRecorder, checks: &GraphCheck<NC, LC>) -> (failed: Vec<String>)
        requires
            self.wf(),
            lcr.wf(),
            callable::<D, NC, LC>(checks),
        ensures
            self.reports(lcr, checks, texts(failed@)),
    {
        proof {
            checks.lemma_parts();
        }
        let added = lcr.added();
        let removed = lcr.removed();
        let mut both: Vec<(usize, usize, usize)> = Vec::new();
        let mut k: usize = 0;
        while k < added.len()
            invariant
                k <= added.len(),
                both@ == added@.take(k as int),
            decreases added.len() - k,
        {
            both.push(added[k]);
            assert(added@.take(k + 1) =~= added@.take(k as int).push(added@[k as int]));
            k = k + 1;
        }
        assert(added@.take(added@.len() as int) =~= added@);
        let mut k: usize = 0;
        while k < removed.len()
            invariant
                k <= removed.len(),
                both@ == added@ + removed@.take(k as int),
            decreases removed.len() - k,
        {
            both.push(removed[k]);
            assert(removed@.take(k + 1) =~= removed@.take(k as int).push(removed@[k as int]));
            assert(both@ =~= added@ + removed@.take(k + 1));
            k = k + 1;
        }
        assert(removed@.take(removed@.len() as int) =~= removed@);
        let xs = sources(&both);
        let mut failed: Vec<String> = Vec::new();
        proof {
            assert forall|i: int, x: NodeIndex, n: &Node<D>|
                0 <= i < checks.node_checks@.len() implies #[trigger] call_requires(
                &checks.node_checks@[i].1,
                (x, n),
            ) by {
                assert(checks.node_funcs()[i] == checks.node_checks@[i].1);
                assert(call_requires(&checks.node_funcs()[i], (x, n)));
            }
            assert forall|i: int, x: NodeIndex, y: NodeIndex, n: &Node<D>, m: Option<&Node<D>>|
                0 <= i < checks.link_add_checks@.len() implies #[trigger] call_requires(
                &checks.link_add_checks@[i].1,
                (x, y, n, m),
            ) by {
                assert(checks.link_add_funcs()[i] == checks.link_add_checks@[i].1);
                assert(call_requires(&checks.link_add_funcs()[i], (x, y, n, m)));
            }
            assert forall|i: int, x: NodeIndex, y: NodeIndex, n: &Node<D>, m: Option<&Node<D>>|
                0 <= i < checks.link_remove_checks@.len() implies #[trigger] call_requires(
                &checks.link_remove_checks@[i].1,
                (x, y, n, m),
            ) by {
                assert(checks.link_remove_funcs()[i] == checks.link_remove_checks@[i].1);
                assert(call_requires(&checks.link_remove_funcs()[i], (x, y, n, m)));
            }
        }
        let nf = self.run_node_checks(&checks.node_checks, &xs, &mut failed);
        let af = self.run_link_checks(&checks.link_add_checks, &added, &mut failed);
        let rf = self.run_link_checks(&checks.link_remove_checks, &removed, &mut failed);
        proof {
            assert forall|x: usize|
                xs@.contains(x) <==> exists|e: (usize, usize, usize)|
                    (lcr.adds().contains(e) || lcr.removes().contains(e)) && e.0 == x by {
                if xs@.contains(x) {
                    let j = choose|j: int| 0 <= j < both@.len() && both@[j].0 == x;
                    let e = both@[j];
                    if j < added@.len() {
                        assert(added@[j] == e);
                        assert(lcr.adds().contains(e));
                    } else {
                        assert(removed@[j - added@.len()] == e);
                        assert(lcr.removes().contains(e));
                    }
                }
                if exists|e: (usize, usize, usize)|
                    (lcr.adds().contains(e) || lcr.removes().contains(e)) && e.0 == x {
                    let e = choose|e: (usize, usize, usize)|
                        (lcr.adds().contains(e) || lcr.removes().contains(e)) && e.0 == x;
                    if lcr.adds().contains(e) {
                        let j = choose|j: int| 0 <= j < added@.len() && added@[j] == e;
                        assert(both@[j] == e);
                    } else {
                        let j = choose|j: int| 0 <= j < removed@.len() && removed@[j] == e;
                        assert(both@[added@.len() + j] == e);
                    }
                }
            }
            assert(texts(Seq::<String>::empty()) =~= Seq::empty());
            assert(texts(failed@) =~= picked(checks.node_names(), nf@) + picked(
                checks.link_add_names(),
                af@,
            ) + picked(checks.link_remove_names(), rf@));
            assert forall|i: int| 0 <= i < nf@.len() implies (if nf@[i] {
                self.node_check_fails(&checks.node_funcs()[i], xs@)
            } else {
                self.node_check_passes(&checks.node_funcs()[i], xs@)
            }) by {
                assert(checks.node_funcs()[i] == checks.node_checks@[i].1);
            }
            assert forall|i: int| 0 <= i < af@.len() implies (if af@[i] {
                self.link_check_fails(&checks.link_add_funcs()[i], lcr.adds_seq())
            } else {
                self.link_check_passes(&checks.link_add_funcs()[i], lcr.adds_seq())
            }) by {
                assert(checks.link_add_funcs()[i] == checks.link_add_checks@[i].1);
            }
            assert forall|i: int| 0 <= i < rf@.len() implies (if rf@[i] {
                self.link_check_fails(&checks.link_remove_funcs()[i], lcr.removes_seq())
            } else {
                self.link_check_passes(&checks.link_remove_funcs()[i], lcr.removes_seq())
            }) by {
                assert(checks.link_remove_funcs()[i] == checks.link_remove_checks@[i].1);
            }
            assert(self.reports_with(lcr, checks, texts(failed@), xs@, nf@, af@, rf@));
        }
        failed
    }

    /// Commits a transaction as [`Graph::commit`] does, and then runs the
    /// checks of the caller on what was changed. Where checks find fault,
    /// the error names them, in ascending order for each kind of check; the
    /// staged changes stay applied. A caller that cannot tell whether the
    /// transaction passes the checks that come before any change uses
    /// [`Graph::try_commit_checked`].
    pub fn commit_checked<
        M: FnOnce(&mut Node<D>),
        U: FnOnce(Node<D>) -> Node<D>,
        NC: Fn(NodeIndex, &Node<D>) -> CheckResult,
        LC: Fn(NodeIndex, NodeIndex, &Node<D>, Option<&Node<D>>) -> CheckResult,
    >(&mut self, t: Transaction<D, M, U>, checks: &GraphCheck<NC, LC>) -> (r: Result<
        (),
        CommitError,
    >)
        requires
            old(self).wf(),
            t.wf(),
            old(self).admits(&t),
            callable::<D, NC, LC>(checks),
        ensures
            final(self).wf(),
            final(self).context_id() == old(self).context_id(),
            final(self).declared() == old(self).declared(),
            ({
                &&& forall|z: usize|
                    final(self).has(z) == ((old(self).has(z) || t.staged().contains(z))
                        && !t.removals().contains(z))
            }),
            exists|
                ms: Seq<crate::model::Nodes<D>>,
                ws: Seq<(Node<D>, Node<D>)>,
                us: Seq<crate::model::Nodes<D>>,
                lcr: LinkChangeRecorder,
            |
                {
                    &&& #[trigger] old(self).committed(
                        &t,
                        final(self),
                        ms,
                        ws,
                        us,
                        &lcr,
                        commit_result(r),
                    )
                    &&& forall|k: int| #[trigger]
                        crate::model::within(k, ws.len() as int) ==> crate::model::changed_at(
                            ms,
                            k,
                            t.mutations()[k].0.0,
                            ws[k],
                        ) && exists|n: &mut Node<D>|
                            *n == ws[k].0 && *final(n) == ws[k].1 && #[trigger] call_ensures(
                                t.mutations()[k].1,
                                (n,),
                                (),
                            )
                    &&& r is Ok ==> final(self).reports(&lcr, checks, Seq::empty())
                    &&& r is Err && r->Err_0 is CheckFailed ==> final(self).reports(
                        &lcr,
                        checks,
                        texts(r->Err_0->CheckFailed_0@),
                    )
                },
            r matches Err(CommitError::CheckFailed(names)) ==> names@.len() > 0,
            r matches Err(e) ==> !e.early(),
    {
        self.try_commit_checked(t, checks)
    }

    /// Commits a transaction as [`Graph::try_commit`] does, and then runs the
    /// checks of the caller on what was changed. Where checks find fault,
    /// the error names them; the staged changes stay applied.
    pub fn try_commit_checked<
        M: FnOnce(&mut Node<D>),
        U: FnOnce(Node<D>) -> Node<D>,
        NC: Fn(NodeIndex, &Node<D>) -> CheckResult,
        LC: Fn(NodeIndex, NodeIndex, &Node<D>, Option<&Node<D>>) -> CheckResult,
    >(&mut self, t: Transaction<D, M, U>, checks: &GraphCheck<NC, LC>) -> (r: Result<
        (),
        CommitError,
    >)
        requires
            old(self).wf(),
            t.wf(),
            callable::<D, NC, LC>(checks),
        ensures
            final(self).wf(),
            final(self).context_id() == old(self).context_id(),
            final(self).declared() == old(self).declared(),
            r matches Err(e) && e.early() ==> final(self).untouched(old(self)),
            (r matches Err(e) && e.early()) <==> !old(self).admits(&t),
            r matches Err(e) ==> (e.early() ==> old(self).refuses(&t, e)),
            !(r matches Err(e) && e.early()) ==> {
                &&& forall|z: usize|
                    final(self).has(z) == ((old(self).has(z) || t.staged().contains(z))
                        && !t.removals().contains(z))
            },
            !(r matches Err(e) && e.early()) ==> exists|
                ms: Seq<crate::model::Nodes<D>>,
                ws: Seq<(Node<D>, Node<D>)>,
                us: Seq<crate::model::Nodes<D>>,
                lcr: LinkChangeRecorder,
            |
                {
                    &&& #[trigger] old(self).committed(
                        &t,
                        final(self),
                        ms,
                        ws,
                        us,
                        &lcr,
                        commit_result(r),
                    )
                    &&& forall|k: int| #[trigger]
                        crate::model::within(k, ws.len() as int) ==> crate::model::changed_at(
                            ms,
                            k,
                            t.mutations()[k].0.0,
                            ws[k],
                        ) && exists|n: &mut Node<D>|
                            *n == ws[k].0 && *final(n) == ws[k].1 && #[trigger] call_ensures(
                                t.mutations()[k].1,
                                (n,),
                                (),
                            )
                    &&& r is Ok ==> final(self).reports(&lcr, checks, Seq::empty())
                    &&& r is Err && r->Err_0 is CheckFailed ==> final(self).reports(
                        &lcr,
                        checks,
                        texts(r->Err_0->CheckFailed_0@),
                    )
                },
            r matches Err(CommitError::CheckFailed(names)) ==> names@.len() > 0,
    {
        let (targets, targets_all) = match self.precheck(&t) {
            Ok(found) => found,
            Err(e) => {
                return Err(e);
            },
        };
        let ghost g0 = *self;
        let (lcr, res, ms, ws, us) = self.apply_staged(t, targets, targets_all);
        let typed = match res {
            Ok(()) => self.check_link_type(&lcr),
            Err(e) => Err(e),
        };
        proof {
            assert(g0.committed(&t, self, ms@, ws@, us@, &lcr, typed));
        }
        match typed {
            Ok(()) => {},
            Err(e) => {
                proof {
                    assert(commit_result(Err(e)) == typed);
                }
                return Err(e);
            },
        }
        let failed = self.check_change(&lcr, checks);
        let r = if failed.len() > 0 {
            Err(CommitError::CheckFailed(failed))
        } else {
            Ok(())
        };
        proof {
            assert(commit_result(r) is Ok);
            assert(g0.committed(&t, self, ms@, ws@, us@, &lcr, commit_result(r)));
            if r is Ok {
                assert(texts(failed@) =~= Seq::empty());
            }
        }
        r
    }
}

} // verus!
