//! The commit engine: applying a transaction to the graph.
//!
//! A commit first checks what can be checked without touching the graph.
//! Then it applies the staged changes in a fixed order: redirections,
//! insertions, in-place changes, replacements, removals. Last it brings the
//! bidirectional links in step and checks the link types of the links that
//! came into being.

use vstd::prelude::*;
use crate::arena::Arena;
use crate::changes::{copy_out, LinkChangeRecorder};
use crate::error::CommitError;
use crate::graph::{net, Graph};
use crate::index::NodeIndex;
use crate::node::Node;
use crate::order_set::{index_seq, index_set_get, index_set_len, lemma_take_step};
use crate::redirect::{plain, resolve_redirects, resolved};
use crate::transaction::Transaction;

verus! {

/// The indices that the requests `pairs` redirect, in order.
pub open spec fn olds(pairs: Seq<(NodeIndex, NodeIndex)>) -> Seq<usize> {
    Seq::new(pairs.len(), |i: int| pairs[i].0.0)
}

/// The nodes after the redirections that a commit applies for the requests
/// `pairs`: each redirected index to its resolved target, in the order of
/// the requests.
pub open spec fn redirections_applied<D>(
    m: crate::model::Nodes<D>,
    pairs: Seq<(NodeIndex, NodeIndex)>,
) -> crate::model::Nodes<D> {
    crate::model::redirects_applied(m, olds(pairs), resolved(plain(pairs))->0, pairs.len())
}

/// Redirecting along a chain in one commit is redirecting each index of the
/// chain straight to its end: for the requests `chain`, which are the steps
/// of the chain `xs` in any order, a commit applies the redirections that
/// it applies for `straight`.
pub proof fn lemma_chain_commits_as_direct<D>(
    m: crate::model::Nodes<D>,
    xs: Seq<usize>,
    chain: Seq<(NodeIndex, NodeIndex)>,
    order: Seq<int>,
    straight: Seq<(NodeIndex, NodeIndex)>,
)
    requires
        crate::redirect::is_chain(xs, plain(chain), order),
        plain(straight) == crate::redirect::direct(plain(chain), xs.last()),
    ensures
        resolved(plain(chain)) is Some,
        redirections_applied(m, chain) == redirections_applied(m, straight),
{
    crate::redirect::lemma_chain_is_direct(xs, plain(chain), order);
    assert(straight.len() == chain.len()) by {
        assert(plain(straight).len() == plain(chain).len());
    }
    assert(olds(straight) =~= olds(chain)) by {
        assert forall|i: int| 0 <= i < chain.len() implies olds(straight)[i] == olds(chain)[i] by {
            assert(plain(straight)[i].0 == plain(chain)[i].0);
        }
    }
}

/// The indices of a list of nodes, in order.
pub open spec fn indices<D>(list: Seq<(NodeIndex, Node<D>)>) -> Seq<usize> {
    Seq::new(list.len(), |i: int| list[i].0.0)
}

/// The nodes of a list of nodes, in order.
pub open spec fn values<D>(list: Seq<(NodeIndex, Node<D>)>) -> Seq<crate::node::NodeModel<D>> {
    Seq::new(list.len(), |i: int| list[i].1@)
}

/// The numbers in `list` as indices, in order.
pub open spec fn wrapped(list: Seq<usize>) -> Seq<NodeIndex> {
    Seq::new(list.len(), |k: int| NodeIndex(list[k]))
}

/// The indices in `list` as numbers, in order.
pub open spec fn numbers(list: Seq<NodeIndex>) -> Seq<usize> {
    Seq::new(list.len(), |i: int| list[i].0)
}

impl<D> Graph<D> {
    /// Whether a staged node of `t` has an index that the graph holds.
    pub open spec fn collides<M: FnOnce(&mut Node<D>), U: FnOnce(Node<D>) -> Node<D>>(
        &self,
        t: &Transaction<D, M, U>,
    ) -> bool {
        exists|i: usize| t.staged().contains(i) && self.has(i)
    }

    /// Whether `i` is known to the graph or staged in `t`.
    pub open spec fn knows<M: FnOnce(&mut Node<D>), U: FnOnce(Node<D>) -> Node<D>>(
        &self,
        t: &Transaction<D, M, U>,
        i: usize,
    ) -> bool {
        self.has(i) || t.staged().contains(i)
    }

    /// Whether `t` queues a change or a removal for an index that neither
    /// the graph nor `t` holds.
    pub open spec fn dangling<M: FnOnce(&mut Node<D>), U: FnOnce(Node<D>) -> Node<D>>(
        &self,
        t: &Transaction<D, M, U>,
    ) -> bool {
        ||| exists|k: int| 0 <= k < t.mutated().len() && !self.knows(t, #[trigger] t.mutated()[k].0)
        ||| exists|k: int| 0 <= k < t.updated().len() && !self.knows(t, #[trigger] t.updated()[k].0)
        ||| exists|i: usize| t.removals().contains(i) && !self.knows(t, i)
    }

    /// Whether staged node `j` of `t` is the first with an index that the
    /// graph holds.
    pub open spec fn first_collision_at<M: FnOnce(&mut Node<D>), U: FnOnce(Node<D>) -> Node<D>>(
        &self,
        t: &Transaction<D, M, U>,
        j: int,
    ) -> bool {
        &&& 0 <= j < t.staged().len()
        &&& self.has(t.staged()[j])
        &&& forall|q: int| 0 <= q < j ==> !self.has(#[trigger] t.staged()[q])
    }

    /// Whether index `j` of `ids` is the first that neither the graph nor
    /// `t` holds.
    pub open spec fn first_unknown_at<M: FnOnce(&mut Node<D>), U: FnOnce(Node<D>) -> Node<D>>(
        &self,
        t: &Transaction<D, M, U>,
        ids: Seq<NodeIndex>,
        j: int,
    ) -> bool {
        &&& 0 <= j < ids.len()
        &&& !self.knows(t, ids[j].0)
        &&& forall|q: int| 0 <= q < j ==> self.knows(t, (#[trigger] ids[q]).0)
    }

    /// Whether the graph or `t` holds each index of `ids`.
    pub open spec fn all_known<M: FnOnce(&mut Node<D>), U: FnOnce(Node<D>) -> Node<D>>(
        &self,
        t: &Transaction<D, M, U>,
        ids: Seq<NodeIndex>,
    ) -> bool {
        forall|q: int| 0 <= q < ids.len() ==> self.knows(t, (#[trigger] ids[q]).0)
    }

    /// Whether `i` is the index that a commit of `t` names as missing: the
    /// first that neither the graph nor `t` holds among the indices of the
    /// queued in-place changes, else among those of the queued replacements,
    /// else among the queued removals.
    pub open spec fn first_missing<M: FnOnce(&mut Node<D>), U: FnOnce(Node<D>) -> Node<D>>(
        &self,
        t: &Transaction<D, M, U>,
        i: NodeIndex,
    ) -> bool {
        let gone = wrapped(t.removal_order());
        ||| exists|j: int| #[trigger] self.first_unknown_at(t, t.mutated(), j) && i == t.mutated()[j]
        ||| self.all_known(t, t.mutated()) && exists|j: int| #[trigger]
            self.first_unknown_at(t, t.updated(), j) && i == t.updated()[j]
        ||| self.all_known(t, t.mutated()) && self.all_known(t, t.updated()) && exists|j: int|
            #[trigger] self.first_unknown_at(t, gone, j) && i == gone[j]
    }

    /// Whether the redirections of `t` hold a loop.
    pub open spec fn looping<M: FnOnce(&mut Node<D>), U: FnOnce(Node<D>) -> Node<D>>(
        t: &Transaction<D, M, U>,
    ) -> bool {
        resolved(plain(t.redirects())) is None || resolved(plain(t.redirects_all())) is None
    }

    /// The staged nodes of `t` as they are stored: with the redirections of
    /// all references applied to them.
    pub open spec fn staged_values<M: FnOnce(&mut Node<D>), U: FnOnce(Node<D>) -> Node<D>>(
        t: &Transaction<D, M, U>,
    ) -> Seq<crate::node::NodeModel<D>> {
        Seq::new(
            t.staged().len(),
            |j: int|
                crate::model::node_redirects_applied(
                    t.staged_node(t.staged()[j]),
                    olds(t.redirects_all()),
                    resolved(plain(t.redirects_all()))->0,
                    t.redirects_all().len(),
                ),
        )
    }

    /// The nodes after the redirections of `t` were applied and its staged
    /// nodes were stored: first the redirections of committed references,
    /// then the redirections of all references, each to its resolved target,
    /// then the staged nodes.
    pub open spec fn prepared<M: FnOnce(&mut Node<D>), U: FnOnce(Node<D>) -> Node<D>>(
        &self,
        t: &Transaction<D, M, U>,
    ) -> crate::model::Nodes<D> {
        let m1 = redirections_applied(self.map(), t.redirects());
        let m2 = redirections_applied(m1, t.redirects_all());
        crate::model::inserted(m2, t.staged(), Self::staged_values(t), t.staged().len())
    }

    /// The indices of the nodes for which `t` queues a closure.
    pub open spec fn touched<M: FnOnce(&mut Node<D>), U: FnOnce(Node<D>) -> Node<D>>(
        t: &Transaction<D, M, U>,
    ) -> Set<usize> {
        Set::new(
            |x: usize| t.mutated().contains(NodeIndex(x)) || t.updated().contains(NodeIndex(x)),
        )
    }

    /// How far the bidirectional links were brought in step, where `m4` are
    /// the nodes after the queued closures ran and `lcr` is the record of
    /// the link changes: first the links that went away are followed up,
    /// then the links that came into being, each in ascending order. Of the
    /// record only the two sets of links count.
    pub open spec fn outcome<M: FnOnce(&mut Node<D>), U: FnOnce(Node<D>) -> Node<D>>(
        &self,
        t: &Transaction<D, M, U>,
        m4: crate::model::Nodes<D>,
        lcr: &LinkChangeRecorder,
    ) -> crate::model::Synced<D> {
        let m5 = crate::model::removals_applied(m4, t.removal_order(), t.removal_order().len());
        crate::model::additions_synced(
            crate::model::removals_synced(
                m5,
                self.declared(),
                crate::triples::in_order(lcr.removes()),
                crate::triples::in_order(lcr.removes()).len(),
            ),
            self.declared(),
            crate::triples::in_order(lcr.adds()),
            crate::triples::in_order(lcr.adds()).len(),
        )
    }

    /// Whether `after` is this graph with the staged changes of `t`
    /// applied, where `m4` are the nodes after the queued closures ran and
    /// `lcr` is the record of the link changes.
    ///
    /// The closures may have made anything of the nodes that they were
    /// queued for; all other nodes are as [`Self::prepared`] says. Then the
    /// queued removals were applied. The recorder holds the net change of
    /// links from this graph to that point, which fixes what is followed
    /// up. Last the links that went away and the links that came into being
    /// were followed up, each in ascending order, as far as
    /// [`Self::outcome`] says.
    pub open spec fn applied<M: FnOnce(&mut Node<D>), U: FnOnce(Node<D>) -> Node<D>>(
        &self,
        t: &Transaction<D, M, U>,
        after: &Graph<D>,
        m4: crate::model::Nodes<D>,
        lcr: &LinkChangeRecorder,
    ) -> bool {
        let m5 = crate::model::removals_applied(m4, t.removal_order(), t.removal_order().len());
        &&& crate::model::same_but(self.prepared(t), m4, Self::touched(t))
        &&& lcr.adds() == crate::model::links(m5).difference(crate::model::links(self.map()))
        &&& lcr.removes() == crate::model::links(self.map()).difference(crate::model::links(m5))
        &&& lcr.adds_seq().no_duplicates()
        &&& lcr.removes_seq().no_duplicates()
        &&& after.map() == self.outcome(t, m4, lcr).nodes()
    }

    /// Whether the queued closures of `t` ran as `ms`, `ws` and `us` say.
    ///
    /// `ms` are the nodes before, between and after the queued in-place
    /// changes, which ran in queue order on the nodes that
    /// [`Self::prepared`] gives; `ws` holds, for each of them, the node as
    /// it was handed to the closure and as the closure left it. `us` are
    /// the nodes before, between and after the queued replacements, which
    /// ran in queue order after the in-place changes.
    pub open spec fn ran<M: FnOnce(&mut Node<D>), U: FnOnce(Node<D>) -> Node<D>>(
        &self,
        t: &Transaction<D, M, U>,
        ms: Seq<crate::model::Nodes<D>>,
        ws: Seq<(Node<D>, Node<D>)>,
        us: Seq<crate::model::Nodes<D>>,
    ) -> bool {
        &&& ms.len() == t.mutations().len() + 1
        &&& ws.len() == t.mutations().len()
        &&& us.len() == t.replacements().len() + 1
        &&& ms[0] == self.prepared(t)
        &&& us[0] == ms.last()
        &&& forall|k: int|
            0 <= k < t.replacements().len() ==> #[trigger] crate::model::replaced_at(
                us,
                k,
                t.replacements()[k].0.0,
                t.replacements()[k].1,
            )
    }

    /// Whether `r` is the result that a commit gives after the staged
    /// changes were applied: the error of the link that could not be
    /// followed up, if there is one; else the error of a link of a type
    /// that is not allowed, if there is one; else success.
    pub open spec fn judged<M: FnOnce(&mut Node<D>), U: FnOnce(Node<D>) -> Node<D>>(
        &self,
        t: &Transaction<D, M, U>,
        m4: crate::model::Nodes<D>,
        lcr: &LinkChangeRecorder,
        r: Result<(), CommitError>,
    ) -> bool {
        match self.outcome(t, m4, lcr) {
            crate::model::Synced::Stuck { at, why, .. } => 0 <= at < crate::triples::in_order(lcr.adds()).len() && r is Err
                && crate::model::sync_error(crate::triples::in_order(lcr.adds())[at], why, r->Err_0),
            crate::model::Synced::Done(mf) => if crate::model::well_typed(
                mf,
                self.declared(),
                lcr.adds(),
            ) {
                r is Ok
            } else {
                r is Err && crate::model::type_error(
                    mf,
                    self.declared(),
                    crate::triples::in_order(lcr.adds()),
                    r->Err_0,
                )
            },
        }
    }

    /// Whether `after` and `r` are what committing `t` to this graph gives,
    /// once the checks that come before any change have passed, where the
    /// queued closures ran as `ms`, `ws` and `us` say and `lcr` is the
    /// record of the link changes.
    pub open spec fn committed<M: FnOnce(&mut Node<D>), U: FnOnce(Node<D>) -> Node<D>>(
        &self,
        t: &Transaction<D, M, U>,
        after: &Graph<D>,
        ms: Seq<crate::model::Nodes<D>>,
        ws: Seq<(Node<D>, Node<D>)>,
        us: Seq<crate::model::Nodes<D>>,
        lcr: &LinkChangeRecorder,
        r: Result<(), CommitError>,
    ) -> bool {
        &&& self.ran(t, ms, ws, us)
        &&& self.applied(t, after, us.last(), lcr)
        &&& self.judged(t, us.last(), lcr, r)
    }

    /// The links of the graph are the links of its nodes.
    pub proof fn lemma_events(&self)
        ensures
            self.events() == crate::model::links(self.map()),
    {
        assert(self.events() =~= crate::model::links(self.map()));
    }

    /// The graph was left as it was.
    pub open spec fn untouched(&self, before: &Graph<D>) -> bool {
        &&& self.order() == before.order()
        &&& forall|x: usize| self.has(x) == before.has(x)
        &&& forall|x: usize| self.node(x) == before.node(x)
        &&& forall|x: usize| self.back(x) == before.back(x)
    }

    /// Applies resolved redirections to the graph, in their order: every
    /// reference to the old index of a request goes to its final target.
    pub(crate) fn apply_redirects(
        &mut self,
        pairs: &Vec<(NodeIndex, NodeIndex)>,
        targets: &Vec<NodeIndex>,
        lcr: &mut LinkChangeRecorder,
        Ghost(init): Ghost<Set<(usize, usize, usize)>>,
    )
        requires
            old(self).wf(),
            pairs@.len() == targets@.len(),
            old(lcr).wf(),
            net(old(lcr).adds(), old(lcr).removes(), init, old(self).events()),
        ensures
            final(self).wf(),
            final(self).context_id() == old(self).context_id(),
            final(self).schema == old(self).schema,
            final(self).order() == old(self).order(),
            forall|z: usize| #[trigger] final(self).has(z) == old(self).has(z),
            final(self).map() == crate::model::redirects_applied(
                old(self).map(),
                olds(pairs@),
                numbers(targets@),
                pairs@.len(),
            ),
            final(lcr).wf(),
            net(final(lcr).adds(), final(lcr).removes(), init, final(self).events()),
    {
        let mut k: usize = 0;
        while k < pairs.len()
            invariant
                k <= pairs.len(),
                pairs@.len() == targets@.len(),
                self.wf(),
                self.context_id() == old(self).context_id(),
                self.schema == old(self).schema,
                self.order() == old(self).order(),
                forall|z: usize| self.has(z) == old(self).has(z),
                self.map() == crate::model::redirects_applied(
                    old(self).map(),
                    olds(pairs@),
                    numbers(targets@),
                    k as nat,
                ),
                lcr.wf(),
                net(lcr.adds(), lcr.removes(), init, self.events()),
            decreases pairs.len() - k,
        {
            self.retarget(pairs[k].0, targets[k], lcr, Ghost(init));
            k = k + 1;
        }
    }

    /// Applies resolved redirections to staged nodes.
    pub(crate) fn redirect_staged(
        staged: &mut Vec<(NodeIndex, Node<D>)>,
        pairs: &Vec<(NodeIndex, NodeIndex)>,
        targets: &Vec<NodeIndex>,
    )
        requires
            pairs@.len() == targets@.len(),
        ensures
            final(staged)@.len() == old(staged)@.len(),
            forall|j: int| 0 <= j < final(staged)@.len() ==> final(staged)@[j].0 == old(staged)@[j].0,
            forall|j: int|
                0 <= j < final(staged)@.len() ==> (#[trigger] final(staged)@[j]).1@
                    == crate::model::node_redirects_applied(
                    old(staged)@[j].1@,
                    olds(pairs@),
                    numbers(targets@),
                    pairs@.len(),
                ),
    {
        let mut k: usize = 0;
        while k < pairs.len()
            invariant
                k <= pairs.len(),
                pairs@.len() == targets@.len(),
                staged@.len() == old(staged)@.len(),
                forall|j: int| 0 <= j < staged@.len() ==> staged@[j].0 == old(staged)@[j].0,
                forall|j: int|
                    0 <= j < staged@.len() ==> (#[trigger] staged@[j]).1@
                        == crate::model::node_redirects_applied(
                        old(staged)@[j].1@,
                        olds(pairs@),
                        numbers(targets@),
                        k as nat,
                    ),
            decreases pairs.len() - k,
        {
            let from = pairs[k].0;
            let to = targets[k];
            let ghost before = staged@;
            let mut j: usize = 0;
            while j < staged.len()
                invariant
                    j <= staged.len(),
                    staged@.len() == before.len(),
                    forall|q: int| 0 <= q < staged@.len() ==> staged@[q].0 == before[q].0,
                    forall|q: int|
                        0 <= q < j ==> (#[trigger] staged@[q]).1@ == before[q].1@.redirected(
                            from.0,
                            to.0,
                        ),
                    forall|q: int| j <= q < staged@.len() ==> staged@[q] == before[q],
                decreases staged.len() - j,
            {
                staged[j].1.redirect_all(from, to);
                j = j + 1;
            }
            k = k + 1;
        }
    }

    /// Stores the staged nodes in the graph, in their order, and enters
    /// their links into the index.
    pub(crate) fn merge_nodes(
        &mut self,
        staged: Vec<(NodeIndex, Node<D>)>,
        lcr: &mut LinkChangeRecorder,
        Ghost(init): Ghost<Set<(usize, usize, usize)>>,
    )
        requires
            old(self).wf(),
            forall|j: int| 0 <= j < staged@.len() ==> !crate::arena::clashes(old(self).order(), staged@, j),
            old(lcr).wf(),
            net(old(lcr).adds(), old(lcr).removes(), init, old(self).events()),
        ensures
            final(self).wf(),
            final(self).context_id() == old(self).context_id(),
            final(self).schema == old(self).schema,
            final(self).order() == old(self).order() + Seq::new(staged@.len(), |j: int| staged@[j].0.0),
            forall|z: usize|
                #[trigger] final(self).has(z) == (old(self).has(z) || exists|j: int|
                    0 <= j < staged@.len() && staged@[j].0.0 == z),
            forall|z: usize| old(self).has(z) ==> final(self).node(z) == old(self).node(z),
            forall|j: int| 0 <= j < staged@.len() ==> final(self).node(staged@[j].0.0) == staged@[j].1@,
            final(self).map() == crate::model::inserted(
                old(self).map(),
                indices(staged@),
                values(staged@),
                staged@.len(),
            ),
            final(lcr).wf(),
            net(final(lcr).adds(), final(lcr).removes(), init, final(self).events()),
    {
        let ghost all = staged@;
        let ghost g0 = *self;
        proof {
            assert(self.order() =~= g0.order() + Seq::new(0, |j: int| all[j].0.0));
        }
        for e in it: staged.into_iter()
            invariant
                it.seq() == all,
                g0 == *old(self),
                forall|j: int| 0 <= j < all.len() ==> !crate::arena::clashes(g0.order(), all, j),
                self.wf(),
                self.context_id() == g0.context_id(),
                self.schema == g0.schema,
                self.order() == g0.order() + Seq::new(it.index() as nat, |j: int| all[j].0.0),
                forall|z: usize|
                    #[trigger] self.has(z) == (g0.has(z) || exists|j: int|
                        0 <= j < it.index() && all[j].0.0 == z),
                forall|z: usize| g0.has(z) ==> self.node(z) == g0.node(z),
                forall|j: int| 0 <= j < it.index() ==> self.node(all[j].0.0) == all[j].1@,
                self.map() == crate::model::inserted(
                    g0.map(),
                    indices(all),
                    values(all),
                    it.index() as nat,
                ),
                lcr.wf(),
                net(lcr.adds(), lcr.removes(), init, self.events()),
        {
            let ghost n = it.index();
            let ghost before = *self;
            proof {
                assert(!crate::arena::clashes(g0.order(), all, n));
                assert(!self.has(e.0.0)) by {
                    if self.has(e.0.0) {
                        if g0.has(e.0.0) {
                            assert(g0.order().contains(e.0.0));
                        } else {
                            let j = choose|j: int| 0 <= j < n && all[j].0.0 == e.0.0;
                            assert(all[j].0 == all[n].0);
                        }
                    }
                }
            }
            self.put_node(e.0, e.1, lcr, Ghost(init));
            proof {
                assert(self.order() =~= g0.order() + Seq::new((n + 1) as nat, |j: int| all[j].0.0));
                assert forall|z: usize|
                    self.has(z) == (g0.has(z) || exists|j: int|
                        0 <= j < n + 1 && all[j].0.0 == z) by {
                    if exists|j: int| 0 <= j < n && all[j].0.0 == z {
                        let j = choose|j: int| 0 <= j < n && all[j].0.0 == z;
                        assert(0 <= j < n + 1 && all[j].0.0 == z);
                    }
                    if z == e.0.0 {
                        assert(0 <= n < n + 1 && all[n].0.0 == z);
                    }
                    if exists|j: int| 0 <= j < n + 1 && all[j].0.0 == z {
                        let j = choose|j: int| 0 <= j < n + 1 && all[j].0.0 == z;
                        if j < n {
                            assert(0 <= j < n && all[j].0.0 == z);
                            assert(before.has(z));
                        }
                    }
                }
                assert forall|j: int| 0 <= j < n + 1 implies self.node(all[j].0.0) == all[j].1@ by {
                    if j < n {
                        assert(0 <= j < n && all[j].0.0 == all[j].0.0);
                        assert(before.has(all[j].0.0));
                    }
                }
            }
        }
    }

    /// Runs the queued in-place changes, in queue order. Gives the nodes
    /// before, between and after the changes, and each changed node as it
    /// was handed to its closure and as the closure left it.
    pub(crate) fn apply_mutations<M: FnOnce(&mut Node<D>)>(
        &mut self,
        muts: Vec<(NodeIndex, M)>,
        lcr: &mut LinkChangeRecorder,
        Ghost(init): Ghost<Set<(usize, usize, usize)>>,
    ) -> (r: (Ghost<Seq<crate::model::Nodes<D>>>, Ghost<Seq<(Node<D>, Node<D>)>>))
        requires
            old(self).wf(),
            forall|k: int| 0 <= k < muts@.len() ==> old(self).has(#[trigger] muts@[k].0.0),
            forall|k: int, n: &mut Node<D>|
                0 <= k < muts@.len() ==> #[trigger] call_requires(muts@[k].1, (n,)),
            old(lcr).wf(),
            net(old(lcr).adds(), old(lcr).removes(), init, old(self).events()),
        ensures
            final(self).wf(),
            final(self).context_id() == old(self).context_id(),
            final(self).schema == old(self).schema,
            final(self).order() == old(self).order(),
            forall|z: usize| #[trigger] final(self).has(z) == old(self).has(z),
            forall|z: usize|
                old(self).has(z) && !(exists|k: int| 0 <= k < muts@.len() && muts@[k].0.0 == z)
                    ==> final(self).node(z) == old(self).node(z),
            final(lcr).wf(),
            net(final(lcr).adds(), final(lcr).removes(), init, final(self).events()),
            r.0@.len() == muts@.len() + 1,
            r.1@.len() == muts@.len(),
            r.0@[0] == old(self).map(),
            r.0@.last() == final(self).map(),
            forall|k: int| #[trigger]
                crate::model::within(k, muts@.len() as int) ==> crate::model::changed_at(
                    r.0@,
                    k,
                    muts@[k].0.0,
                    r.1@[k],
                ) && exists|n: &mut Node<D>|
                    *n == r.1@[k].0 && *final(n) == r.1@[k].1 && #[trigger] call_ensures(
                        muts@[k].1,
                        (n,),
                        (),
                    ),
    {
        let ghost all = muts@;
        let ghost g0 = *self;
        let ghost mut ms = seq![self.map()];
        let ghost mut ns = Seq::<(Node<D>, Node<D>)>::empty();
        for e in it: muts.into_iter()
            invariant
                it.seq() == all,
                g0 == *old(self),
                forall|k: int| 0 <= k < all.len() ==> g0.has(#[trigger] all[k].0.0),
                forall|k: int, n: &mut Node<D>|
                    0 <= k < all.len() ==> #[trigger] call_requires(all[k].1, (n,)),
                self.wf(),
                self.context_id() == g0.context_id(),
                self.schema == g0.schema,
                self.order() == g0.order(),
                forall|z: usize| self.has(z) == g0.has(z),
                forall|z: usize|
                    g0.has(z) && !(exists|k: int| 0 <= k < all.len() && all[k].0.0 == z)
                        ==> self.node(z) == g0.node(z),
                lcr.wf(),
                net(lcr.adds(), lcr.removes(), init, self.events()),
                ms.len() == it.index() + 1,
                ns.len() == it.index(),
                ms[0] == g0.map(),
                ms.last() == self.map(),
                forall|k: int| #[trigger]
                    crate::model::within(k, it.index() as int) ==> crate::model::changed_at(
                        ms,
                        k,
                        all[k].0.0,
                        ns[k],
                    ) && exists|n: &mut Node<D>|
                        *n == ns[k].0 && *final(n) == ns[k].1 && #[trigger] call_ensures(
                            all[k].1,
                            (n,),
                            (),
                        ),
        {
            let ghost n = it.index();
            proof {
                assert(g0.has(all[n].0.0));
                assert forall|m: &mut Node<D>| call_requires(e.1, (m,)) by {
                    assert(call_requires(all[n].1, (m,)));
                }
            }
            let ghost before = self.map();
            let ghost past = ms;
            let ghost pairs = ns;
            let w = self.rewrite_node(e.0, e.1, lcr, Ghost(init));
            proof {
                ms = ms.push(self.map());
                ns = ns.push(w@);
                assert(crate::model::same_but(before, self.map(), set![e.0.0]));
                assert forall|k: int| #[trigger]
                    crate::model::within(k, n + 1) implies crate::model::changed_at(
                    ms,
                    k,
                    all[k].0.0,
                    ns[k],
                ) && exists|m: &mut Node<D>|
                    *m == ns[k].0 && *final(m) == ns[k].1 && #[trigger] call_ensures(
                        all[k].1,
                        (m,),
                        (),
                    ) by {
                    if k < n {
                        assert(crate::model::within(k, n));
                        assert(ms[k] == past[k] && ms[k + 1] == past[k + 1] && ns[k] == pairs[k]);
                    }
                }
            }
        }
        (Ghost(ms), Ghost(ns))
    }

    /// Runs the queued replacements, in queue order. Gives the nodes
    /// before, between and after the replacements.
    pub(crate) fn apply_updates<U: FnOnce(Node<D>) -> Node<D>>(
        &mut self,
        ups: Vec<(NodeIndex, U)>,
        lcr: &mut LinkChangeRecorder,
        Ghost(init): Ghost<Set<(usize, usize, usize)>>,
    ) -> (us: Ghost<Seq<crate::model::Nodes<D>>>)
        requires
            old(self).wf(),
            forall|k: int| 0 <= k < ups@.len() ==> old(self).has(#[trigger] ups@[k].0.0),
            forall|k: int, n: Node<D>|
                0 <= k < ups@.len() ==> #[trigger] call_requires(ups@[k].1, (n,)),
            old(lcr).wf(),
            net(old(lcr).adds(), old(lcr).removes(), init, old(self).events()),
        ensures
            final(self).wf(),
            final(self).context_id() == old(self).context_id(),
            final(self).schema == old(self).schema,
            forall|z: usize| #[trigger] final(self).has(z) == old(self).has(z),
            forall|z: usize|
                old(self).has(z) && !(exists|k: int| 0 <= k < ups@.len() && ups@[k].0.0 == z)
                    ==> final(self).node(z) == old(self).node(z),
            final(lcr).wf(),
            net(final(lcr).adds(), final(lcr).removes(), init, final(self).events()),
            ups@.len() == 0 ==> final(self).order() == old(self).order(),
            us@.len() == ups@.len() + 1,
            us@[0] == old(self).map(),
            us@.last() == final(self).map(),
            forall|k: int|
                0 <= k < ups@.len() ==> #[trigger] crate::model::replaced_at(
                    us@,
                    k,
                    ups@[k].0.0,
                    ups@[k].1,
                ),
    {
        let ghost all = ups@;
        let ghost g0 = *self;
        let ghost mut us = seq![self.map()];
        for e in it: ups.into_iter()
            invariant
                it.seq() == all,
                g0 == *old(self),
                us.len() == it.index() + 1,
                us[0] == g0.map(),
                us.last() == self.map(),
                forall|k: int|
                    0 <= k < it.index() ==> #[trigger] crate::model::replaced_at(
                        us,
                        k,
                        all[k].0.0,
                        all[k].1,
                    ),
                all.len() == 0 ==> self.order() == g0.order(),
                forall|k: int| 0 <= k < all.len() ==> g0.has(#[trigger] all[k].0.0),
                forall|k: int, n: Node<D>|
                    0 <= k < all.len() ==> #[trigger] call_requires(all[k].1, (n,)),
                self.wf(),
                self.context_id() == g0.context_id(),
                self.schema == g0.schema,
                forall|z: usize| self.has(z) == g0.has(z),
                forall|z: usize|
                    g0.has(z) && !(exists|k: int| 0 <= k < all.len() && all[k].0.0 == z)
                        ==> self.node(z) == g0.node(z),
                lcr.wf(),
                net(lcr.adds(), lcr.removes(), init, self.events()),
        {
            let ghost n = it.index();
            proof {
                assert(g0.has(all[n].0.0));
                assert forall|m: Node<D>| call_requires(e.1, (m,)) by {
                    assert(call_requires(all[n].1, (m,)));
                }
            }
            let ghost before = self.map();
            let ghost past = us;
            self.update_node(e.0, e.1, lcr, Ghost(init));
            proof {
                us = us.push(self.map());
                assert(crate::model::same_but(before, self.map(), set![e.0.0]));
                assert forall|k: int| 0 <= k < n + 1 implies #[trigger] crate::model::replaced_at(
                    us,
                    k,
                    all[k].0.0,
                    all[k].1,
                ) by {
                    if k < n {
                        assert(crate::model::replaced_at(past, k, all[k].0.0, all[k].1));
                        assert(us[k] == past[k] && us[k + 1] == past[k + 1]);
                    }
                }
            }
        }
        Ghost(us)
    }

    /// Removes the nodes with the given indices, in their order.
    pub(crate) fn apply_removals(
        &mut self,
        gone: &Vec<usize>,
        lcr: &mut LinkChangeRecorder,
        Ghost(init): Ghost<Set<(usize, usize, usize)>>,
    )
        requires
            old(self).wf(),
            gone@.no_duplicates(),
            forall|k: int| 0 <= k < gone@.len() ==> old(self).has(#[trigger] gone@[k]),
            old(lcr).wf(),
            net(old(lcr).adds(), old(lcr).removes(), init, old(self).events()),
        ensures
            final(self).wf(),
            final(self).context_id() == old(self).context_id(),
            final(self).schema == old(self).schema,
            forall|z: usize| #[trigger] final(self).has(z) == (old(self).has(z) && !gone@.contains(z)),
            final(self).map() == crate::model::removals_applied(old(self).map(), gone@, gone@.len()),
            gone@.len() == 0 ==> final(self).order() == old(self).order(),
            final(lcr).wf(),
            net(final(lcr).adds(), final(lcr).removes(), init, final(self).events()),
    {
        let mut k: usize = 0;
        while k < gone.len()
            invariant
                k <= gone.len(),
                gone@.no_duplicates(),
                self.map() == crate::model::removals_applied(old(self).map(), gone@, k as nat),
                k == 0 ==> self.order() == old(self).order(),
                forall|j: int| 0 <= j < gone@.len() ==> old(self).has(#[trigger] gone@[j]),
                self.wf(),
                self.context_id() == old(self).context_id(),
                self.schema == old(self).schema,
                forall|z: usize|
                    self.has(z) == (old(self).has(z) && !gone@.take(k as int).contains(z)),
                lcr.wf(),
                net(lcr.adds(), lcr.removes(), init, self.events()),
            decreases gone.len() - k,
        {
            let x = gone[k];
            proof {
                lemma_take_step(gone@, k as int);
                assert(old(self).has(gone@[k as int]));
            }
            self.drop_node(NodeIndex(x), lcr, Ghost(init));
            proof {
                assert forall|z: usize|
                    self.has(z) == (old(self).has(z) && !gone@.take(k + 1).contains(z)) by {
                    assert(gone@.take(k + 1).to_set().contains(z) == gone@.take(
                        k as int,
                    ).to_set().insert(x).contains(z));
                }
            }
            k = k + 1;
        }
        assert(gone@.take(gone@.len() as int) =~= gone@);
    }

    /// The first staged index that the graph holds, if there is one.
    pub(crate) fn first_collision(&self, inc: &Arena<Node<D>>) -> (r: Option<NodeIndex>)
        requires
            self.wf(),
            inc.wf(),
        ensures
            match r {
                Some(i) => inc.has(i.0) && self.has(i.0) && exists|j: int|
                    0 <= j < inc.keys().len() && inc.keys()[j] == i.0 && forall|q: int|
                        0 <= q < j ==> !self.has(#[trigger] inc.keys()[q]),
                None => forall|i: usize| !(inc.has(i) && self.has(i)),
            },
    {
        let n = inc.len();
        let mut k: usize = 0;
        while k < n
            invariant
                k <= n,
                n == inc.keys().len(),
                self.wf(),
                inc.wf(),
                forall|j: int| 0 <= j < k ==> !self.has(inc.keys()[j]),
            decreases n - k,
        {
            match inc.get_index(k) {
                Some((i, _)) => {
                    if self.nodes.contains(i) {
                        proof {
                            inc.lemma_position(k as int);
                            assert(0 <= k < inc.keys().len() && inc.keys()[k as int] == i.0);
                        }
                        return Some(i);
                    }
                },
                None => {},
            }
            k = k + 1;
        }
        proof {
            assert forall|i: usize| !(inc.has(i) && self.has(i)) by {
                if inc.has(i) {
                    let j = choose|j: int| 0 <= j < inc.keys().len() && inc.keys()[j] == i;
                }
            }
        }
        None
    }

    /// The first of the indices given that neither the graph nor the staged
    /// nodes hold, if there is one.
    pub(crate) fn first_unknown(&self, inc: &Arena<Node<D>>, ids: &Vec<NodeIndex>) -> (r: Option<
        NodeIndex,
    >)
        requires
            self.wf(),
            inc.wf(),
        ensures
            match r {
                Some(i) => ids@.contains(i) && !self.has(i.0) && !inc.has(i.0) && exists|j: int|
                    0 <= j < ids@.len() && ids@[j] == i && forall|q: int|
                        0 <= q < j ==> self.has((#[trigger] ids@[q]).0) || inc.has(ids@[q].0),
                None => forall|k: int|
                    0 <= k < ids@.len() ==> self.has(#[trigger] ids@[k].0) || inc.has(ids@[k].0),
            },
    {
        let mut k: usize = 0;
        while k < ids.len()
            invariant
                k <= ids.len(),
                forall|j: int| 0 <= j < k ==> self.has(#[trigger] ids@[j].0) || inc.has(ids@[j].0),
            decreases ids.len() - k,
        {
            let i = ids[k];
            if !self.nodes.contains(i) && !inc.contains(i) {
                proof {
                    assert(0 <= k < ids@.len() && ids@[k as int] == i);
                }
                return Some(i);
            }
            k = k + 1;
        }
        None
    }

    /// The checks that a commit makes before it changes anything. Gives the
    /// resolved targets of the two lists of redirections.
    pub(crate) fn precheck<M: FnOnce(&mut Node<D>), U: FnOnce(Node<D>) -> Node<D>>(
        &self,
        t: &Transaction<D, M, U>,
    ) -> (r: Result<(Vec<NodeIndex>, Vec<NodeIndex>), CommitError>)
        requires
            self.wf(),
            t.wf(),
        ensures
            r matches Err(e) ==> e.early(),
            r matches Err(CommitError::ContextMismatch) <==> t.context_id() != self.context_id(),
            r matches Err(CommitError::UnfilledReservation(i)) ==> t.unfilled().contains(i.0),
            (r matches Err(CommitError::UnfilledReservation(_))) <==> t.context_id()
                == self.context_id() && !(t.unfilled() =~= Set::empty()),
            r matches Err(CommitError::IndexCollision(i)) ==> exists|j: int| #[trigger]
                self.first_collision_at(t, j) && i.0 == t.staged()[j],
            (r matches Err(CommitError::IndexCollision(_))) <==> t.context_id() == self.context_id()
                && t.unfilled() =~= Set::empty() && self.collides(t),
            r matches Err(CommitError::MissingNode(i)) ==> self.first_missing(t, i),
            (r matches Err(CommitError::MissingNode(_))) <==> t.context_id() == self.context_id()
                && t.unfilled() =~= Set::empty() && !self.collides(t) && self.dangling(t),
            r matches Err(CommitError::LoopRedirection) <==> t.context_id() == self.context_id()
                && t.unfilled() =~= Set::empty() && !self.collides(t) && !self.dangling(t)
                && Self::looping(t),
            r matches Err(CommitError::IdsExhausted) ==> false,
            r matches Ok((ts, tsa)) ==> {
                &&& ts@.len() == t.redirects().len()
                &&& tsa@.len() == t.redirects_all().len()
                &&& resolved(plain(t.redirects())) == Some(numbers(ts@))
                &&& resolved(plain(t.redirects_all())) == Some(numbers(tsa@))
            },
    {
        proof {
            t.lemma_parts();
        }
        if t.ctx_id != self.ctx_id {
            return Err(CommitError::ContextMismatch);
        }
        match index_set_get(&t.alloc_nodes, 0) {
            Some(i) => {
                proof {
                    assert(index_seq(t.alloc_nodes)[0] == i);
                    assert(t.unfilled().contains(i));
                }
                return Err(CommitError::UnfilledReservation(NodeIndex(i)));
            },
            None => {
                proof {
                    assert(index_seq(t.alloc_nodes).len() == 0);
                    assert(t.unfilled() =~= Set::empty());
                }
            },
        }
        match self.first_collision(&t.inc_nodes) {
            Some(i) => {
                proof {
                    let j = choose|j: int|
                        0 <= j < t.inc_nodes.keys().len() && t.inc_nodes.keys()[j] == i.0
                            && forall|q: int|
                            0 <= q < j ==> !self.has(#[trigger] t.inc_nodes.keys()[q]);
                    assert(self.first_collision_at(t, j));
                }
                return Err(CommitError::IndexCollision(i));
            },
            None => {},
        }
        let mut_ids = first_parts(&t.mut_nodes);
        proof {
            assert(mut_ids@ =~= t.mutated());
        }
        match self.first_unknown(&t.inc_nodes, &mut_ids) {
            Some(i) => {
                proof {
                    let k = choose|k: int|
                        0 <= k < mut_ids@.len() && mut_ids@[k] == i && forall|q: int|
                            0 <= q < k ==> self.has((#[trigger] mut_ids@[q]).0) || t.inc_nodes.has(
                                mut_ids@[q].0,
                            );
                    assert(t.mutated()[k] == i);
                    assert(self.first_unknown_at(t, t.mutated(), k));
                }
                return Err(CommitError::MissingNode(i));
            },
            None => {},
        }
        let up_ids = first_parts(&t.update_nodes);
        proof {
            assert(up_ids@ =~= t.updated());
            assert(self.all_known(t, t.mutated()));
        }
        match self.first_unknown(&t.inc_nodes, &up_ids) {
            Some(i) => {
                proof {
                    let k = choose|k: int|
                        0 <= k < up_ids@.len() && up_ids@[k] == i && forall|q: int|
                            0 <= q < k ==> self.has((#[trigger] up_ids@[q]).0) || t.inc_nodes.has(
                                up_ids@[q].0,
                            );
                    assert(t.updated()[k] == i);
                    assert(self.first_unknown_at(t, t.updated(), k));
                }
                return Err(CommitError::MissingNode(i));
            },
            None => {},
        }
        let gone = index_items(&t.dec_nodes);
        let gone_ids = wrap(&gone);
        proof {
            assert(gone_ids@ =~= wrapped(t.removal_order()));
            assert(self.all_known(t, t.updated()));
        }
        match self.first_unknown(&t.inc_nodes, &gone_ids) {
            Some(i) => {
                proof {
                    let k = choose|k: int|
                        0 <= k < gone_ids@.len() && gone_ids@[k] == i && forall|q: int|
                            0 <= q < k ==> self.has((#[trigger] gone_ids@[q]).0) || t.inc_nodes.has(
                                gone_ids@[q].0,
                            );
                    assert(gone@[k] == i.0);
                    assert(gone@.to_set().contains(i.0));
                    assert(self.first_unknown_at(t, wrapped(t.removal_order()), k));
                }
                return Err(CommitError::MissingNode(i));
            },
            None => {},
        }
        proof {
            assert(!self.dangling(t)) by {
                if exists|k: int|
                    0 <= k < t.mutated().len() && !self.knows(t, #[trigger] t.mutated()[k].0) {
                    let k = choose|k: int|
                        0 <= k < t.mutated().len() && !self.knows(t, #[trigger] t.mutated()[k].0);
                    assert(mut_ids@[k] == t.mutated()[k]);
                    assert(self.has(mut_ids@[k].0) || t.inc_nodes.has(mut_ids@[k].0));
                }
                if exists|k: int|
                    0 <= k < t.updated().len() && !self.knows(t, #[trigger] t.updated()[k].0) {
                    let k = choose|k: int|
                        0 <= k < t.updated().len() && !self.knows(t, #[trigger] t.updated()[k].0);
                    assert(up_ids@[k] == t.updated()[k]);
                    assert(self.has(up_ids@[k].0) || t.inc_nodes.has(up_ids@[k].0));
                }
                if exists|i: usize| t.removals().contains(i) && !self.knows(t, i) {
                    let i = choose|i: usize| t.removals().contains(i) && !self.knows(t, i);
                    let k = choose|k: int| 0 <= k < gone@.len() && gone@[k] == i;
                    assert(gone_ids@[k].0 == i);
                    assert(self.has(gone_ids@[k].0) || t.inc_nodes.has(gone_ids@[k].0));
                }
            }
        }
        let targets = match resolve_redirects(&t.redirect_links_vec) {
            Some(v) => v,
            None => {
                return Err(CommitError::LoopRedirection);
            },
        };
        let targets_all = match resolve_redirects(&t.redirect_all_links_vec) {
            Some(v) => v,
            None => {
                return Err(CommitError::LoopRedirection);
            },
        };
        proof {
            assert(numbers(targets@) =~= resolved(plain(t.redirects()))->0);
            assert(numbers(targets_all@) =~= resolved(plain(t.redirects_all()))->0);
        }
        Ok((targets, targets_all))
    }

    /// Applies the staged changes of a transaction that passed the checks,
    /// and brings the bidirectional links in step. Gives the record of the
    /// link changes, how bringing the links in step went, and how the
    /// queued closures ran.
    pub(crate) fn apply_staged<M: FnOnce(&mut Node<D>), U: FnOnce(Node<D>) -> Node<D>>(
        &mut self,
        t: Transaction<D, M, U>,
        targets: Vec<NodeIndex>,
        targets_all: Vec<NodeIndex>,
    ) -> (r: (
        LinkChangeRecorder,
        Result<(), CommitError>,
        Ghost<Seq<crate::model::Nodes<D>>>,
        Ghost<Seq<(Node<D>, Node<D>)>>,
        Ghost<Seq<crate::model::Nodes<D>>>,
    ))
        requires
            old(self).wf(),
            t.wf(),
            !old(self).collides(&t),
            !old(self).dangling(&t),
            targets@.len() == t.redirects().len(),
            targets_all@.len() == t.redirects_all().len(),
            resolved(plain(t.redirects())) == Some(numbers(targets@)),
            resolved(plain(t.redirects_all())) == Some(numbers(targets_all@)),
        ensures
            final(self).wf(),
            final(self).context_id() == old(self).context_id(),
            final(self).declared() == old(self).declared(),
            forall|z: usize|
                final(self).has(z) == ((old(self).has(z) || t.staged().contains(z))
                    && !t.removals().contains(z)),
            t.removal_order().len() == 0 && t.updated().len() == 0 ==> final(self).order() == old(
                self,
            ).order() + t.staged(),
            r.0.wf(),
            old(self).ran(&t, r.2@, r.3@, r.4@),
            forall|k: int| #[trigger]
                crate::model::within(k, r.3@.len() as int) ==> crate::model::changed_at(
                    r.2@,
                    k,
                    t.mutations()[k].0.0,
                    r.3@[k],
                ) && exists|n: &mut Node<D>|
                    *n == r.3@[k].0 && *final(n) == r.3@[k].1 && #[trigger] call_ensures(
                        t.mutations()[k].1,
                        (n,),
                        (),
                    ),
            old(self).applied(&t, final(self), r.4@.last(), &r.0),
            r.1 is Ok <==> old(self).outcome(&t, r.4@.last(), &r.0) is Done,
            r.1 matches Err(e) ==> e is AmbiguousBidirectional || e is BidirectionalConflict,
            r.1 is Err ==> old(self).judged(&t, r.4@.last(), &r.0, r.1),
    {
        let ghost t0 = t;
        proof {
            t.lemma_parts();
            t.lemma_removals();
            assert forall|i: usize| !(t.inc_nodes.has(i) && self.has(i)) by {
                if t.inc_nodes.has(i) && self.has(i) {
                    assert(t.staged().contains(i) && self.has(i));
                }
            }
        }
        let gone = index_items(&t.dec_nodes);
        let ghost g0 = *self;
        let ghost init = self.events();
        let Transaction {
            ctx_id,
            alloc_nodes,
            inc_nodes,
            dec_nodes,
            mut_nodes,
            update_nodes,
            redirect_all_links_vec,
            redirect_links_vec,
        } = t;
        let mut lcr = LinkChangeRecorder::new();
        proof {
            assert(lcr.adds() =~= init.difference(init));
            assert(lcr.removes() =~= init.difference(init));
        }
        self.apply_redirects(&redirect_links_vec, &targets, &mut lcr, Ghost(init));
        self.apply_redirects(&redirect_all_links_vec, &targets_all, &mut lcr, Ghost(init));
        let ghost ik = inc_nodes.keys();
        let mut staged = inc_nodes.into_entries();
        let ghost raw = staged@;
        Self::redirect_staged(&mut staged, &redirect_all_links_vec, &targets_all);
        proof {
            inc_nodes.lemma_wf();
            assert forall|j: int| 0 <= j < staged@.len() implies !crate::arena::clashes(
                self.order(),
                staged@,
                j,
            ) by {
                assert(staged@[j].0.0 == ik[j]);
                assert(ik.contains(ik[j]));
                assert(inc_nodes.has(ik[j]));
                assert(t0.staged().contains(ik[j]));
                if exists|q: int| 0 <= q < j && staged@[q].0 == staged@[j].0 {
                    let q = choose|q: int| 0 <= q < j && staged@[q].0 == staged@[j].0;
                    assert(ik[q] == ik[j]);
                }
            }
            assert(indices(staged@) =~= t0.staged());
            assert(values(staged@) =~= Self::staged_values(&t0)) by {
                assert forall|j: int| 0 <= j < staged@.len() implies values(staged@)[j]
                    == Self::staged_values(&t0)[j] by {
                    inc_nodes.lemma_position(j);
                    assert(raw[j].1@ == t0.staged_node(t0.staged()[j]));
                }
            }
        }
        let ghost g1 = *self;
        self.merge_nodes(staged, &mut lcr, Ghost(init));
        let ghost g2 = *self;
        proof {
            assert(g2.map() == g0.prepared(&t0));
            assert forall|z: usize| g2.has(z) == (g0.has(z) || ik.contains(z)) by {
                if exists|j: int| 0 <= j < staged@.len() && staged@[j].0.0 == z {
                    let j = choose|j: int| 0 <= j < staged@.len() && staged@[j].0.0 == z;
                    assert(ik[j] == z);
                }
                if ik.contains(z) {
                    let j = choose|j: int| 0 <= j < ik.len() && ik[j] == z;
                    assert(staged@[j].0.0 == z);
                }
            }
            assert forall|k: int| 0 <= k < mut_nodes@.len() implies g2.has(
                #[trigger] mut_nodes@[k].0.0,
            ) by {
                assert(t0.mutated()[k] == mut_nodes@[k].0);
                assert(g0.knows(&t0, t0.mutated()[k].0));
            }
            assert forall|k: int| 0 <= k < update_nodes@.len() implies g2.has(
                #[trigger] update_nodes@[k].0.0,
            ) by {
                assert(t0.updated()[k] == update_nodes@[k].0);
                assert(g0.knows(&t0, t0.updated()[k].0));
            }
            assert forall|k: int| 0 <= k < gone@.len() implies g2.has(#[trigger] gone@[k]) by {
                assert(gone@.to_set().contains(gone@[k]));
                assert(t0.removals().contains(gone@[k]));
                assert(g0.knows(&t0, gone@[k]));
            }
        }
        let (ms, ws) = self.apply_mutations(mut_nodes, &mut lcr, Ghost(init));
        let ghost g3 = *self;
        let us = self.apply_updates(update_nodes, &mut lcr, Ghost(init));
        let ghost g4 = *self;
        let ghost m4 = g4.map();
        proof {
            assert(crate::model::same_but(g0.prepared(&t0), m4, Self::touched(&t0))) by {
                assert forall|x: usize| g2.map().contains_key(x) == m4.contains_key(x) by {
                    assert(g4.has(x) == g3.has(x));
                    assert(g3.has(x) == g2.has(x));
                }
                assert forall|x: usize|
                    g2.map().contains_key(x) && !Self::touched(&t0).contains(x) implies g2.map()[x]
                    == m4[x] by {
                    assert(g3.has(x) && g4.has(x));
                    if exists|k: int| 0 <= k < mut_nodes@.len() && mut_nodes@[k].0.0 == x {
                        let k = choose|k: int| 0 <= k < mut_nodes@.len() && mut_nodes@[k].0.0 == x;
                        assert(t0.mutated()[k] == NodeIndex(x));
                    }
                    if exists|k: int| 0 <= k < update_nodes@.len() && update_nodes@[k].0.0 == x {
                        let k = choose|k: int|
                            0 <= k < update_nodes@.len() && update_nodes@[k].0.0 == x;
                        assert(t0.updated()[k] == NodeIndex(x));
                    }
                    assert(g3.node(x) == g2.node(x));
                    assert(g4.node(x) == g3.node(x));
                }
            }
        }
        self.apply_removals(&gone, &mut lcr, Ghost(init));
        let ghost g5 = *self;
        proof {
            assert forall|z: usize|
                g5.has(z) == ((g0.has(z) || t0.staged().contains(z)) && !t0.removals().contains(z)) by {
                assert(g5.has(z) == (g4.has(z) && !gone@.contains(z)));
                assert(g4.has(z) == g3.has(z));
                assert(g3.has(z) == g2.has(z));
                assert(g2.has(z) == (g0.has(z) || ik.contains(z)));
                assert(gone@.contains(z) == gone@.to_set().contains(z));
            }
            g0.lemma_events();
            g5.lemma_events();
            lcr.lemma_wf();
            assert(lcr.adds() =~= crate::model::links(g5.map()).difference(
                crate::model::links(g0.map()),
            ));
            assert(lcr.removes() =~= crate::model::links(g0.map()).difference(
                crate::model::links(g5.map()),
            ));
            if gone@.len() == 0 && update_nodes@.len() == 0 {
                assert(g5.order() == g4.order());
                assert(g4.order() == g3.order());
                assert(g3.order() == g2.order());
                assert(g2.order() =~= g0.order() + t0.staged());
            }
        }
        let res = self.apply_bidirectional_links(&lcr);
        proof {
            assert forall|z: usize|
                self.has(z) == ((g0.has(z) || t0.staged().contains(z)) && !t0.removals().contains(z)) by {
                assert(self.has(z) == g5.has(z));
            }
        }
        proof {
            assert(g0.ran(&t0, ms@, ws@, us@));
            assert forall|k: int| #[trigger]
                crate::model::within(k, ws@.len() as int) implies crate::model::changed_at(
                ms@,
                k,
                t0.mutations()[k].0.0,
                ws@[k],
            ) && exists|n: &mut Node<D>|
                *n == ws@[k].0 && *final(n) == ws@[k].1 && #[trigger] call_ensures(
                    t0.mutations()[k].1,
                    (n,),
                    (),
                ) by {
                assert(crate::model::within(k, mut_nodes@.len() as int));
            }
        }
        (lcr, res, ms, ws, us)
    }

    /// Whether a commit of `t` to this graph passes the checks that it
    /// makes before it changes anything: the transaction belongs to the
    /// context of the graph, every reservation was filled, no staged node
    /// has an index that the graph holds, every queued change or removal
    /// names a node of the graph or a staged node, and the redirections hold
    /// no loop.
    pub open spec fn admits<M: FnOnce(&mut Node<D>), U: FnOnce(Node<D>) -> Node<D>>(
        &self,
        t: &Transaction<D, M, U>,
    ) -> bool {
        &&& t.context_id() == self.context_id()
        &&& t.unfilled() =~= Set::empty()
        &&& !self.collides(t)
        &&& !self.dangling(t)
        &&& !Self::looping(t)
    }

    /// Whether `e` is the error with which a commit of `t` is refused
    /// before anything is changed: that of the first check that fails, in
    /// the order of [`Self::admits`].
    pub open spec fn refuses<M: FnOnce(&mut Node<D>), U: FnOnce(Node<D>) -> Node<D>>(
        &self,
        t: &Transaction<D, M, U>,
        e: CommitError,
    ) -> bool {
        if t.context_id() != self.context_id() {
            e is ContextMismatch
        } else if !(t.unfilled() =~= Set::empty()) {
            e is UnfilledReservation && t.unfilled().contains(e->UnfilledReservation_0.0)
        } else if self.collides(t) {
            e is IndexCollision && exists|j: int| #[trigger]
                self.first_collision_at(t, j) && e->IndexCollision_0.0 == t.staged()[j]
        } else if self.dangling(t) {
            e is MissingNode && self.first_missing(t, e->MissingNode_0)
        } else {
            Self::looping(t) && e is LoopRedirection
        }
    }

    /// Says whether a commit of `t` would be refused before anything is
    /// changed, and with which error. The transaction is only looked at:
    /// none of its closures can run.
    pub fn refusal<M: FnOnce(&mut Node<D>), U: FnOnce(Node<D>) -> Node<D>>(
        &self,
        t: &Transaction<D, M, U>,
    ) -> (r: Option<CommitError>)
        requires
            self.wf(),
            t.wf(),
        ensures
            r is None <==> self.admits(t),
            r matches Some(e) ==> e.early() && self.refuses(t, e),
    {
        match self.precheck(t) {
            Ok(_) => None,
            Err(e) => Some(e),
        }
    }

    /// Commits a transaction that passes the checks that a commit makes
    /// before it changes anything: see [`Self::admits`]. A caller that
    /// cannot tell uses [`Self::try_commit`], or asks [`Self::refusal`]
    /// first.
    ///
    /// The staged changes are applied, in this order: redirections of
    /// committed references, redirections of all references, insertions,
    /// in-place changes, replacements, removals. After that the commit
    /// brings declared bidirectional links in step with the links that
    /// changed, and checks the links that came into being against the
    /// declared link types. Whether these two steps find fault depends on
    /// what the queued closures make of their nodes; an error from them
    /// leaves the staged changes applied.
    pub fn commit<M: FnOnce(&mut Node<D>), U: FnOnce(Node<D>) -> Node<D>>(
        &mut self,
        t: Transaction<D, M, U>,
    ) -> (r: Result<(), CommitError>)
        requires
            old(self).wf(),
            t.wf(),
            old(self).admits(&t),
        ensures
            final(self).wf(),
            final(self).context_id() == old(self).context_id(),
            final(self).declared() == old(self).declared(),
            ({
                &&& forall|z: usize|
                    final(self).has(z) == ((old(self).has(z) || t.staged().contains(z))
                        && !t.removals().contains(z))
                &&& t.removal_order().len() == 0 && t.updated().len() == 0 ==> final(self).order()
                    == old(self).order() + t.staged()
            }),
            exists|
                ms: Seq<crate::model::Nodes<D>>,
                ws: Seq<(Node<D>, Node<D>)>,
                us: Seq<crate::model::Nodes<D>>,
                lcr: LinkChangeRecorder,
            |
                {
                    &&& #[trigger] old(self).committed(&t, final(self), ms, ws, us, &lcr, r)
                    &&& forall|k: int| #[trigger]
                        crate::model::within(k, ws.len() as int) ==> crate::model::changed_at(
                            ms,
                            k,
                            t.mutations()[k].0.0,
                            ws[k],
                        ) && exists|n: &mut Node<D>|
                            *n == ws[k].0 && *final(n) == ws[k].1 && #[trigger] call_ensures(
                                t.mutations()[k].1,
                                (n,),
                                (),
                            )
                },
            r matches Err(e) ==> e is AmbiguousBidirectional || e is BidirectionalConflict || e
                is LinkType,
    {
        self.try_commit(t)
    }

    /// Commits a transaction, or refuses it.
    ///
    /// Before anything is changed, the commit makes the checks of
    /// [`Self::refusal`]. If one of them fails, the error says which, the
    /// graph is left as it was, and no queued closure has run.
    ///
    /// Then the staged changes are applied, in this order: redirections of
    /// committed references, redirections of all references, insertions,
    /// in-place changes, replacements, removals. After that the commit
    /// brings declared bidirectional links in step with the links that
    /// changed, and checks the links that came into being against the
    /// declared link types. An error from these two steps leaves the staged
    /// changes applied. What the graph holds then, and what each queued
    /// closure was handed, is said by [`Self::committed`] and by the clause
    /// on the queued in-place changes that stands beside it.
    ///
    /// The reverse index matches the links of the nodes after every commit,
    /// whatever its result.
    pub fn try_commit<M: FnOnce(&mut Node<D>), U: FnOnce(Node<D>) -> Node<D>>(
        &mut self,
        t: Transaction<D, M, U>,
    ) -> (r: Result<(), CommitError>)
        requires
            old(self).wf(),
            t.wf(),
        ensures
            final(self).wf(),
            final(self).context_id() == old(self).context_id(),
            final(self).declared() == old(self).declared(),
            r matches Err(e) && e.early() ==> final(self).untouched(old(self)),
            (r matches Err(e) && e.early()) <==> !old(self).admits(&t),
            r matches Err(e) ==> (e.early() ==> old(self).refuses(&t, e)),
            !(r matches Err(e) && e.early()) ==> {
                &&& forall|z: usize|
                    final(self).has(z) == ((old(self).has(z) || t.staged().contains(z))
                        && !t.removals().contains(z))
                &&& t.removal_order().len() == 0 && t.updated().len() == 0 ==> final(self).order()
                    == old(self).order() + t.staged()
            },
            !(r matches Err(e) && e.early()) ==> exists|
                ms: Seq<crate::model::Nodes<D>>,
                ws: Seq<(Node<D>, Node<D>)>,
                us: Seq<crate::model::Nodes<D>>,
                lcr: LinkChangeRecorder,
            |
                {
                    &&& #[trigger] old(self).committed(&t, final(self), ms, ws, us, &lcr, r)
                    &&& forall|k: int| #[trigger]
                        crate::model::within(k, ws.len() as int) ==> crate::model::changed_at(
                            ms,
                            k,
                            t.mutations()[k].0.0,
                            ws[k],
                        ) && exists|n: &mut Node<D>|
                            *n == ws[k].0 && *final(n) == ws[k].1 && #[trigger] call_ensures(
                                t.mutations()[k].1,
                                (n,),
                                (),
                            )
                },
            r matches Err(e) ==> e is ContextMismatch || e is UnfilledReservation || e
                is IndexCollision || e is MissingNode || e is LoopRedirection || e
                is AmbiguousBidirectional || e is BidirectionalConflict || e is LinkType,
    {
        let (targets, targets_all) = match self.precheck(&t) {
            Ok(found) => found,
            Err(e) => {
                return Err(e);
            },
        };
        let ghost g0 = *self;
        let (lcr, res, ms, ws, us) = self.apply_staged(t, targets, targets_all);
        let r = match res {
            Ok(()) => self.check_link_type(&lcr),
            Err(e) => Err(e),
        };
        proof {
            assert(g0.committed(&t, self, ms@, ws@, us@, &lcr, r));
        }
        r
    }
}

/// The indices of a queue of pairs, in queue order.
pub(crate) fn first_parts<T>(list: &Vec<(NodeIndex, T)>) -> (v: Vec<NodeIndex>)
    ensures
        v@.len() == list@.len(),
        forall|k: int| 0 <= k < v@.len() ==> v@[k] == list@[k].0,
{
    let mut v: Vec<NodeIndex> = Vec::new();
    let mut k: usize = 0;
    while k < list.len()
        invariant
            k <= list.len(),
            v@.len() == k,
            forall|j: int| 0 <= j < k ==> v@[j] == list@[j].0,
        decreases list.len() - k,
    {
        v.push(list[k].0);
        k = k + 1;
    }
    v
}

/// The numbers of a list, each wrapped as an index.
pub(crate) fn wrap(list: &Vec<usize>) -> (v: Vec<NodeIndex>)
    ensures
        v@.len() == list@.len(),
        forall|k: int| 0 <= k < v@.len() ==> v@[k].0 == list@[k],
{
    let mut v: Vec<NodeIndex> = Vec::new();
    let mut k: usize = 0;
    while k < list.len()
        invariant
            k <= list.len(),
            v@.len() == k,
            forall|j: int| 0 <= j < k ==> v@[j].0 == list@[j],
        decreases list.len() - k,
    {
        v.push(NodeIndex(list[k]));
        k = k + 1;
    }
    v
}

/// The items of a set of indices, in order.
pub(crate) fn index_items(set: &ordermap::OrderSet<usize>) -> (v: Vec<usize>)
    ensures
        v@ == index_seq(*set),
{
    let mut v: Vec<usize> = Vec::new();
    let n = index_set_len(set);
    let mut i: usize = 0;
    while i < n
        invariant
            i <= n,
            n == index_seq(*set).len(),
            v@ == index_seq(*set).take(i as int),
        decreases n - i,
    {
        match index_set_get(set, i) {
            Some(x) => {
                v.push(x);
                assert(index_seq(*set).take(i + 1) =~= index_seq(*set).take(i as int).push(x));
            },
            None => {},
        }
        i = i + 1;
    }
    assert(index_seq(*set).take(n as int) =~= index_seq(*set));
    v
}

impl<D> Graph<D> {
}

} // verus!
