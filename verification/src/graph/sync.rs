//! Keeping declared bidirectional links in step, and checking link types.
//!
//! Where the schema declares that tag `A` mirrors tag `B`, a link
//! `x -A-> y` is kept together with a link `y -B-> x`. After the staged
//! changes of a transaction were applied, each link that went away takes its
//! mirror with it, and each link that came into being brings its mirror
//! along. This is done once per change; the changes it makes are not
//! followed up.

use vstd::prelude::*;
use crate::changes::LinkChangeRecorder;
use crate::error::CommitError;
use crate::graph::Graph;
use crate::index::NodeIndex;
use crate::link::LinkConflict;
use crate::node::{is_sole, NodeModel, SyncBlock};
use crate::triples::{in_order, sorted};
use crate::order_set::lemma_take_step;

verus! {

/// Once a link could not be followed up, the links after it are not looked
/// at.
pub proof fn lemma_stuck_stays<D>(
    m: crate::model::Nodes<D>,
    schema: crate::schema::Schema,
    es: Seq<(usize, usize, usize)>,
    k: nat,
    n: nat,
)
    requires
        crate::model::additions_synced(m, schema, es, k) is Stuck,
        k <= n,
    ensures
        crate::model::additions_synced(m, schema, es, n) == crate::model::additions_synced(m, schema, es, k),
    decreases n - k,
{
    if k < n {
        lemma_stuck_stays(m, schema, es, k, (n - 1) as nat);
    }
}

impl<D> Graph<D> {
    /// Takes the link to `x` out of field `m` of node `y`, if there is one,
    /// together with its record in the index.
    pub(crate) fn unlink(&mut self, y: NodeIndex, m: usize, x: NodeIndex)
        requires
            old(self).wf(),
            old(self).has(y.0),
        ensures
            final(self).wf(),
            final(self).context_id() == old(self).context_id(),
            final(self).schema == old(self).schema,
            final(self).order() == old(self).order(),
            forall|z: usize| final(self).has(z) == old(self).has(z),
            forall|z: usize| z != y.0 && old(self).has(z) ==> final(self).node(z) == old(self).node(z),
            final(self).node(y.0) == old(self).node(y.0).without_link(m, x.0),
    {
        let ghost g0 = *self;
        proof {
            g0.nodes.lemma_wf();
        }
        let removed = match self.nodes.get_mut(y) {
            Some(n) => n.remove_link(m, x),
            None => false,
        };
        let ghost g1 = *self;
        proof {
            g1.nodes.lemma_after_update(&g0.nodes, y.0);
        }
        if removed {
            self.back_links.remove(x.0, (y.0, m, 0));
        }
        proof {
            assert forall|t: usize, r: (usize, usize, usize)| #[trigger]
                self.back(t).contains(r) <==> self.has(r.0) && self.node(r.0).has_link(
                    t,
                    r.1,
                    r.2,
                ) by {
                assert(g0.back(t).contains(r) <==> g0.has(r.0) && g0.node(r.0).has_link(
                    t,
                    r.1,
                    r.2,
                ));
                if r.0 == y.0 {
                    g0.node(y.0).lemma_without_link(m, x.0, t, r.1, r.2);
                }
            }
            assert forall|z: usize| self.has(z) implies self.bucketed(z) by {
                assert(g0.bucketed(z));
            }
        }
    }

    /// Adds a link to `x` to field `m` of node `y`, together with its record
    /// in the index. Gives the reason where the field cannot take the link;
    /// the graph is then as it was.
    pub(crate) fn link(&mut self, y: NodeIndex, m: usize, x: NodeIndex) -> (r: Result<
        bool,
        LinkConflict,
    >)
        requires
            old(self).wf(),
            old(self).has(y.0),
        ensures
            final(self).wf(),
            final(self).context_id() == old(self).context_id(),
            final(self).schema == old(self).schema,
            final(self).order() == old(self).order(),
            forall|z: usize| final(self).has(z) == old(self).has(z),
            forall|z: usize| z != y.0 && old(self).has(z) ==> final(self).node(z) == old(self).node(z),
            match r {
                Ok(added) => {
                    &&& final(self).node(y.0) == old(self).node(y.0).with_link(m, x.0)
                    &&& m < old(self).node(y.0).links.len() ==> old(self).node(y.0).links[m as int].add_conflict(
                        x.0,
                    ) is None
                },
                Err(e) => {
                    &&& final(self).node(y.0) == old(self).node(y.0)
                    &&& m < old(self).node(y.0).links.len()
                    &&& old(self).node(y.0).links[m as int].add_conflict(x.0) == Some(e)
                },
            },
    {
        let ghost g0 = *self;
        proof {
            g0.nodes.lemma_wf();
        }
        let r = match self.nodes.get_mut(y) {
            Some(n) => n.add_link(m, x),
            None => Ok(false),
        };
        let ghost g1 = *self;
        proof {
            g1.nodes.lemma_after_update(&g0.nodes, y.0);
        }
        match r {
            Ok(true) => {
                self.back_links.add(x.0, (y.0, m, 0));
            },
            _ => {},
        }
        proof {
            assert forall|t: usize, r: (usize, usize, usize)| #[trigger]
                self.back(t).contains(r) <==> self.has(r.0) && self.node(r.0).has_link(
                    t,
                    r.1,
                    r.2,
                ) by {
                assert(g0.back(t).contains(r) <==> g0.has(r.0) && g0.node(r.0).has_link(
                    t,
                    r.1,
                    r.2,
                ));
                if r.0 == y.0 {
                    g0.node(y.0).lemma_with_link(m, x.0, t, r.1, r.2);
                }
            }
            assert forall|z: usize| self.has(z) implies self.bucketed(z) by {
                assert(g0.bucketed(z));
            }
        }
        r
    }

    /// Follows up a link `x -> y` in field `l` that went away: where both
    /// nodes are still there, every mirror field of `y` loses its link to
    /// `x`.
    pub(crate) fn sync_removed(&mut self, x: NodeIndex, y: NodeIndex, l: usize)
        requires
            old(self).wf(),
        ensures
            final(self).wf(),
            final(self).context_id() == old(self).context_id(),
            final(self).schema == old(self).schema,
            final(self).order() == old(self).order(),
            forall|z: usize| final(self).has(z) == old(self).has(z),
            forall|z: usize| z != y.0 && old(self).has(z) ==> final(self).node(z) == old(self).node(z),
            old(self).has(y.0) ==> final(self).node(y.0) == (if old(self).has(x.0) {
                old(self).node(y.0).removal_synced(old(self).mirror_fields(x.0, y.0, l), x.0)
            } else {
                old(self).node(y.0)
            }),
            final(self).map() == crate::model::removal_synced(
                old(self).map(),
                old(self).declared(),
                (x.0, y.0, l),
            ),
    {
        let ghost g0 = *self;
        let sx = match self.nodes.get(x) {
            Some(n) => n.shape,
            None => {
                assert(self.map() =~= crate::model::removal_synced(
                    g0.map(),
                    g0.declared(),
                    (x.0, y.0, l),
                ));
                return ;
            },
        };
        let sy = match self.nodes.get(y) {
            Some(n) => n.shape,
            None => {
                assert(self.map() =~= crate::model::removal_synced(
                    g0.map(),
                    g0.declared(),
                    (x.0, y.0, l),
                ));
                return ;
            },
        };
        let mirrors = self.schema.mirrors_of(sx, l, sy);
        let ghost all = g0.mirror_fields(x.0, y.0, l);
        proof {
            g0.nodes.value(y.0).lemma_fits();
            assert(mirrors@.take(0).to_set() =~= Set::empty());
            assert(g0.node(y.0).without_links(Set::empty(), x.0).links =~= g0.node(y.0).links);
        }
        let mut k: usize = 0;
        while k < mirrors.len()
            invariant
                k <= mirrors.len(),
                mirrors@.no_duplicates(),
                g0.has(y.0),
                g0.node(y.0).fits(),
                self.wf(),
                self.ctx_id == g0.ctx_id,
                self.schema == g0.schema,
                self.order() == g0.order(),
                forall|z: usize| self.has(z) == g0.has(z),
                forall|z: usize| z != y.0 && g0.has(z) ==> self.node(z) == g0.node(z),
                self.node(y.0) == g0.node(y.0).without_links(mirrors@.take(k as int).to_set(), x.0),
            decreases mirrors.len() - k,
        {
            let m = mirrors[k];
            let ghost before = self.node(y.0);
            let ghost done = mirrors@.take(k as int).to_set();
            self.unlink(y, m, x);
            proof {
                lemma_take_step(mirrors@, k as int);
                let next = mirrors@.take(k + 1).to_set();
                assert(!done.contains(m));
                let want = g0.node(y.0).without_links(next, x.0);
                let got = before.without_link(m, x.0);
                assert forall|f: int| 0 <= f < want.links.len() implies got.links[f]
                    == want.links[f] by {
                    assert(next.contains(f as usize) == (done.contains(f as usize) || f == m));
                }
                assert(got.links =~= want.links);
            }
            k = k + 1;
        }
        assert(mirrors@.take(mirrors@.len() as int) =~= mirrors@);
        assert(self.map() =~= crate::model::removal_synced(g0.map(), g0.declared(), (x.0, y.0, l)));
    }

    /// Follows up a link `x -> y` in field `l` that came into being: where
    /// both nodes are there, `y` has mirror fields for the link, and none of
    /// them points back at `x` yet, the one mirror field gets a link to `x`.
    /// More than one candidate, or a candidate that cannot take the link, is
    /// an error, and leaves the graph as it was.
    pub(crate) fn sync_added(&mut self, x: NodeIndex, y: NodeIndex, l: usize) -> (r: Result<
        (),
        CommitError,
    >)
        requires
            old(self).wf(),
        ensures
            final(self).wf(),
            final(self).context_id() == old(self).context_id(),
            final(self).schema == old(self).schema,
            final(self).order() == old(self).order(),
            forall|z: usize| final(self).has(z) == old(self).has(z),
            forall|z: usize| z != y.0 && old(self).has(z) ==> final(self).node(z) == old(self).node(z),
            !(old(self).has(x.0) && old(self).has(y.0)) ==> r is Ok && (old(self).has(y.0)
                ==> final(self).node(y.0) == old(self).node(y.0)),
            old(self).has(x.0) && old(self).has(y.0) ==> match old(self).node(y.0).addition_synced(
                old(self).mirror_fields(x.0, y.0, l),
                x.0,
            ) {
                Ok(n) => r is Ok && final(self).node(y.0) == n,
                Err(SyncBlock::Ambiguous) => r == Err::<(), CommitError>(
                    CommitError::AmbiguousBidirectional { source: x, target: y, field: l },
                ) && final(self).node(y.0) == old(self).node(y.0),
                Err(SyncBlock::Conflict(m, c)) => final(self).node(y.0) == old(self).node(y.0) && r
                    == Err::<(), CommitError>(
                    CommitError::BidirectionalConflict { source: x, target: y, field: m, reason: c },
                ),
            },
            match crate::model::addition_synced(old(self).map(), old(self).declared(), (x.0, y.0, l)) {
                Ok(m) => r is Ok && final(self).map() == m,
                Err(why) => final(self).map() == old(self).map() && r is Err
                    && crate::model::sync_error((x.0, y.0, l), why, r->Err_0),
            },
    {
        let ghost g0 = *self;
        let sx = match self.nodes.get(x) {
            Some(n) => n.shape,
            None => {
                return Ok(());
            },
        };
        let sy = match self.nodes.get(y) {
            Some(n) => n.shape,
            None => {
                return Ok(());
            },
        };
        let mirrors = self.schema.mirrors_of(sx, l, sy);
        let ghost all = g0.mirror_fields(x.0, y.0, l);
        if mirrors.len() == 0 {
            proof {
                assert(all =~= Set::empty());
            }
            return Ok(());
        }
        proof {
            assert(mirrors@.to_set().contains(mirrors@[0]));
            assert(all.contains(mirrors@[0]));
            assert(!(all =~= Set::empty()));
        }
        let mut found = false;
        let mut k: usize = 0;
        while k < mirrors.len()
            invariant
                k <= mirrors.len(),
                *self == g0,
                self.wf(),
                self.has(y.0),
                found == exists|j: int| 0 <= j < k && self.node(y.0).points_to(mirrors@[j], x.0),
            decreases mirrors.len() - k,
        {
            let here = match self.nodes.get(y) {
                Some(n) => n.contains_link(mirrors[k], x),
                None => false,
            };
            if here {
                found = true;
            }
            proof {
                if found {
                    if here {
                        assert(0 <= k < k + 1 && self.node(y.0).points_to(mirrors@[k as int], x.0));
                    } else {
                        let j = choose|j: int|
                            0 <= j < k && self.node(y.0).points_to(mirrors@[j], x.0);
                        assert(0 <= j < k + 1);
                    }
                } else {
                    assert forall|j: int| 0 <= j < k + 1 implies !self.node(y.0).points_to(
                        mirrors@[j],
                        x.0,
                    ) by {
                        if j < k {
                        }
                    }
                }
            }
            k = k + 1;
        }
        proof {
            if found {
                let j = choose|j: int|
                    0 <= j < mirrors@.len() && self.node(y.0).points_to(mirrors@[j], x.0);
                assert(mirrors@.to_set().contains(mirrors@[j]));
                assert(all.contains(mirrors@[j]));
                assert(g0.node(y.0).mirrored(all, x.0));
            } else {
                if g0.node(y.0).mirrored(all, x.0) {
                    let m = choose|m: usize| all.contains(m) && g0.node(y.0).points_to(m, x.0);
                    assert(mirrors@.to_set().contains(m));
                    let j = choose|j: int| 0 <= j < mirrors@.len() && mirrors@[j] == m;
                    assert(false);
                }
            }
        }
        if found {
            return Ok(());
        }
        if mirrors.len() != 1 {
            proof {
                assert(mirrors@[0] != mirrors@[1]);
                assert(mirrors@.to_set().contains(mirrors@[0]));
                assert(mirrors@.to_set().contains(mirrors@[1]));
                assert forall|m: usize| !is_sole(all, m) by {
                    if is_sole(all, m) {
                        assert(all.contains(mirrors@[0]));
                        assert(all.contains(mirrors@[1]));
                    }
                }
            }
            return Err(CommitError::AmbiguousBidirectional { source: x, target: y, field: l });
        }
        let m = mirrors[0];
        proof {
            assert forall|a: usize| all.contains(a) <==> a == m by {
                if all.contains(a) {
                    assert(mirrors@.to_set().contains(a));
                    let j = choose|j: int| 0 <= j < mirrors@.len() && mirrors@[j] == a;
                    assert(j == 0);
                }
                if a == m {
                    assert(mirrors@.to_set().contains(mirrors@[0]));
                }
            }
            assert(is_sole(all, m));
            let c = choose|c: usize| is_sole(all, c);
            assert(is_sole(all, c));
            assert(all.contains(c) <==> c == m);
            assert(all.contains(m) <==> m == c);
            assert(c == m);
        }
        match self.link(y, m, x) {
            Ok(_) => Ok(()),
            Err(c) => Err(
                CommitError::BidirectionalConflict { source: x, target: y, field: m, reason: c },
            ),
        }
    }

    /// Whether every link between two nodes of the graph has its mirror in
    /// place, where the declarations give it mirror fields.
    pub open spec fn settled(&self) -> bool {
        forall|x: usize, y: usize, l: usize|
            self.has(x) && self.has(y) && #[trigger] self.node(x).points_to(l, y) ==> self.mirror_fields(
                x,
                y,
                l,
            ) =~= Set::empty() || self.node(y).mirrored(self.mirror_fields(x, y, l), x)
    }

    /// Whether every event in `adds` whose two nodes are there is a link of
    /// the graph.
    pub open spec fn holds_all(&self, adds: Set<(usize, usize, usize)>) -> bool {
        forall|e: (usize, usize, usize)| #[trigger]
            adds.contains(e) && self.has(e.0) && self.has(e.1) ==> self.node(e.0).points_to(e.2, e.1)
    }

    /// Brings the bidirectional links in step with the recorded changes:
    /// first the links that went away are followed up, then those that came
    /// into being, each in the ascending order of the links.
    /// Stops at the first error. Only links change: every node keeps its
    /// shape and its payload.
    pub(crate) fn apply_bidirectional_links(&mut self, lcr: &LinkChangeRecorder) -> (r: Result<
        (),
        CommitError,
    >)
        requires
            old(self).wf(),
            lcr.wf(),
        ensures
            final(self).wf(),
            final(self).context_id() == old(self).context_id(),
            final(self).schema == old(self).schema,
            final(self).order() == old(self).order(),
            forall|z: usize| final(self).has(z) == old(self).has(z),
            forall|z: usize|
                old(self).has(z) ==> final(self).node(z).shape == old(self).node(z).shape
                    && final(self).node(z).data == old(self).node(z).data,
            r matches Err(e) ==> e is AmbiguousBidirectional || e is BidirectionalConflict,
            lcr.removes() =~= Set::empty() && old(self).settled() && old(self).holds_all(lcr.adds())
                ==> r is Ok && forall|z: usize|
                old(self).has(z) ==> final(self).node(z) == old(self).node(z),
            ({
                let mid = crate::model::removals_synced(
                    old(self).map(),
                    old(self).declared(),
                    in_order(lcr.removes()),
                    in_order(lcr.removes()).len(),
                );
                let res = crate::model::additions_synced(
                    mid,
                    old(self).declared(),
                    in_order(lcr.adds()),
                    in_order(lcr.adds()).len(),
                );
                &&& final(self).map() == res.nodes()
                &&& r is Ok <==> res is Done
                &&& r matches Err(e) ==> res matches crate::model::Synced::Stuck { at, why, .. }
                    && 0 <= at < in_order(lcr.adds()).len() && crate::model::sync_error(
                    in_order(lcr.adds())[at],
                    why,
                    e,
                )
            }),
    {
        let ghost g0 = *self;
        let ghost quiet = lcr.removes() =~= Set::empty() && g0.settled() && g0.holds_all(lcr.adds());
        let removed = sorted(lcr.removed());
        proof {
            if quiet {
                assert(removed@.len() == 0) by {
                    if removed@.len() > 0 {
                        assert(removed@.to_set().contains(removed@[0]));
                    }
                }
            }
        }
        let mut i: usize = 0;
        while i < removed.len()
            invariant
                i <= removed.len(),
                g0 == *old(self),
                removed@.len() == 0 ==> *self == g0,
                removed@ == in_order(lcr.removes()),
                self.map() == crate::model::removals_synced(
                    g0.map(),
                    g0.declared(),
                    removed@,
                    i as nat,
                ),
                self.wf(),
                self.ctx_id == g0.ctx_id,
                self.schema == g0.schema,
                self.order() == g0.order(),
                forall|z: usize| self.has(z) == g0.has(z),
                forall|z: usize|
                    g0.has(z) ==> self.node(z).shape == g0.node(z).shape && self.node(z).data
                        == g0.node(z).data,
            decreases removed.len() - i,
        {
            let e = removed[i];
            self.sync_removed(NodeIndex(e.0), NodeIndex(e.1), e.2);
            i = i + 1;
        }
        let added = sorted(lcr.added());
        let ghost mid = self.map();
        let mut j: usize = 0;
        while j < added.len()
            invariant
                j <= added.len(),
                g0 == *old(self),
                added@ == in_order(lcr.adds()),
                added@.to_set() == lcr.adds(),
                mid == crate::model::removals_synced(
                    g0.map(),
                    g0.declared(),
                    in_order(lcr.removes()),
                    in_order(lcr.removes()).len(),
                ),
                crate::model::additions_synced(mid, g0.declared(), added@, j as nat)
                    == crate::model::Synced::Done(self.map()),
                quiet == (lcr.removes() =~= Set::empty() && g0.settled() && g0.holds_all(lcr.adds())),
                self.wf(),
                self.ctx_id == g0.ctx_id,
                self.schema == g0.schema,
                self.order() == g0.order(),
                forall|z: usize| self.has(z) == g0.has(z),
                forall|z: usize|
                    g0.has(z) ==> self.node(z).shape == g0.node(z).shape && self.node(z).data
                        == g0.node(z).data,
                quiet ==> forall|z: usize| g0.has(z) ==> self.node(z) == g0.node(z),
            decreases added.len() - j,
        {
            let e = added[j];
            let ghost before = *self;
            proof {
                if quiet {
                    assert(lcr.adds().contains(e)) by {
                        assert(added@[j as int] == e);
                        assert(added@.to_set().contains(e));
                    }
                    if before.has(e.0) && before.has(e.1) {
                        assert(g0.node(e.0).points_to(e.2, e.1));
                        let fields = g0.mirror_fields(e.0, e.1, e.2);
                        assert(fields == before.mirror_fields(e.0, e.1, e.2));
                        if !(fields =~= Set::empty()) {
                            g0.node(e.1).lemma_readd_is_noop(fields, e.0);
                        }
                    }
                }
            }
            match self.sync_added(NodeIndex(e.0), NodeIndex(e.1), e.2) {
                Ok(()) => {},
                Err(err) => {
                    proof {
                        lemma_stuck_stays(mid, g0.declared(), added@, (j + 1) as nat, added@.len());
                    }
                    return Err(err);
                },
            }
            proof {
                if quiet {
                    assert forall|z: usize| g0.has(z) implies self.node(z) == g0.node(z) by {
                        assert(before.has(z));
                    }
                }
            }
            j = j + 1;
        }
        Ok(())
    }

    /// Checks the links that came into being against the declared link
    /// types. The error is that of the first offending link in the
    /// ascending order of the links.
    pub(crate) fn check_link_type(&self, lcr: &LinkChangeRecorder) -> (r: Result<(), CommitError>)
        requires
            self.wf(),
            lcr.wf(),
        ensures
            r is Ok <==> crate::model::well_typed(self.map(), self.declared(), lcr.adds()),
            r matches Err(e) ==> crate::model::type_error(
                self.map(),
                self.declared(),
                in_order(lcr.adds()),
                e,
            ),
    {
        let added = sorted(lcr.added());
        let mut j: usize = 0;
        while j < added.len()
            invariant
                j <= added.len(),
                self.wf(),
                added@ == in_order(lcr.adds()),
                added@.to_set() == lcr.adds(),
                forall|k: int|
                    0 <= k < j && self.has(added@[k].0) && self.has(added@[k].1)
                        ==> self.declared().allows(
                        self.node(added@[k].0).shape,
                        added@[k].2,
                        self.node(added@[k].1).shape,
                    ),
            decreases added.len() - j,
        {
            let e = added[j];
            match self.nodes.get(NodeIndex(e.0)) {
                Some(nx) => {
                    match self.nodes.get(NodeIndex(e.1)) {
                        Some(ny) => {
                            match self.schema.check_link_type(ny.shape, nx.shape, e.2) {
                                Ok(()) => {},
                                Err(err) => {
                                    proof {
                                        assert(lcr.adds().contains(e)) by {
                                            assert(added@[j as int] == e);
                                            assert(added@.to_set().contains(e));
                                        }
                                        assert(crate::model::ill_typed_at(
                                            self.map(),
                                            self.declared(),
                                            in_order(lcr.adds()),
                                            j as int,
                                        ));
                                    }
                                    return Err(CommitError::LinkType(err));
                                },
                            }
                        },
                        None => {},
                    }
                },
                None => {},
            }
            j = j + 1;
        }
        proof {
            assert forall|e: (usize, usize, usize)| #[trigger]
                lcr.adds().contains(e) && self.has(e.0) && self.has(e.1) implies self.declared().allows(
                self.node(e.0).shape,
                e.2,
                self.node(e.1).shape,
            ) by {
                let k = choose|k: int| 0 <= k < added@.len() && added@[k] == e;
            }
        }
        Ok(())
    }
}

} // verus!
