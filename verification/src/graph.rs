//! The committed graph: an arena of nodes and the reverse index of their
//! links.

use vstd::prelude::*;
use ordermap::OrderSet;
use crate::arena::Arena;
use crate::back_links::BackLinks;
use crate::changes::LinkChangeRecorder;
use crate::index::NodeIndex;
use crate::node::{Node, NodeModel};
use crate::order_set::{
    lemma_push_no_duplicates, lemma_skip_step, lemma_take_step, triple_seq, triple_set_insert,
    triple_set_new,
};
use crate::schema::Schema;

pub mod checked;
pub mod commit;
pub mod query;
pub mod serialize;
pub mod sync;

verus! {

/// A graph of nodes that refer to each other by index.
///
/// The graph is changed only by committing a transaction. Besides the nodes
/// it keeps, for every index, the records of the links that point at it.
#[derive(Debug)]
pub struct Graph<D> {
    pub(crate) ctx_id: u128,
    pub(crate) schema: Schema,
    pub(crate) nodes: Arena<Node<D>>,
    pub(crate) back_links: BackLinks,
}

/// Whether a recorder with additions `a` and removals `r` holds the net
/// change from the links `init` to the links `cur`.
pub open spec fn net(
    a: Set<(usize, usize, usize)>,
    r: Set<(usize, usize, usize)>,
    init: Set<(usize, usize, usize)>,
    cur: Set<(usize, usize, usize)>,
) -> bool {
    &&& a == cur.difference(init)
    &&& r == init.difference(cur)
}

/// The events `(x, target, field)` of the link records in `s`.
pub open spec fn emitted(x: usize, s: Seq<(usize, usize, usize)>) -> Set<(usize, usize, usize)> {
    Set::new(
        |e: (usize, usize, usize)|
            e.0 == x && exists|j: int| 0 <= j < s.len() && s[j].0 == e.1 && s[j].1 == e.2,
    )
}

/// The events of one more record: those of the records before it, and its
/// own.
pub proof fn lemma_emitted_step(x: usize, s: Seq<(usize, usize, usize)>, i: int)
    requires
        0 <= i < s.len(),
    ensures
        emitted(x, s.take(i + 1)) == emitted(x, s.take(i)).insert((x, s[i].0, s[i].1)),
{
    let s0 = s.take(i);
    let s1 = s.take(i + 1);
    let e = (x, s[i].0, s[i].1);
    assert forall|d: (usize, usize, usize)|
        emitted(x, s1).contains(d) <==> emitted(x, s0).insert(e).contains(d) by {
        if emitted(x, s1).contains(d) {
            let j = choose|j: int| 0 <= j < s1.len() && s1[j].0 == d.1 && s1[j].1 == d.2;
            if j < i {
                assert(s0[j] == s1[j]);
            }
        }
        if emitted(x, s0).contains(d) {
            let j = choose|j: int| 0 <= j < s0.len() && s0[j].0 == d.1 && s0[j].1 == d.2;
            assert(s1[j] == s0[j]);
        }
        if d == e {
            assert(s1[i] == s[i]);
        }
    }
    assert(emitted(x, s1) =~= emitted(x, s0).insert(e));
}

/// Recording the removal of a link that is there keeps the recorder in step.
pub proof fn lemma_net_remove(
    a: Set<(usize, usize, usize)>,
    r: Set<(usize, usize, usize)>,
    init: Set<(usize, usize, usize)>,
    cur: Set<(usize, usize, usize)>,
    e: (usize, usize, usize),
    a2: Set<(usize, usize, usize)>,
    r2: Set<(usize, usize, usize)>,
)
    requires
        net(a, r, init, cur),
        cur.contains(e),
        a.contains(e) ==> r2 == r && a2 == a.remove(e),
        !a.contains(e) ==> r2 == r.insert(e) && a2 == a,
    ensures
        net(a2, r2, init, cur.remove(e)),
{
    assert(a2 =~= cur.remove(e).difference(init));
    assert(r2 =~= init.difference(cur.remove(e)));
}

/// Recording the addition of a link that was not there keeps the recorder
/// in step.
pub proof fn lemma_net_add(
    a: Set<(usize, usize, usize)>,
    r: Set<(usize, usize, usize)>,
    init: Set<(usize, usize, usize)>,
    cur: Set<(usize, usize, usize)>,
    e: (usize, usize, usize),
    a2: Set<(usize, usize, usize)>,
    r2: Set<(usize, usize, usize)>,
)
    requires
        net(a, r, init, cur),
        !cur.contains(e),
        r.contains(e) ==> a2 == a && r2 == r.remove(e),
        !r.contains(e) ==> a2 == a.insert(e) && r2 == r,
    ensures
        net(a2, r2, init, cur.insert(e)),
{
    assert(a2 =~= cur.insert(e).difference(init));
    assert(r2 =~= init.difference(cur.insert(e)));
}

impl<D> Graph<D> {
    /// The indices of the nodes, in iteration order.
    pub closed spec fn order(&self) -> Seq<usize> {
        self.nodes.keys()
    }

    /// Whether the graph holds a node under `x`.
    pub closed spec fn has(&self, x: usize) -> bool {
        self.nodes.has(x)
    }

    /// The node stored under `x`.
    pub closed spec fn node(&self, x: usize) -> NodeModel<D> {
        self.nodes.value(x)@
    }

    /// The records `(source, field, position)` of the links that point at
    /// `t`, as the reverse index holds them.
    pub closed spec fn back(&self, t: usize) -> Set<(usize, usize, usize)> {
        self.back_links.records(t)
    }

    /// Whether the reverse index has an entry for `t`, empty or not.
    pub closed spec fn bucketed(&self, t: usize) -> bool {
        self.back_links.has_key(t)
    }

    /// The node stored under `x`, as it is stored.
    pub closed spec fn stored(&self, x: usize) -> Node<D> {
        self.nodes.value(x)
    }

    /// The nodes of the graph as a map from their indices.
    pub open spec fn map(&self) -> Map<usize, NodeModel<D>> {
        Map::new(|x: usize| self.has(x), |x: usize| self.node(x))
    }

    /// The identifier of the context that the graph belongs to.
    pub closed spec fn context_id(&self) -> u128 {
        self.ctx_id
    }

    /// The declarations that the graph goes by.
    pub closed spec fn declared(&self) -> Schema {
        self.schema
    }

    /// The fields of node `y` that mirror field `l` of node `x`.
    pub open spec fn mirror_fields(&self, x: usize, y: usize, l: usize) -> Set<usize> {
        self.declared().mirrors(self.node(x).shape, l, self.node(y).shape)
    }

    /// The containers are in order: no index is stored twice, the empty
    /// index is not stored, no record is held twice.
    pub closed spec fn sound(&self) -> bool {
        &&& self.nodes.wf()
        &&& self.back_links.wf()
    }

    /// The reverse index holds exactly the links of the nodes: a record
    /// `(x, f, p)` is held for `t` if and only if node `x` exists and holds
    /// a link to `t` in field `f` at position `p`.
    pub open spec fn linked(&self) -> bool {
        forall|t: usize, r: (usize, usize, usize)| #[trigger]
            self.back(t).contains(r) <==> self.has(r.0) && self.node(r.0).has_link(t, r.1, r.2)
    }

    /// As [`Self::linked`], but for source `x0` the index holds the records
    /// in `s` instead of the links of the node.
    pub open spec fn linked_except(&self, x0: usize, s: Set<(usize, usize, usize)>) -> bool {
        forall|t: usize, r: (usize, usize, usize)| #[trigger]
            self.back(t).contains(r) <==> if r.0 == x0 {
                s.contains((t, r.1, r.2))
            } else {
                self.has(r.0) && self.node(r.0).has_link(t, r.1, r.2)
            }
    }

    /// Every node has an entry in the reverse index.
    pub open spec fn covered(&self) -> bool {
        forall|x: usize| self.has(x) ==> self.bucketed(x)
    }

    /// The invariant of the graph.
    pub open spec fn wf(&self) -> bool {
        &&& self.sound()
        &&& self.linked()
        &&& self.covered()
    }

    /// The links of the graph as events `(source, target, field)`.
    pub open spec fn events(&self) -> Set<(usize, usize, usize)> {
        Set::new(|e: (usize, usize, usize)| self.has(e.0) && self.node(e.0).points_to(e.2, e.1))
    }

    /// The links of the graph as events, without those of source `x0`.
    pub open spec fn events_except(&self, x0: usize) -> Set<(usize, usize, usize)> {
        Set::new(
            |e: (usize, usize, usize)|
                e.0 != x0 && self.has(e.0) && self.node(e.0).points_to(e.2, e.1),
        )
    }

    /// The same nodes in the same order, the same context and declarations.
    pub closed spec fn same_nodes(&self, other: &Graph<D>) -> bool {
        &&& self.nodes.keys() == other.nodes.keys()
        &&& self.nodes.vals() == other.nodes.vals()
        &&& self.ctx_id == other.ctx_id
        &&& self.schema == other.schema
    }

    /// What [`Self::same_nodes`] means for the nodes.
    pub proof fn lemma_same_nodes(&self, other: &Graph<D>)
        requires
            self.same_nodes(other),
        ensures
            self.order() == other.order(),
            forall|x: usize| self.has(x) == other.has(x),
            forall|x: usize| self.node(x) == other.node(x),
            self.context_id() == other.context_id(),
            self.events() == other.events(),
            forall|x: usize| self.events_except(x) == other.events_except(x),
    {
        assert(self.events() =~= other.events());
        assert forall|x: usize| self.events_except(x) == other.events_except(x) by {
            assert(self.events_except(x) =~= other.events_except(x));
        }
    }

    /// Takes the links of node `x` out of the reverse index and records
    /// them as removed.
    pub(crate) fn detach(
        &mut self,
        x: NodeIndex,
        lcr: &mut LinkChangeRecorder,
        Ghost(init): Ghost<Set<(usize, usize, usize)>>,
    )
        requires
            old(self).sound(),
            old(self).linked(),
            old(lcr).wf(),
            net(old(lcr).adds(), old(lcr).removes(), init, old(self).events()),
        ensures
            final(self).sound(),
            final(self).same_nodes(old(self)),
            forall|t: usize| final(self).bucketed(t) == old(self).bucketed(t),
            final(self).linked_except(x.0, Set::empty()),
            final(lcr).wf(),
            net(final(lcr).adds(), final(lcr).removes(), init, final(self).events_except(x.0)),
    {
        let recs = match self.nodes.get(x) {
            Some(n) => n.link_records(),
            None => Vec::new(),
        };
        let ghost all = old(self).events();
        proof {
            assert forall|t: usize, r: (usize, usize, usize)| #[trigger]
                self.back(t).contains(r) <==> if r.0 == x.0 {
                    recs@.skip(0).to_set().contains((t, r.1, r.2))
                } else {
                    self.has(r.0) && self.node(r.0).has_link(t, r.1, r.2)
                } by {
                assert(recs@.skip(0) =~= recs@);
                if r.0 == x.0 {
                    if self.has(x.0) {
                        assert(recs@.to_set().contains((t, r.1, r.2)) <==> self.node(x.0).link_set().contains(
                            (t, r.1, r.2),
                        ));
                    } else {
                        assert(recs@.to_set() =~= Set::empty());
                    }
                }
            }
            assert(all.difference(emitted(x.0, recs@.take(0))) =~= all);
        }
        let mut seen: OrderSet<(usize, usize, usize)> = triple_set_new();
        assert(triple_seq(seen).to_set() =~= emitted(x.0, recs@.take(0)));
        let mut i: usize = 0;
        while i < recs.len()
            invariant
                i <= recs.len(),
                recs@.no_duplicates(),
                old(self).has(x.0) ==> recs@.to_set() == old(self).node(x.0).link_set(),
                !old(self).has(x.0) ==> recs@.len() == 0,
                all == old(self).events(),
                self.sound(),
                self.same_nodes(old(self)),
                forall|t: usize| self.bucketed(t) == old(self).bucketed(t),
                self.linked_except(x.0, recs@.skip(i as int).to_set()),
                lcr.wf(),
                triple_seq(seen).no_duplicates(),
                triple_seq(seen).to_set() == emitted(x.0, recs@.take(i as int)),
                net(
                    lcr.adds(),
                    lcr.removes(),
                    init,
                    all.difference(emitted(x.0, recs@.take(i as int))),
                ),
            decreases recs.len() - i,
        {
            let rec = recs[i];
            let ghost before = *self;
            let ghost seen_before = triple_seq(seen);
            let ghost done = emitted(x.0, recs@.take(i as int));
            let ghost done_next = emitted(x.0, recs@.take(i + 1));
            self.back_links.remove(rec.0, (x.0, rec.1, rec.2));
            let fresh = triple_set_insert(&mut seen, (x.0, rec.0, rec.1));
            let e = (x.0, rec.0, rec.1);
            proof {
                assert(recs@.take(i + 1) =~= recs@.take(i as int).push(rec));
                lemma_emitted_step(x.0, recs@, i as int);
                if fresh {
                    lemma_push_no_duplicates(seen_before, e);
                } else {
                    assert(seen_before.to_set().insert(e) =~= seen_before.to_set());
                }
                // the event is a link of the graph
                assert(recs@.to_set().contains(rec));
                assert(old(self).node(x.0).has_link(rec.0, rec.1, rec.2));
                assert(old(self).node(x.0).links[rec.1 as int].holds(rec.0, rec.2));
                assert(all.contains(e));
            }
            let ghost a0 = lcr.adds();
            let ghost r0 = lcr.removes();
            if fresh {
                lcr.remove_link(x.0, rec.0, rec.1);
            }
            proof {
                assert(all.difference(done_next) =~= all.difference(done).remove(e));
                if fresh {
                    assert(!done.contains(e));
                    lemma_net_remove(a0, r0, init, all.difference(done), e, lcr.adds(), lcr.removes());
                } else {
                    assert(seen_before.contains(e));
                    assert(done.contains(e));
                    assert(all.difference(done).remove(e) =~= all.difference(done));
                }
                lemma_skip_step(recs@, i as int);
                assert forall|t: usize, r: (usize, usize, usize)| #[trigger]
                    self.back(t).contains(r) <==> if r.0 == x.0 {
                        recs@.skip(i + 1).to_set().contains((t, r.1, r.2))
                    } else {
                        self.has(r.0) && self.node(r.0).has_link(t, r.1, r.2)
                    } by {
                    assert(before.back(t).contains(r) <==> if r.0 == x.0 {
                        recs@.skip(i as int).to_set().contains((t, r.1, r.2))
                    } else {
                        before.has(r.0) && before.node(r.0).has_link(t, r.1, r.2)
                    });
                    if t == rec.0 {
                        assert(self.back(t) == before.back(t).remove((x.0, rec.1, rec.2)));
                    } else {
                        assert(self.back(t) == before.back(t));
                    }
                }
            }
            i = i + 1;
        }
        proof {
            assert(recs@.skip(recs@.len() as int).to_set() =~= Set::empty());
            assert(recs@.take(recs@.len() as int) =~= recs@);
            assert(all.difference(emitted(x.0, recs@)) =~= self.events_except(x.0)) by {
                assert forall|d: (usize, usize, usize)|
                    all.difference(emitted(x.0, recs@)).contains(d) <==> self.events_except(
                        x.0,
                    ).contains(d) by {
                    if d.0 == x.0 && all.contains(d) {
                        let p = choose|p: usize| old(self).node(x.0).links[d.2 as int].holds(d.1, p);
                        assert(old(self).node(x.0).has_link(d.1, d.2, p));
                        assert(recs@.to_set().contains((d.1, d.2, p)));
                        let j = choose|j: int| 0 <= j < recs@.len() && recs@[j] == (d.1, d.2, p);
                        assert(emitted(x.0, recs@).contains(d));
                    }
                }
            }
        }
    }

    /// Puts the links of node `x` into the reverse index and records them
    /// as added. The node gets an entry of its own in the index.
    pub(crate) fn attach(
        &mut self,
        x: NodeIndex,
        lcr: &mut LinkChangeRecorder,
        Ghost(init): Ghost<Set<(usize, usize, usize)>>,
    )
        requires
            old(self).sound(),
            old(self).has(x.0),
            old(self).linked_except(x.0, Set::empty()),
            old(lcr).wf(),
            net(old(lcr).adds(), old(lcr).removes(), init, old(self).events_except(x.0)),
        ensures
            final(self).sound(),
            final(self).same_nodes(old(self)),
            forall|t: usize| old(self).bucketed(t) ==> final(self).bucketed(t),
            final(self).bucketed(x.0),
            final(self).linked(),
            final(lcr).wf(),
            net(final(lcr).adds(), final(lcr).removes(), init, final(self).events()),
    {
        let recs = match self.nodes.get(x) {
            Some(n) => n.link_records(),
            None => Vec::new(),
        };
        let ghost rest = old(self).events_except(x.0);
        proof {
            assert(recs@.take(0).to_set() =~= Set::empty());
            assert(rest.union(emitted(x.0, recs@.take(0))) =~= rest);
        }
        let mut seen: OrderSet<(usize, usize, usize)> = triple_set_new();
        assert(triple_seq(seen).to_set() =~= emitted(x.0, recs@.take(0)));
        let mut i: usize = 0;
        while i < recs.len()
            invariant
                i <= recs.len(),
                recs@.no_duplicates(),
                recs@.to_set() == old(self).node(x.0).link_set(),
                rest == old(self).events_except(x.0),
                self.sound(),
                self.same_nodes(old(self)),
                forall|t: usize| old(self).bucketed(t) ==> self.bucketed(t),
                self.linked_except(x.0, recs@.take(i as int).to_set()),
                lcr.wf(),
                triple_seq(seen).no_duplicates(),
                triple_seq(seen).to_set() == emitted(x.0, recs@.take(i as int)),
                net(
                    lcr.adds(),
                    lcr.removes(),
                    init,
                    rest.union(emitted(x.0, recs@.take(i as int))),
                ),
            decreases recs.len() - i,
        {
            let rec = recs[i];
            let ghost before = *self;
            let ghost seen_before = triple_seq(seen);
            let ghost done = emitted(x.0, recs@.take(i as int));
            let ghost done_next = emitted(x.0, recs@.take(i + 1));
            self.back_links.add(rec.0, (x.0, rec.1, rec.2));
            let fresh = triple_set_insert(&mut seen, (x.0, rec.0, rec.1));
            let e = (x.0, rec.0, rec.1);
            proof {
                assert(recs@.take(i + 1) =~= recs@.take(i as int).push(rec));
                lemma_emitted_step(x.0, recs@, i as int);
                if fresh {
                    lemma_push_no_duplicates(seen_before, e);
                } else {
                    assert(seen_before.to_set().insert(e) =~= seen_before.to_set());
                }
            }
            let ghost a0 = lcr.adds();
            let ghost r0 = lcr.removes();
            if fresh {
                lcr.add_link(x.0, rec.0, rec.1);
            }
            proof {
                assert(rest.union(done_next) =~= rest.union(done).insert(e));
                assert(!rest.contains(e));
                assert(recs@.to_set().contains(rec));
                assert(old(self).node(x.0).has_link(rec.0, rec.1, rec.2));
                assert(rec.0 != 0);
                if fresh {
                    assert(!done.contains(e));
                    lemma_net_add(a0, r0, init, rest.union(done), e, lcr.adds(), lcr.removes());
                } else {
                    assert(seen_before.contains(e));
                    assert(done.contains(e));
                    assert(rest.union(done).insert(e) =~= rest.union(done));
                }
                lemma_take_step(recs@, i as int);
                assert forall|t: usize, r: (usize, usize, usize)| #[trigger]
                    self.back(t).contains(r) <==> if r.0 == x.0 {
                        recs@.take(i + 1).to_set().contains((t, r.1, r.2))
                    } else {
                        self.has(r.0) && self.node(r.0).has_link(t, r.1, r.2)
                    } by {
                    assert(before.back(t).contains(r) <==> if r.0 == x.0 {
                        recs@.take(i as int).to_set().contains((t, r.1, r.2))
                    } else {
                        before.has(r.0) && before.node(r.0).has_link(t, r.1, r.2)
                    });
                    if t == rec.0 {
                        assert(self.back(t) == before.back(t).insert((x.0, rec.1, rec.2)));
                    } else {
                        assert(self.back(t) == before.back(t));
                    }
                }
            }
            i = i + 1;
        }
        let ghost mid = *self;
        self.back_links.ensure_key(x.0);
        proof {
            assert(recs@.take(recs@.len() as int) =~= recs@);
            assert forall|t: usize, r: (usize, usize, usize)| #[trigger]
                self.back(t).contains(r) <==> self.has(r.0) && self.node(r.0).has_link(
                    t,
                    r.1,
                    r.2,
                ) by {
                assert(self.back(t) == mid.back(t));
                assert(mid.back(t).contains(r) <==> if r.0 == x.0 {
                    recs@.to_set().contains((t, r.1, r.2))
                } else {
                    mid.has(r.0) && mid.node(r.0).has_link(t, r.1, r.2)
                });
                if r.0 == x.0 {
                    assert(recs@.to_set().contains((t, r.1, r.2)) <==> old(self).node(
                        x.0,
                    ).link_set().contains((t, r.1, r.2)));
                }
            }
            assert(rest.union(emitted(x.0, recs@)) =~= self.events()) by {
                assert forall|d: (usize, usize, usize)|
                    rest.union(emitted(x.0, recs@)).contains(d) <==> self.events().contains(
                        d,
                    ) by {
                    if d.0 == x.0 && self.events().contains(d) {
                        let p = choose|p: usize| old(self).node(x.0).links[d.2 as int].holds(d.1, p);
                        assert(old(self).node(x.0).has_link(d.1, d.2, p));
                        assert(recs@.to_set().contains((d.1, d.2, p)));
                        let j = choose|j: int| 0 <= j < recs@.len() && recs@[j] == (d.1, d.2, p);
                        assert(emitted(x.0, recs@).contains(d));
                    }
                    if emitted(x.0, recs@).contains(d) {
                        let j = choose|j: int|
                            0 <= j < recs@.len() && recs@[j].0 == d.1 && recs@[j].1 == d.2;
                        assert(recs@.to_set().contains(recs@[j]));
                        assert(old(self).node(x.0).has_link(recs@[j].0, recs@[j].1, recs@[j].2));
                        assert(old(self).node(x.0).links[d.2 as int].holds(d.1, recs@[j].2));
                    }
                }
            }
        }
    }

    /// A change that touches node `y` only, and leaves the reverse index
    /// alone, keeps what the index says of all other nodes.
    pub(crate) proof fn lemma_node_swapped(&self, before: &Graph<D>, y: usize)
        requires
            before.sound(),
            self.nodes.wf(),
            self.back_links == before.back_links,
            self.ctx_id == before.ctx_id,
            self.schema == before.schema,
            forall|z: usize| z != y ==> self.nodes.has(z) == before.nodes.has(z),
            forall|z: usize| z != y && before.nodes.has(z) ==> self.nodes.value(z) == before.nodes.value(z),
        ensures
            self.sound(),
            forall|t: usize| self.bucketed(t) == before.bucketed(t),
            forall|t: usize| self.back(t) == before.back(t),
            forall|s: Set<(usize, usize, usize)>| before.linked_except(y, s) ==> self.linked_except(y, s),
            self.events_except(y) == before.events_except(y),
    {
        assert(self.events_except(y) =~= before.events_except(y));
        assert forall|s: Set<(usize, usize, usize)>| before.linked_except(y, s) implies self.linked_except(y, s) by {
            assert forall|t: usize, r: (usize, usize, usize)| #[trigger]
                self.back(t).contains(r) <==> if r.0 == y {
                    s.contains((t, r.1, r.2))
                } else {
                    self.has(r.0) && self.node(r.0).has_link(t, r.1, r.2)
                } by {
                assert(before.back(t).contains(r) <==> if r.0 == y {
                    s.contains((t, r.1, r.2))
                } else {
                    before.has(r.0) && before.node(r.0).has_link(t, r.1, r.2)
                });
            }
        }
    }

    /// With nothing recorded for a source that holds no node, the index is
    /// exactly linked.
    pub(crate) proof fn lemma_linked_absent(&self, y: usize)
        requires
            !self.has(y),
        ensures
            self.linked() <==> self.linked_except(y, Set::empty()),
            self.events() == self.events_except(y),
    {
        assert(self.events() =~= self.events_except(y));
        if self.linked() {
            assert forall|t: usize, r: (usize, usize, usize)| #[trigger]
                self.back(t).contains(r) <==> if r.0 == y {
                    Set::<(usize, usize, usize)>::empty().contains((t, r.1, r.2))
                } else {
                    self.has(r.0) && self.node(r.0).has_link(t, r.1, r.2)
                } by {
                assert(self.back(t).contains(r) <==> self.has(r.0) && self.node(r.0).has_link(
                    t,
                    r.1,
                    r.2,
                ));
            }
        }
        if self.linked_except(y, Set::empty()) {
            assert forall|t: usize, r: (usize, usize, usize)| #[trigger]
                self.back(t).contains(r) <==> self.has(r.0) && self.node(r.0).has_link(
                    t,
                    r.1,
                    r.2,
                ) by {
                assert(self.back(t).contains(r) <==> if r.0 == y {
                    Set::<(usize, usize, usize)>::empty().contains((t, r.1, r.2))
                } else {
                    self.has(r.0) && self.node(r.0).has_link(t, r.1, r.2)
                });
            }
        }
    }

    /// Stores a new node under `x` and enters its links into the index.
    pub(crate) fn put_node(
        &mut self,
        x: NodeIndex,
        node: Node<D>,
        lcr: &mut LinkChangeRecorder,
        Ghost(init): Ghost<Set<(usize, usize, usize)>>,
    )
        requires
            old(self).wf(),
            x.0 != 0,
            !old(self).has(x.0),
            old(lcr).wf(),
            net(old(lcr).adds(), old(lcr).removes(), init, old(self).events()),
        ensures
            final(self).wf(),
            final(self).context_id() == old(self).context_id(),
            final(self).schema == old(self).schema,
            final(self).order() == old(self).order().push(x.0),
            forall|z: usize| final(self).has(z) == (z == x.0 || old(self).has(z)),
            final(self).node(x.0) == node@,
            forall|z: usize| old(self).has(z) ==> final(self).node(z) == old(self).node(z),
            final(self).map() == old(self).map().insert(x.0, node@),
            final(lcr).wf(),
            net(final(lcr).adds(), final(lcr).removes(), init, final(self).events()),
    {
        let ghost g0 = *self;
        let r = self.nodes.try_fill_back(x, node);
        let ghost g1 = *self;
        proof {
            g1.nodes.lemma_after_push(&g0.nodes, x.0, node);
            g0.lemma_linked_absent(x.0);
            g1.lemma_node_swapped(&g0, x.0);
        }
        self.attach(x, lcr, Ghost(init));
        proof {
            self.lemma_same_nodes(&g1);
            assert(self.map() =~= g0.map().insert(x.0, node@));
        }
    }

    /// Lets `f` change node `x` in place, and brings the index up to date.
    /// Gives the node as it was handed to `f` and as `f` left it.
    pub(crate) fn rewrite_node<M: FnOnce(&mut Node<D>)>(
        &mut self,
        x: NodeIndex,
        f: M,
        lcr: &mut LinkChangeRecorder,
        Ghost(init): Ghost<Set<(usize, usize, usize)>>,
    ) -> (w: Ghost<(Node<D>, Node<D>)>)
        requires
            old(self).wf(),
            old(self).has(x.0),
            forall|n: &mut Node<D>| call_requires(f, (n,)),
            old(lcr).wf(),
            net(old(lcr).adds(), old(lcr).removes(), init, old(self).events()),
        ensures
            final(self).wf(),
            final(self).context_id() == old(self).context_id(),
            final(self).schema == old(self).schema,
            final(self).order() == old(self).order(),
            forall|z: usize| final(self).has(z) == old(self).has(z),
            forall|z: usize| z != x.0 && old(self).has(z) ==> final(self).node(z) == old(self).node(z),
            w@.0@ == old(self).node(x.0),
            w@.1@ == final(self).node(x.0),
            exists|n: &mut Node<D>|
                *n == w@.0 && *final(n) == w@.1 && #[trigger] call_ensures(f, (n,), ()),
            final(lcr).wf(),
            net(final(lcr).adds(), final(lcr).removes(), init, final(self).events()),
    {
        let ghost g0 = *self;
        self.detach(x, lcr, Ghost(init));
        let ghost g1 = *self;
        proof {
            g1.lemma_same_nodes(&g0);
        }
        let ghost mut w = (g1.nodes.value(x.0), g1.nodes.value(x.0));
        match self.nodes.get_mut(x) {
            Some(n) => {
                f(n);
                proof {
                    w = (w.0, *n);
                }
            },
            None => {},
        }
        let ghost g2 = *self;
        proof {
            g1.nodes.lemma_wf();
            g2.nodes.lemma_after_update(&g1.nodes, x.0);
            g2.lemma_node_swapped(&g1, x.0);
        }
        self.attach(x, lcr, Ghost(init));
        proof {
            self.lemma_same_nodes(&g2);
            assert forall|z: usize| self.has(z) implies self.bucketed(z) by {
                assert(g0.bucketed(z));
            }
        }
        Ghost(w)
    }

    /// Points every link to `from` at `to`, in all nodes that hold one, and
    /// brings the index up to date. An empty `to` removes the links.
    pub(crate) fn retarget(
        &mut self,
        from: NodeIndex,
        to: NodeIndex,
        lcr: &mut LinkChangeRecorder,
        Ghost(init): Ghost<Set<(usize, usize, usize)>>,
    )
        requires
            old(self).wf(),
            old(lcr).wf(),
            net(old(lcr).adds(), old(lcr).removes(), init, old(self).events()),
        ensures
            final(self).wf(),
            final(self).context_id() == old(self).context_id(),
            final(self).schema == old(self).schema,
            final(self).order() == old(self).order(),
            forall|z: usize| final(self).has(z) == old(self).has(z),
            forall|z: usize|
                old(self).has(z) ==> final(self).node(z) == old(self).node(z).redirected(from.0, to.0),
            final(self).map() == crate::model::redirected(old(self).map(), from.0, to.0),
            forall|t: usize| old(self).bucketed(t) ==> final(self).bucketed(t),
            final(lcr).wf(),
            net(final(lcr).adds(), final(lcr).removes(), init, final(self).events()),
    {
        let ghost g0 = *self;
        if from.0 == 0 || from.0 == to.0 {
            proof {
                assert forall|z: usize| self.has(z) implies self.node(z) == self.node(z).redirected(
                    from.0,
                    to.0,
                ) by {
                    assert(self.node(z).redirected(from.0, to.0).links =~= self.node(z).links);
                }
                assert(self.map() =~= crate::model::redirected(g0.map(), from.0, to.0));
            }
            return ;
        }
        let entries = self.back_links.entries(from.0);
        let mut i: usize = 0;
        while i < entries.len()
            invariant
                i <= entries.len(),
                from.0 != 0,
                from.0 != to.0,
                g0.wf(),
                entries@.to_set() == g0.back(from.0),
                self.wf(),
                self.ctx_id == g0.ctx_id,
                self.schema == g0.schema,
                self.order() == g0.order(),
                forall|z: usize| self.has(z) == g0.has(z),
                forall|t: usize| g0.bucketed(t) ==> self.bucketed(t),
                forall|z: usize|
                    g0.has(z) ==> self.node(z) == (if exists|j: int|
                        0 <= j < i && entries@[j].0 == z {
                        g0.node(z).redirected(from.0, to.0)
                    } else {
                        g0.node(z)
                    }),
                lcr.wf(),
                net(lcr.adds(), lcr.removes(), init, self.events()),
            decreases entries.len() - i,
        {
            let rec = entries[i];
            let y = NodeIndex(rec.0);
            let ghost done_before = exists|j: int| 0 <= j < i && entries@[j].0 == y.0;
            proof {
                assert(entries@.to_set().contains(rec));
                assert(g0.back(from.0).contains(rec));
                assert(g0.has(y.0) && g0.node(y.0).has_link(from.0, rec.1, rec.2));
                assert(g0.node(y.0).links[rec.1 as int].holds(from.0, rec.2));
                assert(g0.node(y.0).points_to(rec.1, from.0));
                g0.node(y.0).lemma_redirected(from.0, to.0, from.0, rec.1, 0);
                assert forall|p: usize| !g0.node(y.0).redirected(from.0, to.0).has_link(
                    from.0,
                    rec.1,
                    p,
                ) by {
                    g0.node(y.0).lemma_redirected(from.0, to.0, from.0, rec.1, p);
                }
            }
            let still = match self.nodes.get(y) {
                Some(n) => n.contains_link(rec.1, from),
                None => false,
            };
            proof {
                assert(still == self.node(y.0).points_to(rec.1, from.0));
                if done_before {
                    assert(!still) by {
                        if self.node(y.0).points_to(rec.1, from.0) {
                            let p = choose|p: usize|
                                self.node(y.0).links[rec.1 as int].holds(from.0, p);
                            assert(self.node(y.0).has_link(from.0, rec.1, p));
                        }
                    }
                } else {
                    assert(still);
                }
            }
            if still {
                let ghost g1 = *self;
                self.detach(y, lcr, Ghost(init));
                let ghost g2 = *self;
                proof {
                    g2.lemma_same_nodes(&g1);
                }
                match self.nodes.get_mut(y) {
                    Some(n) => {
                        n.redirect_all(from, to);
                    },
                    None => {},
                }
                let ghost g3 = *self;
                proof {
                    g2.nodes.lemma_wf();
                    g3.nodes.lemma_after_update(&g2.nodes, y.0);
                    g3.lemma_node_swapped(&g2, y.0);
                }
                self.attach(y, lcr, Ghost(init));
                proof {
                    self.lemma_same_nodes(&g3);
                    assert forall|z: usize| self.has(z) implies self.bucketed(z) by {
                        assert(g1.bucketed(z));
                    }
                }
            }
            proof {
                assert forall|z: usize| g0.has(z) implies self.node(z) == (if exists|j: int|
                    0 <= j < i + 1 && entries@[j].0 == z {
                    g0.node(z).redirected(from.0, to.0)
                } else {
                    g0.node(z)
                }) by {
                    let was = exists|j: int| 0 <= j < i && entries@[j].0 == z;
                    let now = exists|j: int| 0 <= j < i + 1 && entries@[j].0 == z;
                    if was {
                        let j = choose|j: int| 0 <= j < i && entries@[j].0 == z;
                        assert(0 <= j < i + 1 && entries@[j].0 == z);
                    }
                    if z == y.0 {
                        assert(0 <= i < i + 1 && entries@[i as int].0 == z);
                    }
                    if now && !was {
                        let j = choose|j: int| 0 <= j < i + 1 && entries@[j].0 == z;
                        assert(j == i);
                    }
                }
            }
            i = i + 1;
        }
        proof {
            assert forall|z: usize| g0.has(z) implies self.node(z) == g0.node(z).redirected(
                from.0,
                to.0,
            ) by {
                if !(exists|j: int| 0 <= j < entries@.len() && entries@[j].0 == z) {
                    g0.nodes.value(z).lemma_fits();
                    assert forall|f: usize, p: usize| !g0.node(z).has_link(from.0, f, p) by {
                        if g0.node(z).has_link(from.0, f, p) {
                            assert(g0.back(from.0).contains((z, f, p)));
                            assert(entries@.to_set().contains((z, f, p)));
                            let j = choose|j: int|
                                0 <= j < entries@.len() && entries@[j] == (z, f, p);
                            assert(entries@[j].0 == z);
                        }
                    }
                    g0.node(z).lemma_redirected_absent(from.0, to.0);
                }
            }
            assert(self.map() =~= crate::model::redirected(g0.map(), from.0, to.0));
        }
    }

    /// Takes node `x` out, stores what `f` makes of it under the same index,
    /// and brings the index up to date. The node moves to the end of the
    /// order, and the last node takes its former place.
    pub(crate) fn update_node<U: FnOnce(Node<D>) -> Node<D>>(
        &mut self,
        x: NodeIndex,
        f: U,
        lcr: &mut LinkChangeRecorder,
        Ghost(init): Ghost<Set<(usize, usize, usize)>>,
    )
        requires
            old(self).wf(),
            old(self).has(x.0),
            forall|n: Node<D>| call_requires(f, (n,)),
            old(lcr).wf(),
            net(old(lcr).adds(), old(lcr).removes(), init, old(self).events()),
        ensures
            final(self).wf(),
            final(self).context_id() == old(self).context_id(),
            final(self).schema == old(self).schema,
            final(self).order() == crate::order_set::swap_removed(
                old(self).order(),
                old(self).order().index_of(x.0),
            ).push(x.0),
            forall|z: usize| final(self).has(z) == old(self).has(z),
            forall|z: usize| z != x.0 && old(self).has(z) ==> final(self).node(z) == old(self).node(z),
            crate::model::replaced(f, old(self).node(x.0), final(self).node(x.0)),
            final(lcr).wf(),
            net(final(lcr).adds(), final(lcr).removes(), init, final(self).events()),
    {
        let ghost g0 = *self;
        proof {
            g0.nodes.lemma_wf();
        }
        self.detach(x, lcr, Ghost(init));
        let ghost g1 = *self;
        proof {
            g1.lemma_same_nodes(&g0);
        }
        match self.nodes.remove(x) {
            Some(n) => {
                let ghost g2 = *self;
                proof {
                    g2.nodes.lemma_after_remove(&g1.nodes, x.0);
                    g2.lemma_node_swapped(&g1, x.0);
                }
                let m = f(n);
                let r = self.nodes.try_fill_back(x, m);
                let ghost g3 = *self;
                proof {
                    g3.nodes.lemma_after_push(&g2.nodes, x.0, m);
                    g3.lemma_node_swapped(&g2, x.0);
                }
                self.attach(x, lcr, Ghost(init));
                proof {
                    self.lemma_same_nodes(&g3);
                    assert forall|z: usize| self.has(z) implies self.bucketed(z) by {
                        assert(g0.bucketed(z));
                    }
                }
            },
            None => {},
        }
    }

    /// Removes node `x`: takes its links out of the index, removes the node,
    /// clears every link that pointed at it, and drops its entry in the
    /// reverse index.
    pub(crate) fn drop_node(
        &mut self,
        x: NodeIndex,
        lcr: &mut LinkChangeRecorder,
        Ghost(init): Ghost<Set<(usize, usize, usize)>>,
    )
        requires
            old(self).wf(),
            old(self).has(x.0),
            old(lcr).wf(),
            net(old(lcr).adds(), old(lcr).removes(), init, old(self).events()),
        ensures
            final(self).wf(),
            final(self).context_id() == old(self).context_id(),
            final(self).schema == old(self).schema,
            final(self).order() == crate::order_set::swap_removed(
                old(self).order(),
                old(self).order().index_of(x.0),
            ),
            forall|z: usize| final(self).has(z) == (z != x.0 && old(self).has(z)),
            forall|z: usize|
                z != x.0 && old(self).has(z) ==> final(self).node(z) == old(self).node(z).redirected(
                    x.0,
                    0,
                ),
            final(self).back(x.0) == Set::<(usize, usize, usize)>::empty(),
            !final(self).bucketed(x.0),
            final(self).map() == crate::model::removed(old(self).map(), x.0),
            final(lcr).wf(),
            net(final(lcr).adds(), final(lcr).removes(), init, final(self).events()),
    {
        let ghost g0 = *self;
        proof {
            g0.nodes.lemma_wf();
        }
        self.detach(x, lcr, Ghost(init));
        let ghost g1 = *self;
        proof {
            g1.lemma_same_nodes(&g0);
        }
        let gone = self.nodes.remove(x);
        let ghost g2 = *self;
        proof {
            g2.nodes.lemma_after_remove(&g1.nodes, x.0);
            g2.lemma_node_swapped(&g1, x.0);
            g2.lemma_linked_absent(x.0);
            assert forall|z: usize| g2.has(z) implies g2.bucketed(z) by {
                assert(g0.bucketed(z));
            }
        }
        self.retarget(x, NodeIndex(0), lcr, Ghost(init));
        let ghost g3 = *self;
        proof {
            assert(g3.back(x.0) =~= Set::empty()) by {
                assert forall|r: (usize, usize, usize)| !g3.back(x.0).contains(r) by {
                    if g3.back(x.0).contains(r) {
                        assert(g3.has(r.0) && g3.node(r.0).has_link(x.0, r.1, r.2));
                        g2.node(r.0).lemma_redirected(x.0, 0, x.0, r.1, r.2);
                    }
                }
            }
        }
        self.back_links.remove_key(x.0);
        proof {
            assert forall|t: usize, r: (usize, usize, usize)| #[trigger]
                self.back(t).contains(r) <==> self.has(r.0) && self.node(r.0).has_link(
                    t,
                    r.1,
                    r.2,
                ) by {
                assert(g3.back(t).contains(r) <==> g3.has(r.0) && g3.node(r.0).has_link(
                    t,
                    r.1,
                    r.2,
                ));
                if t == x.0 {
                    assert(!g3.back(t).contains(r));
                } else {
                    assert(self.back(t) == g3.back(t));
                }
            }
            assert(self.events() =~= g3.events());
            assert(self.back(x.0) =~= Set::empty());
            assert forall|z: usize| self.has(z) implies self.bucketed(z) by {
                assert(g3.has(z));
                assert(g2.has(z));
                assert(g2.bucketed(z));
                assert(g3.bucketed(z));
            }
            assert forall|z: usize| z != x.0 && g0.has(z) implies self.node(z) == g0.node(
                z,
            ).redirected(x.0, 0) by {
                assert(g1.has(z));
                assert(g2.has(z));
                assert(g2.node(z) == g1.node(z));
                assert(g1.node(z) == g0.node(z));
                assert(g3.node(z) == g2.node(z).redirected(x.0, 0));
            }
            assert(self.map() =~= crate::model::removed(g0.map(), x.0));
        }
    }
}

} // verus!
