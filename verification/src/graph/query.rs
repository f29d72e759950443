//! Making a graph and reading from it.

use vstd::prelude::*;
use crate::arena::Arena;
use crate::back_links::BackLinks;
use crate::context::Context;
use crate::graph::Graph;
use crate::index::NodeIndex;
use crate::link::Source;
use crate::node::Node;
use crate::schema::Schema;

verus! {

/// Filtering the first `k + 1` items is filtering the first `k` and then
/// looking at item `k`.
pub proof fn lemma_filter_step(s: Seq<usize>, pred: spec_fn(usize) -> bool, k: int)
    requires
        0 <= k < s.len(),
    ensures
        s.take(k + 1).filter(pred) == if pred(s[k]) {
            s.take(k).filter(pred).push(s[k])
        } else {
            s.take(k).filter(pred)
        },
{
    reveal_with_fuel(Seq::<_>::filter, 2);
    let t = s.take(k + 1);
    assert(t.drop_last() =~= s.take(k));
    assert(t.last() == s[k]);
}

/// Filtering no items gives no items.
pub proof fn lemma_filter_none(s: Seq<usize>, pred: spec_fn(usize) -> bool)
    ensures
        s.take(0).filter(pred) == Seq::<usize>::empty(),
{
    reveal_with_fuel(Seq::<_>::filter, 2);
    assert(s.take(0).filter(pred) =~= Seq::empty());
}

impl<D> Graph<D> {
    /// The invariant of the graph, spelled out for one link: node `x` holds
    /// a link to `t` in field `f` at position `p` if and only if the reverse
    /// index holds the record `(x, f, p)` for `t`. Every node has an entry in
    /// the reverse index, with or without records.
    pub proof fn lemma_back_links(&self, x: usize, t: usize, f: usize, p: usize)
        requires
            self.wf(),
        ensures
            self.has(x) && self.node(x).has_link(t, f, p) <==> self.back(t).contains((x, f, p)),
            self.has(x) ==> self.bucketed(x),
    {
        assert(self.back(t).contains((x, f, p)) <==> self.has((x, f, p).0) && self.node(
            (x, f, p).0,
        ).has_link(t, (x, f, p).1, (x, f, p).2));
    }

    /// An index for which the reverse index holds a record has an entry in
    /// the reverse index.
    pub proof fn lemma_record_has_bucket(&self, t: usize, r: (usize, usize, usize))
        requires
            self.back(t).contains(r),
        ensures
            self.bucketed(t),
    {
    }

    /// What the accessors stand for, for the transaction.
    pub(crate) proof fn lemma_arena(&self)
        ensures
            self.order() == self.nodes.keys(),
            forall|x: usize| self.has(x) == self.nodes.has(x),
            forall|x: usize| self.node(x) == self.nodes.value(x)@,
            self.context_id() == self.ctx_id,
            self.wf() ==> self.nodes.wf(),
    {
    }

    /// Two graphs with the same order hold the same indices.
    pub proof fn lemma_order(&self, other: &Graph<D>)
        requires
            self.order() == other.order(),
        ensures
            forall|x: usize| self.has(x) == other.has(x),
    {
    }

    /// The node stored under `x`, taken as a mathematical value, is the node
    /// under `x`.
    pub proof fn lemma_stored(&self, x: usize)
        ensures
            self.stored(x)@ == self.node(x),
    {
    }

    /// A graph holds no node under the empty index, and holds no index
    /// twice in its order.
    pub proof fn lemma_indices(&self)
        requires
            self.wf(),
        ensures
            !self.has(0),
            self.order().no_duplicates(),
    {
        self.nodes.lemma_wf();
        if self.has(0) {
            let j = self.lemma_position_of(0);
        }
    }

    /// The index at position `j` of the order is the index of a node.
    pub proof fn lemma_listed(&self, j: int)
        requires
            0 <= j < self.order().len(),
        ensures
            self.has(self.order()[j]),
    {
        assert(self.order().contains(self.order()[j]));
    }

    /// The position of a node in the order.
    pub proof fn lemma_position_of(&self, x: usize) -> (j: int)
        requires
            self.has(x),
        ensures
            0 <= j < self.order().len(),
            self.order()[j] == x,
    {
        choose|j: int| 0 <= j < self.order().len() && self.order()[j] == x
    }

    /// An empty graph of the given context, without declarations.
    pub fn new(context: &Context) -> (g: Self)
        ensures
            g.wf(),
            g.context_id() == context.spec_id(),
            g.order() == Seq::<usize>::empty(),
            forall|x: usize| !g.has(x),
            g.declared().pairs().len() == 0,
            g.declared().constraints().len() == 0,
    {
        Self::with_schema(context, Schema::new())
    }

    /// An empty graph of the given context that goes by the given
    /// declarations.
    pub fn with_schema(context: &Context, schema: Schema) -> (g: Self)
        ensures
            g.wf(),
            g.context_id() == context.spec_id(),
            g.order() == Seq::<usize>::empty(),
            forall|x: usize| !g.has(x),
            g.declared() == schema,
    {
        let g = Graph {
            ctx_id: context.id(),
            schema,
            nodes: Arena::new(context.distributer()),
            back_links: BackLinks::new(),
        };
        proof {
            assert forall|t: usize, r: (usize, usize, usize)| #[trigger]
                g.back(t).contains(r) <==> g.has(r.0) && g.node(r.0).has_link(t, r.1, r.2) by {
            }
        }
        g
    }

    /// The identifier of the context that the graph belongs to.
    pub fn ctx_id(&self) -> (r: u128)
        ensures
            r == self.context_id(),
    {
        self.ctx_id
    }

    /// The declarations that the graph goes by.
    pub fn schema(&self) -> (r: &Schema)
        ensures
            *r == self.declared(),
    {
        &self.schema
    }

    /// The node stored under `idx`, if there is one.
    pub fn get(&self, idx: NodeIndex) -> (r: Option<&Node<D>>)
        requires
            self.sound(),
        ensures
            match r {
                Some(n) => self.has(idx.0) && n@ == self.node(idx.0),
                None => !self.has(idx.0),
            },
    {
        self.nodes.get(idx)
    }

    /// The number of nodes.
    pub fn len(&self) -> (n: usize)
        requires
            self.wf(),
        ensures
            n == self.order().len(),
    {
        self.nodes.len()
    }

    /// Whether the graph has no node.
    pub fn is_empty(&self) -> (r: bool)
        requires
            self.wf(),
        ensures
            r == (self.order().len() == 0),
    {
        self.len() == 0
    }

    /// All nodes with their indices, in iteration order.
    pub fn iter(&self) -> (v: Vec<(NodeIndex, &Node<D>)>)
        requires
            self.sound(),
        ensures
            v@.len() == self.order().len(),
            forall|j: int|
                0 <= j < v@.len() ==> v@[j].0.0 == self.order()[j] && self.has(v@[j].0.0) && v@[j].1@
                    == self.node(v@[j].0.0),
    {
        let v = self.nodes.iter();
        proof {
            assert forall|j: int| 0 <= j < v@.len() implies v@[j].0.0 == self.order()[j]
                && self.has(v@[j].0.0) && v@[j].1@ == self.node(v@[j].0.0) by {
                self.nodes.lemma_position(j);
            }
        }
        v
    }

    /// The indices, in iteration order, of the nodes of the given shape.
    pub open spec fn of_shape(&self, shape: usize) -> Seq<usize> {
        self.order().filter(|x: usize| self.node(x).shape == shape)
    }

    /// The nodes of the given shape with their indices, in iteration order.
    pub fn iter_type(&self, shape: usize) -> (v: Vec<(NodeIndex, &Node<D>)>)
        requires
            self.wf(),
        ensures
            v@.len() == self.of_shape(shape).len(),
            forall|j: int|
                0 <= j < v@.len() ==> v@[j].0.0 == self.of_shape(shape)[j] && v@[j].1@ == self.node(
                    v@[j].0.0,
                ),
    {
        let all = self.iter();
        let ghost pred = |x: usize| self.node(x).shape == shape;
        let mut v: Vec<(NodeIndex, &Node<D>)> = Vec::new();
        let mut k: usize = 0;
        proof {
            lemma_filter_none(self.order(), pred);
        }
        while k < all.len()
            invariant
                k <= all.len(),
                all@.len() == self.order().len(),
                forall|j: int|
                    0 <= j < all@.len() ==> all@[j].0.0 == self.order()[j] && all@[j].1@
                        == self.node(all@[j].0.0),
                pred == |x: usize| self.node(x).shape == shape,
                v@.len() == self.order().take(k as int).filter(pred).len(),
                forall|j: int|
                    0 <= j < v@.len() ==> v@[j].0.0 == self.order().take(k as int).filter(pred)[j]
                        && v@[j].1@ == self.node(v@[j].0.0),
            decreases all.len() - k,
        {
            let e = all[k];
            proof {
                lemma_filter_step(self.order(), pred, k as int);
                let s = self.order().take(k + 1);
                assert(e.1@ == self.node(self.order()[k as int]));
                assert(pred(self.order()[k as int]) == (e.1@.shape == shape));
            }
            if e.1.shape == shape {
                v.push(e);
            }
            k = k + 1;
        }
        assert(self.order().take(all@.len() as int) =~= self.order());
        v
    }

    /// The indices, in iteration order, of the nodes whose shape belongs to
    /// a group named `name`.
    pub open spec fn of_group(&self, name: Seq<char>) -> Seq<usize> {
        self.order().filter(|x: usize| self.declared().grouped(self.node(x).shape, name))
    }

    /// The nodes whose shape belongs to a group named `name`, with their
    /// indices, in iteration order. An unknown name gives no node.
    pub fn iter_group(&self, name: &String) -> (v: Vec<(NodeIndex, &Node<D>)>)
        requires
            self.wf(),
        ensures
            v@.len() == self.of_group(name@).len(),
            forall|j: int|
                0 <= j < v@.len() ==> v@[j].0.0 == self.of_group(name@)[j] && v@[j].1@ == self.node(
                    v@[j].0.0,
                ),
    {
        let all = self.iter();
        let ghost pred = |x: usize| self.declared().grouped(self.node(x).shape, name@);
        let mut v: Vec<(NodeIndex, &Node<D>)> = Vec::new();
        let mut k: usize = 0;
        proof {
            lemma_filter_none(self.order(), pred);
        }
        while k < all.len()
            invariant
                k <= all.len(),
                all@.len() == self.order().len(),
                forall|j: int|
                    0 <= j < all@.len() ==> all@[j].0.0 == self.order()[j] && all@[j].1@
                        == self.node(all@[j].0.0),
                pred == |x: usize| self.declared().grouped(self.node(x).shape, name@),
                v@.len() == self.order().take(k as int).filter(pred).len(),
                forall|j: int|
                    0 <= j < v@.len() ==> v@[j].0.0 == self.order().take(k as int).filter(pred)[j]
                        && v@[j].1@ == self.node(v@[j].0.0),
            decreases all.len() - k,
        {
            let e = all[k];
            let inside = self.schema.in_group(e.1.shape, name);
            proof {
                lemma_filter_step(self.order(), pred, k as int);
                let s = self.order().take(k + 1);
                assert(e.1@ == self.node(self.order()[k as int]));
                assert(e.1@ == self.node(self.order()[k as int]));
                assert(inside == self.declared().grouped(e.1@.shape, name@));
                assert(pred(self.order()[k as int]) == inside);
            }
            if inside {
                v.push(e);
            }
            k = k + 1;
        }
        assert(self.order().take(all@.len() as int) =~= self.order());
        v
    }

    /// The links that point at `idx`: for each, the node that holds it and
    /// where in that node it sits. Each link is listed once.
    pub fn back_links(&self, idx: NodeIndex) -> (v: Vec<(NodeIndex, Source)>)
        requires
            self.wf(),
        ensures
            v@.no_duplicates(),
            forall|x: usize, f: usize, p: usize|
                #[trigger] v@.contains((NodeIndex(x), Source { field: f, pos: p })) <==> self.has(x)
                    && self.node(x).has_link(idx.0, f, p),
    {
        let recs = self.back_links.entries(idx.0);
        let v = crate::node::wrap_records(&recs);
        proof {
            assert forall|x: usize, f: usize, p: usize|
                #[trigger] v@.contains((NodeIndex(x), Source { field: f, pos: p })) <==> self.has(x)
                    && self.node(x).has_link(idx.0, f, p) by {
                self.lemma_back_links(x, idx.0, f, p);
                assert(recs@.contains((x, f, p)) <==> recs@.to_set().contains((x, f, p)));
            }
        }
        v
    }

    /// Whether every link of every node points at a node of the graph.
    pub open spec fn closed_under_links(&self) -> bool {
        forall|x: usize, t: usize, f: usize, p: usize|
            self.has(x) && #[trigger] self.node(x).has_link(t, f, p) ==> self.has(t)
    }

    /// Checks that every link of every node points at a node of the graph.
    pub fn check_integrity(&self) -> (r: bool)
        requires
            self.wf(),
        ensures
            r == self.closed_under_links(),
    {
        let all = self.iter();
        let mut k: usize = 0;
        while k < all.len()
            invariant
                k <= all.len(),
                self.wf(),
                all@.len() == self.order().len(),
                forall|j: int|
                    0 <= j < all@.len() ==> all@[j].0.0 == self.order()[j] && self.has(all@[j].0.0)
                        && all@[j].1@ == self.node(all@[j].0.0),
                forall|j: int, t: usize, f: usize, p: usize|
                    0 <= j < k && #[trigger] self.node(self.order()[j]).has_link(t, f, p)
                        ==> self.has(t),
            decreases all.len() - k,
        {
            let recs = all[k].1.link_records();
            let ghost x = self.order()[k as int];
            proof {
                assert(all@[k as int].1@ == self.node(x));
                assert(self.has(x));
            }
            let mut i: usize = 0;
            while i < recs.len()
                invariant
                    i <= recs.len(),
                    self.wf(),
                    self.has(x),
                    recs@.to_set() == self.node(x).link_set(),
                    forall|q: int| 0 <= q < i ==> self.has(recs@[q].0),
                decreases recs.len() - i,
            {
                if !self.nodes.contains(NodeIndex(recs[i].0)) {
                    proof {
                        let r = recs@[i as int];
                        assert(recs@.to_set().contains(r));
                        assert(self.node(x).link_set().contains(r));
                        assert(self.node(x).has_link(r.0, r.1, r.2));
                    }
                    return false;
                }
                i = i + 1;
            }
            proof {
                assert forall|t: usize, f: usize, p: usize| #[trigger]
                    self.node(x).has_link(t, f, p) implies self.has(t) by {
                    assert(recs@.to_set().contains((t, f, p)));
                    let q = choose|q: int| 0 <= q < recs@.len() && recs@[q] == (t, f, p);
                }
            }
            k = k + 1;
        }
        proof {
            assert forall|x: usize, t: usize, f: usize, p: usize|
                self.has(x) && #[trigger] self.node(x).has_link(t, f, p) implies self.has(t) by {
                let j = choose|j: int| 0 <= j < self.order().len() && self.order()[j] == x;
                assert(self.node(self.order()[j]).has_link(t, f, p));
            }
        }
        true
    }

    /// Whether every node has an entry in the reverse index, and every link
    /// of the first `k` nodes has its record.
    pub open spec fn recorded_upto(&self, k: int) -> bool {
        forall|j: int|
            0 <= j < k ==> self.bucketed(#[trigger] self.order()[j]) && forall|
                r: (usize, usize, usize),
            |
                self.node(self.order()[j]).has_link(r.0, r.1, r.2) ==> #[trigger] self.back(
                    r.0,
                ).contains((self.order()[j], r.1, r.2))
    }

    /// Whether every record held for one of the first `k` of the targets
    /// `ts` is a link of a node.
    pub open spec fn founded_upto(&self, ts: Seq<usize>, k: int) -> bool {
        forall|j: int, r: (usize, usize, usize)|
            0 <= j < k && #[trigger] self.back(ts[j]).contains(r) ==> self.has(r.0) && self.node(
                r.0,
            ).has_link(ts[j], r.1, r.2)
    }

    /// Checks the reverse index against the links of the nodes, both ways:
    /// every node must have an entry, every link its record, and every
    /// record its link. In a graph that was only changed by commits this
    /// never fails.
    pub fn check_backlinks(&self) -> (r: bool)
        requires
            self.sound(),
        ensures
            r == (self.linked() && self.covered()),
            self.wf() ==> r,
    {
        let all = self.iter();
        let mut k: usize = 0;
        while k < all.len()
            invariant
                k <= all.len(),
                self.sound(),
                all@.len() == self.order().len(),
                forall|j: int|
                    0 <= j < all@.len() ==> all@[j].0.0 == self.order()[j] && self.has(all@[j].0.0)
                        && all@[j].1@ == self.node(all@[j].0.0),
                self.recorded_upto(k as int),
            decreases all.len() - k,
        {
            let x = all[k].0;
            proof {
                assert(x.0 == self.order()[k as int]);
                assert(self.has(x.0));
                assert(all@[k as int].1@ == self.node(x.0));
            }
            if !self.back_links.contains_key(x.0) {
                return false;
            }
            let recs = all[k].1.link_records();
            let mut i: usize = 0;
            while i < recs.len()
                invariant
                    i <= recs.len(),
                    self.sound(),
                    self.has(x.0),
                    recs@.to_set() == self.node(x.0).link_set(),
                    forall|q: int|
                        0 <= q < i ==> self.back((#[trigger] recs@[q]).0).contains(
                            (x.0, recs@[q].1, recs@[q].2),
                        ),
                decreases recs.len() - i,
            {
                let rec = recs[i];
                proof {
                    assert(recs@.to_set().contains(rec));
                    assert(self.node(x.0).link_set().contains(rec));
                    assert(self.node(x.0).has_link(rec.0, rec.1, rec.2));
                }
                if !self.back_links.contains(rec.0, (x.0, rec.1, rec.2)) {
                    proof {
                        assert(!self.back(rec.0).contains((x.0, rec.1, rec.2)));
                        assert(!self.linked());
                    }
                    return false;
                }
                i = i + 1;
            }
            proof {
                assert forall|r: (usize, usize, usize)|
                    self.node(x.0).has_link(r.0, r.1, r.2) implies #[trigger] self.back(
                    r.0,
                ).contains((x.0, r.1, r.2)) by {
                    assert(self.node(x.0).link_set().contains(r));
                    assert(recs@.to_set().contains(r));
                    let q = choose|q: int| 0 <= q < recs@.len() && recs@[q] == r;
                    assert(self.back(recs@[q].0).contains((x.0, recs@[q].1, recs@[q].2)));
                }
            }
            k = k + 1;
        }
        let ts = self.back_links.targets();
        let mut k: usize = 0;
        while k < ts.len()
            invariant
                k <= ts.len(),
                self.sound(),
                self.recorded_upto(self.order().len() as int),
                forall|t: usize| ts@.contains(t) <==> self.bucketed(t),
                self.founded_upto(ts@, k as int),
            decreases ts.len() - k,
        {
            let t = ts[k];
            let held = self.back_links.entries(t);
            let mut i: usize = 0;
            while i < held.len()
                invariant
                    i <= held.len(),
                    self.sound(),
                    held@.to_set() == self.back(t),
                    forall|q: int|
                        0 <= q < i ==> self.has((#[trigger] held@[q]).0) && self.node(
                            held@[q].0,
                        ).has_link(t, held@[q].1, held@[q].2),
                decreases held.len() - i,
            {
                let rec = held[i];
                proof {
                    assert(held@.to_set().contains(rec));
                    assert(self.back(t).contains(rec));
                }
                let there = match self.get(NodeIndex(rec.0)) {
                    Some(n) => holds_record(n, (t, rec.1, rec.2)),
                    None => false,
                };
                if !there {
                    proof {
                        assert(!self.linked());
                    }
                    return false;
                }
                i = i + 1;
            }
            proof {
                assert forall|j: int, r: (usize, usize, usize)|
                    0 <= j < k + 1 && #[trigger] self.back(ts@[j]).contains(r) implies self.has(r.0)
                    && self.node(r.0).has_link(ts@[j], r.1, r.2) by {
                    if j == k {
                        assert(held@.to_set().contains(r));
                        let q = choose|q: int| 0 <= q < held@.len() && held@[q] == r;
                        assert(self.has(held@[q].0));
                    }
                }
            }
            k = k + 1;
        }
        proof {
            assert forall|t: usize, r: (usize, usize, usize)| #[trigger]
                self.back(t).contains(r) <==> self.has(r.0) && self.node(r.0).has_link(
                    t,
                    r.1,
                    r.2,
                ) by {
                if self.back(t).contains(r) {
                    assert(self.bucketed(t));
                    assert(ts@.contains(t));
                    let j = choose|j: int| 0 <= j < ts@.len() && ts@[j] == t;
                    assert(self.back(ts@[j]).contains(r));
                }
                if self.has(r.0) && self.node(r.0).has_link(t, r.1, r.2) {
                    let j = self.lemma_position_of(r.0);
                    assert(self.bucketed(self.order()[j]));
                    let link = (t, r.1, r.2);
                    assert(self.node(self.order()[j]).has_link(link.0, link.1, link.2));
                    assert(self.back(link.0).contains((self.order()[j], link.1, link.2)));
                    assert(r == (self.order()[j], link.1, link.2));
                }
            }
            assert forall|x: usize| self.has(x) implies self.bucketed(x) by {
                let j = self.lemma_position_of(x);
                assert(self.bucketed(self.order()[j]));
            }
        }
        true
    }
}

/// Whether node `n` holds the link given as the record `rec`: target,
/// field and position.
pub fn holds_record<D>(n: &Node<D>, rec: (usize, usize, usize)) -> (r: bool)
    ensures
        r == n@.has_link(rec.0, rec.1, rec.2),
{
    let recs = n.link_records();
    let mut i: usize = 0;
    while i < recs.len()
        invariant
            i <= recs.len(),
            recs@.to_set() == n@.link_set(),
            forall|q: int| 0 <= q < i ==> recs@[q] != rec,
        decreases recs.len() - i,
    {
        let at = recs[i];
        if at.0 == rec.0 && at.1 == rec.1 && at.2 == rec.2 {
            proof {
                assert(recs@.to_set().contains(rec));
                assert(n@.link_set().contains(rec));
            }
            return true;
        }
        i = i + 1;
    }
    proof {
        if n@.has_link(rec.0, rec.1, rec.2) {
            assert(n@.link_set().contains(rec));
            assert(recs@.to_set().contains(rec));
        }
    }
    false
}

} // verus!
