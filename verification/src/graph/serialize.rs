//! Writing a graph out as a list of nodes, and building a graph from such a
//! list.
//!
//! The list holds what cannot be rebuilt: the identifier of the context and
//! the nodes with their indices, in iteration order. The reverse index is
//! rebuilt from the links of the nodes.

use vstd::prelude::*;
use crate::arena::clashes;
use crate::changes::LinkChangeRecorder;
use crate::context::Context;
use crate::error::CommitError;
use crate::graph::Graph;
use crate::index::NodeIndex;
use crate::node::{Node, NodeModel};
use crate::schema::Schema;

verus! {

/// A graph as a list of nodes.
#[derive(Debug)]
pub struct GraphSerializer<D> {
    pub ctx_id: u128,
    pub nodes: Vec<(NodeIndex, Node<D>)>,
}

/// A list of nodes as mathematical values: each index with its node.
pub open spec fn models<D>(nodes: Seq<(NodeIndex, Node<D>)>) -> Seq<(usize, NodeModel<D>)> {
    Seq::new(nodes.len(), |j: int| (nodes[j].0.0, nodes[j].1@))
}

/// Whether `h` is the graph that a list of nodes stands for under `schema`:
/// the listed nodes under the listed indices, in the listed order, and the
/// reverse index that follows from their links.
pub open spec fn stands_for<D>(nodes: Seq<(usize, NodeModel<D>)>, h: &Graph<D>, schema: Schema) -> bool {
    &&& h.wf()
    &&& h.declared() == schema
    &&& h.order() == Seq::new(nodes.len(), |j: int| nodes[j].0)
    &&& forall|j: int| 0 <= j < nodes.len() ==> h.node((#[trigger] nodes[j]).0) == nodes[j].1
}

/// The nodes of a list stored under their indices, one after the other.
pub open spec fn stored_list<D>(nodes: Seq<(NodeIndex, Node<D>)>) -> crate::model::Nodes<D> {
    crate::model::inserted(
        Map::empty(),
        crate::graph::commit::indices(nodes),
        crate::graph::commit::values(nodes),
        nodes.len(),
    )
}

/// Whether `lcr` is the record of the links of the listed nodes: each link
/// once, and nothing that went away.
pub open spec fn records_list<D>(nodes: Seq<(NodeIndex, Node<D>)>, lcr: &LinkChangeRecorder) -> bool {
    &&& lcr.adds() == crate::model::links(stored_list(nodes))
    &&& lcr.adds_seq().no_duplicates()
    &&& lcr.removes_seq().len() == 0
}

/// Whether `e` is the error that building a graph from the list `nodes`
/// gives: that of the first listed index that is empty or listed twice.
pub open spec fn build_fails<D>(nodes: Seq<(NodeIndex, Node<D>)>, e: CommitError) -> bool {
    exists|j: int| #[trigger]
        crate::arena::first_clash_at(Seq::<usize>::empty(), nodes, j) && e
            == CommitError::IndexCollision(nodes[j].0)
}

/// The nodes of a list of nodes and indices, stored under their indices one
/// after the other.
pub open spec fn listed_nodes<D>(list: Seq<(usize, NodeModel<D>)>) -> crate::model::Nodes<D> {
    crate::model::inserted(
        Map::empty(),
        Seq::new(list.len(), |j: int| list[j].0),
        Seq::new(list.len(), |j: int| list[j].1),
        list.len(),
    )
}

/// Whether index `j` of `ids` is empty or stands in `ids` before.
pub open spec fn id_clashes(ids: Seq<usize>, j: int) -> bool {
    ids[j] == 0 || exists|q: int| 0 <= q < j && ids[q] == ids[j]
}

/// Whether one of the indices is empty or stands twice.
pub open spec fn ids_clash(ids: Seq<usize>) -> bool {
    exists|j: int| 0 <= j < ids.len() && id_clashes(ids, j)
}

/// Whether index `j` is the first of `ids` that is empty or stands before.
pub open spec fn first_bad_id(ids: Seq<usize>, j: int) -> bool {
    &&& 0 <= j < ids.len()
    &&& id_clashes(ids, j)
    &&& forall|q: int| 0 <= q < j ==> !id_clashes(ids, q)
}

/// Whether one of the listed indices is empty or listed twice.
pub open spec fn list_clashes<D>(nodes: Seq<(NodeIndex, Node<D>)>) -> bool {
    exists|j: int| 0 <= j < nodes.len() && clashes(Seq::<usize>::empty(), nodes, j)
}

impl<D> GraphSerializer<D> {
    /// Whether this list holds the nodes of `g`, in the order of `g`, and
    /// the context of `g`.
    pub open spec fn serializes(&self, g: &Graph<D>) -> bool {
        &&& self.ctx_id == g.context_id()
        &&& self.nodes@.len() == g.order().len()
        &&& forall|j: int|
            0 <= j < self.nodes@.len() ==> (#[trigger] self.nodes@[j]).0.0 == g.order()[j]
                && self.nodes@[j].1@ == g.node(g.order()[j])
    }

    /// Whether `h` is the graph that this list stands for under `schema`,
    /// in the context of the list.
    pub open spec fn restored_as(&self, h: &Graph<D>, schema: Schema) -> bool {
        &&& h.context_id() == self.ctx_id
        &&& stands_for(models(self.nodes@), h, schema)
    }

    /// The list of the nodes of a graph.
    pub fn from(value: Graph<D>) -> (s: Self)
        requires
            value.wf(),
        ensures
            s.serializes(&value),
    {
        let Graph { ctx_id, schema, nodes, back_links } = value;
        let entries = nodes.into_entries();
        proof {
            assert forall|j: int| 0 <= j < entries@.len() implies (#[trigger] entries@[j]).0.0
                == value.order()[j] && entries@[j].1@ == value.node(value.order()[j]) by {
                nodes.lemma_position(j);
            }
        }
        GraphSerializer { ctx_id, nodes: entries }
    }
}

/// Whether `m` is the largest of the listed indices, or `0` for an empty
/// list.
pub open spec fn is_max_index<D>(nodes: Seq<(NodeIndex, Node<D>)>, m: usize) -> bool {
    &&& forall|j: int| 0 <= j < nodes.len() ==> (#[trigger] nodes[j]).0.0 <= m
    &&& nodes.len() == 0 ==> m == 0
    &&& nodes.len() > 0 ==> exists|j: int| 0 <= j < nodes.len() && (#[trigger] nodes[j]).0.0 == m
}

/// The largest of the listed indices; `0` for an empty list.
pub fn max_index<D>(nodes: &Vec<(NodeIndex, Node<D>)>) -> (m: usize)
    ensures
        is_max_index(nodes@, m),
{
    let mut m: usize = 0;
    let mut k: usize = 0;
    while k < nodes.len()
        invariant
            k <= nodes.len(),
            forall|j: int| 0 <= j < k ==> (#[trigger] nodes@[j]).0.0 <= m,
            k == 0 ==> m == 0,
            k > 0 ==> exists|j: int| 0 <= j < k && (#[trigger] nodes@[j]).0.0 == m,
        decreases nodes.len() - k,
    {
        let i = nodes[k].0.0;
        if k == 0 || i > m {
            m = i;
            assert(0 <= k < k + 1 && nodes@[k as int].0.0 == m);
        } else {
            proof {
                let j = choose|j: int| 0 <= j < k && (#[trigger] nodes@[j]).0.0 == m;
                assert(0 <= j < k + 1 && nodes@[j].0.0 == m);
            }
        }
        k = k + 1;
    }
    m
}

/// Builds a graph from a list of nodes, and a context for it.
///
/// The context has the listed identifier, and its allocator goes on after
/// the largest listed index. The nodes are stored as they are listed, and
/// the reverse index is rebuilt from their links.
///
/// A list with an empty index, or with one index twice, is refused.
pub fn deserialize_graph<D>(input: GraphSerializer<D>, schema: Schema) -> (r: Result<
    (Context, Graph<D>),
    CommitError,
>)
    ensures
        r is Ok <==> !list_clashes(input.nodes@),
        match r {
            Ok((ctx, g)) => {
                &&& ctx.spec_id() == input.ctx_id
                &&& is_max_index(input.nodes@, ctx.allocator().floor())
                &&& input.restored_as(&g, schema)
            },
            Err(e) => build_fails(input.nodes@, e),
        },
{
    let cnt = max_index(&input.nodes);
    let ctx = Context::from_id(input.ctx_id, cnt);
    match build(&ctx, input.nodes, schema) {
        Ok(graph) => Ok((ctx, graph)),
        Err(e) => Err(e),
    }
}

/// Builds a graph of the given context from a list of nodes: stores the
/// nodes in their order, as they are, and rebuilds the reverse index from
/// their links.
pub fn build<D>(ctx: &Context, nodes: Vec<(NodeIndex, Node<D>)>, schema: Schema) -> (r: Result<
    Graph<D>,
    CommitError,
>)
    ensures
        r is Ok <==> !list_clashes(nodes@),
        match r {
            Ok(g) => g.context_id() == ctx.spec_id() && stands_for(models(nodes@), &g, schema),
            Err(e) => build_fails(nodes@, e),
        },
{
    match build_recorded(ctx, nodes, schema) {
        Ok(built) => Ok(built.0),
        Err(e) => Err(e),
    }
}

/// Builds a graph as [`build`] does, and gives the record of its links with
/// it.
pub(crate) fn build_recorded<D>(
    ctx: &Context,
    nodes: Vec<(NodeIndex, Node<D>)>,
    schema: Schema,
) -> (r: Result<(Graph<D>, LinkChangeRecorder), CommitError>)
    ensures
        r is Ok <==> !list_clashes(nodes@),
        match r {
            Ok((g, lcr)) => {
                &&& g.context_id() == ctx.spec_id()
                &&& stands_for(models(nodes@), &g, schema)
                &&& g.map() == stored_list(nodes@)
                &&& lcr.wf()
                &&& records_list(nodes@, &lcr)
            },
            Err(e) => build_fails(nodes@, e),
        },
{
    let mut graph: Graph<D> = Graph::with_schema(ctx, schema);
    let ghost listed = nodes@;
    let ghost ms = models(listed);
    let mut lcr = LinkChangeRecorder::new();
    match graph.nodes.first_clash(&nodes) {
        Some(i) => {
            return Err(CommitError::IndexCollision(i));
        },
        None => {},
    }
    let ghost init = Set::<(usize, usize, usize)>::empty();
    proof {
        assert(graph.events() =~= init);
        assert(lcr.adds() =~= graph.events().difference(init));
        assert(lcr.removes() =~= init.difference(graph.events()));
    }
    let ghost g0 = graph;
    graph.merge_nodes(nodes, &mut lcr, Ghost(init));
    proof {
        assert(graph.order() =~= Seq::new(ms.len(), |j: int| ms[j].0));
        assert(lcr.removes() =~= Set::empty());
        assert(lcr.adds() =~= graph.events());
        graph.lemma_events();
        lcr.lemma_wf();
        assert(g0.map() =~= Map::empty());
        assert(graph.map() == stored_list(listed));
        if lcr.removes_seq().len() > 0 {
            assert(lcr.removes().contains(lcr.removes_seq()[0]));
        }
        assert(records_list(listed, &lcr));
        assert forall|j: int| 0 <= j < ms.len() implies graph.node((#[trigger] ms[j]).0)
            == ms[j].1 by {
            assert(graph.node(listed[j].0.0) == listed[j].1@);
        }
    }
    Ok((graph, lcr))
}

impl<D> Graph<D> {
    /// The nodes of this graph with their indices renamed by `m`, in order.
    pub open spec fn relabeled_list(&self, m: Map<usize, usize>) -> Seq<(usize, NodeModel<D>)> {
        Seq::new(
            self.order().len(),
            |j: int| (m[self.order()[j]], self.node(self.order()[j]).renamed(m)),
        )
    }

    /// Whether `h` is this graph with its indices renamed by `m`: `m`
    /// renames exactly the indices of the nodes, and `h` is the graph that
    /// the renamed nodes stand for.
    pub open spec fn relabeled(&self, m: Map<usize, usize>, h: &Graph<D>) -> bool {
        &&& forall|x: usize| m.contains_key(x) == self.has(x)
        &&& stands_for(self.relabeled_list(m), h, self.declared())
    }

    /// The renaming that gives the node at place `j` of the order the index
    /// `ids[j]`.
    pub open spec fn renaming(&self, ids: Seq<usize>) -> Map<usize, usize> {
        Map::new(|x: usize| self.has(x), |x: usize| ids[self.order().index_of(x)])
    }

    /// Whether `r` is what renaming the nodes of this graph to the indices
    /// `ids` gives, for a context with the identifier `ctx_id`: node `j` of
    /// the order gets the index `ids[j]`, and every link follows its target.
    ///
    /// The renaming succeeds exactly where no new index is empty or given
    /// twice and every link between two of the renamed nodes is of a
    /// declared type. The result is then this graph with its indices
    /// renamed. Else the error names the first new index that is empty or
    /// given twice or, where there is none, the first link, in ascending
    /// order, of a type that is not declared.
    pub open spec fn relabel_gives(
        &self,
        ids: Seq<usize>,
        ctx_id: u128,
        r: Result<Graph<D>, CommitError>,
    ) -> bool {
        let m = self.renaming(ids);
        let nodes = listed_nodes(self.relabeled_list(m));
        &&& r is Ok <==> !ids_clash(ids) && crate::model::well_typed(
            nodes,
            self.declared(),
            crate::model::links(nodes),
        )
        &&& r is Ok ==> (r->Ok_0).context_id() == ctx_id && self.relabeled(m, &r->Ok_0)
        &&& r is Err ==> if ids_clash(ids) {
            exists|j: int| #[trigger]
                first_bad_id(ids, j) && r->Err_0 == CommitError::IndexCollision(NodeIndex(ids[j]))
        } else {
            crate::model::type_error(
                nodes,
                self.declared(),
                crate::triples::in_order(crate::model::links(nodes)),
                r->Err_0,
            )
        }
    }

    /// Moves the graph to the context `new_ctx` under the indices `ids`:
    /// node `j` of the iteration order gets the index `ids[j]`, and every
    /// link follows its target. A link to an index that the graph does not
    /// hold is dropped. The nodes are stored as they are otherwise, the
    /// reverse index is rebuilt, and the link types are checked.
    pub fn relabel(self, ids: &Vec<usize>, new_ctx: &Context) -> (r: Result<Graph<D>, CommitError>)
        requires
            self.wf(),
            ids@.len() == self.order().len(),
        ensures
            self.relabel_gives(ids@, new_ctx.spec_id(), r),
    {
        let ghost old_order = self.order();
        let ghost m = self.renaming(ids@);
        let Graph { ctx_id, schema, nodes, back_links } = self;
        let entries = nodes.into_entries();
        proof {
            nodes.lemma_wf();
            assert forall|j: int| 0 <= j < entries@.len() implies (#[trigger] entries@[j]).0.0
                == old_order[j] && entries@[j].1@ == self.node(old_order[j]) by {
                nodes.lemma_position(j);
            }
        }
        let mut id_map: crate::ord_map::OrdMap<usize> = crate::ord_map::OrdMap::new();
        let mut k: usize = 0;
        while k < entries.len()
            invariant
                k <= entries.len(),
                id_map.wf(),
                old_order == self.order(),
                entries@.len() == old_order.len(),
                ids@.len() == old_order.len(),
                old_order.no_duplicates(),
                forall|j: int| 0 <= j < entries@.len() ==> (#[trigger] entries@[j]).0.0 == old_order[j],
                forall|x: usize|
                    id_map.map().contains_key(x) <==> exists|j: int| 0 <= j < k && old_order[j] == x,
                forall|j: int| 0 <= j < k ==> id_map.map()[#[trigger] old_order[j]] == ids@[j],
            decreases entries.len() - k,
        {
            let ghost before = id_map.map();
            id_map.insert(entries[k].0.0, ids[k]);
            proof {
                let x = old_order[k as int];
                assert forall|y: usize|
                    id_map.map().contains_key(y) <==> exists|j: int|
                        0 <= j < k + 1 && old_order[j] == y by {
                    if before.contains_key(y) {
                        let j = choose|j: int| 0 <= j < k && old_order[j] == y;
                        assert(0 <= j < k + 1 && old_order[j] == y);
                    }
                    if y == x {
                        assert(0 <= k < k + 1 && old_order[k as int] == y);
                    }
                    if exists|j: int| 0 <= j < k + 1 && old_order[j] == y {
                        let j = choose|j: int| 0 <= j < k + 1 && old_order[j] == y;
                        if j < k {
                            assert(before.contains_key(y));
                        }
                    }
                }
                assert forall|j: int| 0 <= j < k + 1 implies id_map.map()[#[trigger] old_order[j]]
                    == ids@[j] by {
                    if j < k {
                        assert(old_order[j] != x);
                    }
                }
            }
            k = k + 1;
        }
        proof {
            assert(id_map.map() =~= m) by {
                assert forall|x: usize| id_map.map().contains_key(x) == m.contains_key(x) by {
                    if self.has(x) {
                        let j = self.lemma_position_of(x);
                    }
                    if id_map.map().contains_key(x) {
                        let j = choose|j: int| 0 <= j < old_order.len() && old_order[j] == x;
                        self.lemma_listed(j);
                    }
                }
                assert forall|x: usize| m.contains_key(x) implies id_map.map()[x] == m[x] by {
                    let j = old_order.index_of(x);
                    let q = self.lemma_position_of(x);
                    assert(old_order[j] == x);
                }
            }
        }
        let ghost all = entries@;
        let mut renamed: Vec<(NodeIndex, Node<D>)> = Vec::new();
        for e in it: entries.into_iter()
            invariant
                it.seq() == all,
                id_map.wf(),
                m == id_map.map(),
                all.len() == old_order.len(),
                forall|j: int| 0 <= j < all.len() ==> (#[trigger] all[j]).0.0 == old_order[j],
                forall|x: usize|
                    m.contains_key(x) <==> exists|j: int| 0 <= j < all.len() && old_order[j] == x,
                renamed@.len() == it.index(),
                forall|j: int|
                    0 <= j < renamed@.len() ==> (#[trigger] renamed@[j]).0.0 == m[old_order[j]]
                        && renamed@[j].1@ == all[j].1@.renamed(m),
        {
            let ghost n = it.index();
            let (i, mut node) = e;
            node.rename(&id_map);
            proof {
                assert(all[n].0.0 == old_order[n]);
                assert(m.contains_key(i.0)) by {
                    assert(0 <= n < all.len() && old_order[n] == i.0);
                }
            }
            let to = match id_map.get(i.0) {
                Some(v) => *v,
                None => 0,
            };
            renamed.push((NodeIndex(to), node));
        }
        let ghost list = renamed@;
        let ghost shown = self.relabeled_list(m);
        proof {
            assert(models(list) =~= shown);
            assert(stored_list(list) == listed_nodes(shown)) by {
                assert(crate::graph::commit::indices(list) =~= Seq::new(
                    shown.len(),
                    |j: int| shown[j].0,
                ));
                assert(crate::graph::commit::values(list) =~= Seq::new(
                    shown.len(),
                    |j: int| shown[j].1,
                ));
            }
            assert forall|j: int| 0 <= j < list.len() implies list[j].0.0 == ids@[j] by {
                assert(list[j].0.0 == m[old_order[j]]);
                self.lemma_listed(j);
            }
            assert forall|j: int| 0 <= j < list.len() implies clashes(
                Seq::<usize>::empty(),
                list,
                j,
            ) == id_clashes(ids@, j) by {
                if exists|q: int| 0 <= q < j && list[q].0 == list[j].0 {
                    let q = choose|q: int| 0 <= q < j && list[q].0 == list[j].0;
                    assert(ids@[q] == ids@[j]);
                }
                if exists|q: int| 0 <= q < j && ids@[q] == ids@[j] {
                    let q = choose|q: int| 0 <= q < j && ids@[q] == ids@[j];
                    assert(list[q].0 == list[j].0);
                }
            }
            assert(list_clashes(list) == ids_clash(ids@)) by {
                if list_clashes(list) {
                    let j = choose|j: int|
                        0 <= j < list.len() && clashes(Seq::<usize>::empty(), list, j);
                    assert(id_clashes(ids@, j));
                }
                if ids_clash(ids@) {
                    let j = choose|j: int| 0 <= j < ids@.len() && id_clashes(ids@, j);
                    assert(clashes(Seq::<usize>::empty(), list, j));
                }
            }
        }
        let (graph, lcr) = match build_recorded(new_ctx, renamed, schema) {
            Ok(built) => built,
            Err(e) => {
                proof {
                    let j = choose|j: int| #[trigger]
                        crate::arena::first_clash_at(Seq::<usize>::empty(), list, j) && e
                            == CommitError::IndexCollision(list[j].0);
                    assert(first_bad_id(ids@, j));
                }
                return Err(e);
            },
        };
        let r = graph.check_link_type(&lcr);
        proof {
            assert(self.relabeled(m, &graph));
        }
        match r {
            Ok(()) => Ok(graph),
            Err(e) => Err(e),
        }
    }

    /// Moves the graph to another context: every node gets a new index from
    /// the allocator of `new_ctx`, in iteration order, and the graph is
    /// renamed to these indices as [`Self::relabel`] does.
    ///
    /// The indices are drawn before anything else is done. Where the
    /// allocator gives out before every node has its index, the move is
    /// given up. A graph without nodes is moved without drawing on the
    /// allocator. Indices that pointed into the graph before mean nothing
    /// afterwards.
    pub fn switch_context(self, new_ctx: &Context) -> (r: Result<Graph<D>, CommitError>)
        requires
            self.wf(),
        ensures
            (r is Err && r->Err_0 is IdsExhausted && self.order().len() > 0) || exists|
                ids: Seq<usize>,
            |
                {
                    &&& ids.len() == self.order().len()
                    &&& forall|j: int|
                        0 <= j < ids.len() ==> #[trigger] ids[j] > new_ctx.allocator().floor()
                    &&& #[trigger] self.relabel_gives(ids, new_ctx.spec_id(), r)
                },
            r matches Err(e) ==> e is IdsExhausted || e is IndexCollision || e is LinkType,
    {
        let n = self.len();
        let dist = new_ctx.distributer();
        let mut ids: Vec<usize> = Vec::new();
        while ids.len() < n
            invariant
                ids@.len() <= n,
                n == self.order().len(),
                dist.floor() == new_ctx.allocator().floor(),
                forall|j: int| 0 <= j < ids@.len() ==> #[trigger] ids@[j] > dist.floor(),
            decreases n - ids@.len(),
        {
            match dist.allocate() {
                Some(i) => {
                    ids.push(i);
                },
                None => {
                    return Err(CommitError::IdsExhausted);
                },
            }
        }
        let r = self.relabel(&ids, new_ctx);
        proof {
            assert(self.relabel_gives(ids@, new_ctx.spec_id(), r));
            if r is Err {
                if !ids_clash(ids@) {
                    assert(r->Err_0 is LinkType);
                }
            }
        }
        r
    }
}

/// Writing a graph out and building it again gives the same graph: the same
/// nodes in the same order, and the same reverse index.
pub proof fn lemma_round_trip<D>(g: &Graph<D>, s: &GraphSerializer<D>, h: &Graph<D>)
    requires
        g.wf(),
        s.serializes(g),
        s.restored_as(h, g.declared()),
    ensures
        h.order() == g.order(),
        forall|x: usize| h.has(x) == g.has(x),
        forall|x: usize| g.has(x) ==> h.node(x) == g.node(x),
        h.map() == g.map(),
        forall|t: usize| h.back(t) == g.back(t),
{
    let listed = models(s.nodes@);
    assert(h.order() =~= g.order());
    g.lemma_order(h);
    assert forall|x: usize| g.has(x) implies h.node(x) == g.node(x) by {
        let j = g.lemma_position_of(x);
        assert(s.nodes@[j].0.0 == x);
        assert(listed[j].0 == x);
    }
    assert(h.map() =~= g.map());
    assert forall|t: usize| h.back(t) == g.back(t) by {
        assert forall|r: (usize, usize, usize)| h.back(t).contains(r) == g.back(t).contains(r) by {
            g.lemma_back_links(r.0, t, r.1, r.2);
            h.lemma_back_links(r.0, t, r.1, r.2);
        }
        assert(h.back(t) =~= g.back(t));
    }
}

} // verus!
