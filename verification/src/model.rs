//! What a commit does, said over mathematical values.
//!
//! A graph is taken as a map from indices to nodes; the reverse index
//! follows from it. Each step of a commit is a function on such maps. The
//! contracts of the commit engine say that the graph after a commit is what
//! these functions give.

use vstd::prelude::*;
use crate::error::CommitError;
use crate::index::NodeIndex;
use crate::node::{Node, NodeModel, SyncBlock};
use crate::schema::Schema;

verus! {

/// The nodes of a graph, each under its index.
pub type Nodes<D> = Map<usize, NodeModel<D>>;

/// The nodes with every link to `from` pointed at `to`.
pub open spec fn redirected<D>(m: Nodes<D>, from: usize, to: usize) -> Nodes<D> {
    Map::new(|x: usize| m.contains_key(x), |x: usize| m[x].redirected(from, to))
}

/// The nodes after the first `k` of the redirections `from[i] -> to[i]`
/// were applied, one after the other.
pub open spec fn redirects_applied<D>(m: Nodes<D>, from: Seq<usize>, to: Seq<usize>, k: nat) -> Nodes<D>
    decreases k,
{
    if k == 0 {
        m
    } else {
        redirected(redirects_applied(m, from, to, (k - 1) as nat), from[k - 1], to[k - 1])
    }
}

/// One node after the first `k` of the redirections `from[i] -> to[i]`
/// were applied to it, one after the other.
pub open spec fn node_redirects_applied<D>(
    n: NodeModel<D>,
    from: Seq<usize>,
    to: Seq<usize>,
    k: nat,
) -> NodeModel<D>
    decreases k,
{
    if k == 0 {
        n
    } else {
        node_redirects_applied(n, from, to, (k - 1) as nat).redirected(from[k - 1], to[k - 1])
    }
}

/// The nodes after the first `k` of the nodes `ns` were stored under the
/// indices `ks`, one after the other.
pub open spec fn inserted<D>(m: Nodes<D>, ks: Seq<usize>, ns: Seq<NodeModel<D>>, k: nat) -> Nodes<D>
    decreases k,
{
    if k == 0 {
        m
    } else {
        inserted(m, ks, ns, (k - 1) as nat).insert(ks[k - 1], ns[k - 1])
    }
}

/// Whether `f` may give `b` when it is called on `a`.
pub open spec fn replaced<D, U: FnOnce(Node<D>) -> Node<D>>(
    f: U,
    a: NodeModel<D>,
    b: NodeModel<D>,
) -> bool {
    exists|x: Node<D>, y: Node<D>| x@ == a && y@ == b && #[trigger] call_ensures(f, (x,), y)
}

/// Whether `b` has the nodes of `a`, each as it is in `a` but for those
/// under the indices in `touched`.
pub open spec fn same_but<D>(a: Nodes<D>, b: Nodes<D>, touched: Set<usize>) -> bool {
    &&& forall|x: usize| a.contains_key(x) == b.contains_key(x)
    &&& forall|x: usize| a.contains_key(x) && !touched.contains(x) ==> a[x] == b[x]
}

/// Whether the nodes at place `k` of `ms` and those at the next place
/// differ at most in the node under `x`.
pub open spec fn step_at<D>(ms: Seq<Nodes<D>>, k: int, x: usize) -> bool {
    same_but(ms[k], ms[k + 1], set![x])
}

/// Whether the nodes at place `k` of `ms` become those at the next place
/// when the node under `x`, which is `w.0`, becomes `w.1`.
pub open spec fn changed_at<D>(ms: Seq<Nodes<D>>, k: int, x: usize, w: (Node<D>, Node<D>)) -> bool {
    step_at(ms, k, x) && w.0@ == ms[k][x] && w.1@ == ms[k + 1][x]
}

/// Whether `k` is a place in a list of `n` items.
pub open spec fn within(k: int, n: int) -> bool {
    0 <= k < n
}

/// Whether the nodes at place `k` of `ms` become those at the next place
/// when `f` replaces the node under `x`.
pub open spec fn replaced_at<D, U: FnOnce(Node<D>) -> Node<D>>(
    ms: Seq<Nodes<D>>,
    k: int,
    x: usize,
    f: U,
) -> bool {
    step_at(ms, k, x) && replaced(f, ms[k][x], ms[k + 1][x])
}

/// The nodes without node `x`, and without the links that pointed at it.
pub open spec fn removed<D>(m: Nodes<D>, x: usize) -> Nodes<D> {
    redirected(m.remove(x), x, 0)
}

/// The nodes after the first `k` of the nodes `gone` were removed, one
/// after the other.
pub open spec fn removals_applied<D>(m: Nodes<D>, gone: Seq<usize>, k: nat) -> Nodes<D>
    decreases k,
{
    if k == 0 {
        m
    } else {
        removed(removals_applied(m, gone, (k - 1) as nat), gone[k - 1])
    }
}

/// The links of the nodes as events `(source, target, field)`.
pub open spec fn links<D>(m: Nodes<D>) -> Set<(usize, usize, usize)> {
    Set::new(|e: (usize, usize, usize)| m.contains_key(e.0) && m[e.0].points_to(e.2, e.1))
}

/// The fields of node `e.1` that mirror the link `e`.
pub open spec fn mirror_fields<D>(m: Nodes<D>, schema: Schema, e: (usize, usize, usize)) -> Set<usize> {
    schema.mirrors(m[e.0].shape, e.2, m[e.1].shape)
}

/// The nodes after the link `e` that went away was followed up: where both
/// of its nodes are there, the target loses its mirror links.
pub open spec fn removal_synced<D>(m: Nodes<D>, schema: Schema, e: (usize, usize, usize)) -> Nodes<D> {
    if m.contains_key(e.0) && m.contains_key(e.1) {
        m.insert(e.1, m[e.1].removal_synced(mirror_fields(m, schema, e), e.0))
    } else {
        m
    }
}

/// The nodes after the link `e` that came into being was followed up, or
/// what stood in the way: where both of its nodes are there, the target
/// gets the mirror link unless it has it.
pub open spec fn addition_synced<D>(m: Nodes<D>, schema: Schema, e: (usize, usize, usize)) -> Result<
    Nodes<D>,
    SyncBlock,
> {
    if m.contains_key(e.0) && m.contains_key(e.1) {
        match m[e.1].addition_synced(mirror_fields(m, schema, e), e.0) {
            Ok(n) => Ok(m.insert(e.1, n)),
            Err(b) => Err(b),
        }
    } else {
        Ok(m)
    }
}

/// The nodes after the first `k` of the removed links `es` were followed
/// up, one after the other.
pub open spec fn removals_synced<D>(
    m: Nodes<D>,
    schema: Schema,
    es: Seq<(usize, usize, usize)>,
    k: nat,
) -> Nodes<D>
    decreases k,
{
    if k == 0 {
        m
    } else {
        removal_synced(removals_synced(m, schema, es, (k - 1) as nat), schema, es[k - 1])
    }
}

/// How far following up added links got.
pub enum Synced<D> {
    /// All links were followed up; the nodes after that.
    Done(Nodes<D>),
    /// Link number `at` could not be followed up for the reason `why`; the
    /// nodes as the links before it left them.
    Stuck { nodes: Nodes<D>, at: int, why: SyncBlock },
}

impl<D> Synced<D> {
    /// The nodes as the followed-up links left them.
    pub open spec fn nodes(self) -> Nodes<D> {
        match self {
            Synced::Done(m) => m,
            Synced::Stuck { nodes, .. } => nodes,
        }
    }
}

/// The nodes after the first `k` of the added links `es` were followed up,
/// one after the other, up to the first that could not be.
pub open spec fn additions_synced<D>(
    m: Nodes<D>,
    schema: Schema,
    es: Seq<(usize, usize, usize)>,
    k: nat,
) -> Synced<D>
    decreases k,
{
    if k == 0 {
        Synced::Done(m)
    } else {
        match additions_synced(m, schema, es, (k - 1) as nat) {
            Synced::Done(mid) => match addition_synced(mid, schema, es[k - 1]) {
                Ok(after) => Synced::Done(after),
                Err(why) => Synced::Stuck { nodes: mid, at: k - 1, why },
            },
            stuck => stuck,
        }
    }
}

/// Following up an added link changes nothing where the target points back
/// at the source through a mirror field already.
pub proof fn lemma_readd_is_noop<D>(m: Nodes<D>, schema: Schema, e: (usize, usize, usize))
    requires
        m.contains_key(e.0) && m.contains_key(e.1) ==> m[e.1].mirrored(
            mirror_fields(m, schema, e),
            e.0,
        ),
    ensures
        addition_synced(m, schema, e) == Ok::<Nodes<D>, SyncBlock>(m),
{
    if m.contains_key(e.0) && m.contains_key(e.1) {
        m[e.1].lemma_readd_is_noop(mirror_fields(m, schema, e), e.0);
        assert(m.insert(e.1, m[e.1]) =~= m);
    }
}

/// Following up a removed link changes nothing where the target does not
/// point back at the source through a mirror field.
pub proof fn lemma_remove_absent_is_noop<D>(m: Nodes<D>, schema: Schema, e: (usize, usize, usize))
    requires
        m.contains_key(e.1) ==> m[e.1].fits(),
        m.contains_key(e.0) && m.contains_key(e.1) ==> !m[e.1].mirrored(
            mirror_fields(m, schema, e),
            e.0,
        ),
    ensures
        removal_synced(m, schema, e) == m,
{
    if m.contains_key(e.0) && m.contains_key(e.1) {
        m[e.1].lemma_remove_absent_is_noop(mirror_fields(m, schema, e), e.0);
        assert(m.insert(e.1, m[e.1]) =~= m);
    }
}

/// The error that a link which could not be followed up gives.
pub open spec fn sync_error(e: (usize, usize, usize), why: SyncBlock, err: CommitError) -> bool {
    match why {
        SyncBlock::Ambiguous => err == (CommitError::AmbiguousBidirectional {
            source: NodeIndex(e.0),
            target: NodeIndex(e.1),
            field: e.2,
        }),
        SyncBlock::Conflict(m, c) => err == (CommitError::BidirectionalConflict {
            source: NodeIndex(e.0),
            target: NodeIndex(e.1),
            field: m,
            reason: c,
        }),
    }
}

/// Whether link `k` of `adds` is the first whose two nodes are there and
/// whose target has a shape that `schema` does not allow for it.
pub open spec fn ill_typed_at<D>(
    m: Nodes<D>,
    schema: Schema,
    adds: Seq<(usize, usize, usize)>,
    k: int,
) -> bool {
    &&& 0 <= k < adds.len()
    &&& m.contains_key(adds[k].0) && m.contains_key(adds[k].1)
    &&& !schema.allows(m[adds[k].0].shape, adds[k].2, m[adds[k].1].shape)
    &&& forall|j: int|
        0 <= j < k && m.contains_key((#[trigger] adds[j]).0) && m.contains_key(adds[j].1)
            ==> schema.allows(m[adds[j].0].shape, adds[j].2, m[adds[j].1].shape)
}

/// Whether `err` is the error of the first link of `adds` that is not well
/// typed.
pub open spec fn type_error<D>(
    m: Nodes<D>,
    schema: Schema,
    adds: Seq<(usize, usize, usize)>,
    err: CommitError,
) -> bool {
    &&& err is LinkType
    &&& exists|k: int| #[trigger]
        ill_typed_at(m, schema, adds, k) && schema.refuses(
            m[adds[k].0].shape,
            adds[k].2,
            m[adds[k].1].shape,
            err->LinkType_0,
        )
}

/// Whether every link in `adds` whose two nodes are there points at a node
/// of a shape that `schema` allows for it.
pub open spec fn well_typed<D>(m: Nodes<D>, schema: Schema, adds: Set<(usize, usize, usize)>) -> bool {
    forall|e: (usize, usize, usize)| #[trigger]
        adds.contains(e) && m.contains_key(e.0) && m.contains_key(e.1) ==> schema.allows(
            m[e.0].shape,
            e.2,
            m[e.1].shape,
        )
}

} // verus!
