//! The staging buffer of changes to a graph.
//!
//! A transaction never reads the graph. It collects new nodes, and requests
//! to remove, change or redirect nodes; a commit applies them together.

use vstd::prelude::*;
use ordermap::OrderSet;
use crate::arena::{Arena, ArenaError};
use crate::context::Context;
use crate::index::NodeIndex;
use crate::node::{Node, NodeModel};
use crate::order_set::{
    index_seq, index_set_insert, index_set_new, index_set_swap_remove, lemma_push_no_duplicates,
    lemma_swap_removed,
};

verus! {

/// A batch of changes, to be committed to a graph of the same context.
///
/// `M` and `U` are the types of the queued closures: `M` changes a node in
/// place, `U` makes a new node out of the old one. A caller that queues
/// closures of several types boxes them.
pub struct Transaction<D, M, U> {
    pub(crate) ctx_id: u128,
    pub(crate) alloc_nodes: OrderSet<usize>,
    pub(crate) inc_nodes: Arena<Node<D>>,
    pub(crate) dec_nodes: OrderSet<usize>,
    pub(crate) mut_nodes: Vec<(NodeIndex, M)>,
    pub(crate) update_nodes: Vec<(NodeIndex, U)>,
    pub(crate) redirect_all_links_vec: Vec<(NodeIndex, NodeIndex)>,
    pub(crate) redirect_links_vec: Vec<(NodeIndex, NodeIndex)>,
}

impl<D, M: FnOnce(&mut Node<D>), U: FnOnce(Node<D>) -> Node<D>> Transaction<D, M, U> {
    /// The identifier of the context that the transaction belongs to.
    pub closed spec fn context_id(&self) -> u128 {
        self.ctx_id
    }

    /// The allocator that the transaction draws its indices from: that of
    /// its context.
    pub closed spec fn allocator(&self) -> crate::id_distributer::IdDistributer {
        self.inc_nodes.allocator()
    }

    /// The indices that were reserved and not filled yet.
    pub closed spec fn unfilled(&self) -> Set<usize> {
        index_seq(self.alloc_nodes).to_set()
    }

    /// The indices of the staged nodes, in the order in which they were
    /// staged.
    pub closed spec fn staged(&self) -> Seq<usize> {
        self.inc_nodes.keys()
    }

    /// The node staged under `x`.
    pub closed spec fn staged_node(&self, x: usize) -> NodeModel<D> {
        self.inc_nodes.value(x)@
    }

    /// The indices whose removal from the graph is queued, in queue order.
    pub closed spec fn removal_order(&self) -> Seq<usize> {
        index_seq(self.dec_nodes)
    }

    /// The indices whose removal from the graph is queued.
    pub closed spec fn removals(&self) -> Set<usize> {
        index_seq(self.dec_nodes).to_set()
    }

    /// The queue of removals holds each index once.
    pub proof fn lemma_removals(&self)
        requires
            self.wf(),
        ensures
            self.removals() == self.removal_order().to_set(),
            self.removal_order().no_duplicates(),
    {
    }

    /// The indices of the nodes for which an in-place change is queued, in
    /// queue order.
    pub open spec fn mutated(&self) -> Seq<NodeIndex> {
        Seq::new(self.mutations().len(), |i: int| self.mutations()[i].0)
    }

    /// The indices of the nodes for which a replacement is queued, in queue
    /// order.
    pub open spec fn updated(&self) -> Seq<NodeIndex> {
        Seq::new(self.replacements().len(), |i: int| self.replacements()[i].0)
    }

    /// The queued in-place changes, in queue order: each an index and the
    /// closure that is to change the node under it.
    pub closed spec fn mutations(&self) -> Seq<(NodeIndex, M)> {
        self.mut_nodes@
    }

    /// The queued replacements, in queue order: each an index and the
    /// closure that is to make the new node of the node under it.
    pub closed spec fn replacements(&self) -> Seq<(NodeIndex, U)> {
        self.update_nodes@
    }

    /// The queued redirections of all references, staged and committed.
    pub closed spec fn redirects_all(&self) -> Seq<(NodeIndex, NodeIndex)> {
        self.redirect_all_links_vec@
    }

    /// The queued redirections of committed references.
    pub closed spec fn redirects(&self) -> Seq<(NodeIndex, NodeIndex)> {
        self.redirect_links_vec@
    }

    /// The containers are in order, and every queued closure can be called
    /// on every node.
    pub closed spec fn wf(&self) -> bool {
        &&& self.inc_nodes.wf()
        &&& index_seq(self.alloc_nodes).no_duplicates()
        &&& index_seq(self.dec_nodes).no_duplicates()
        &&& forall|i: int, n: &mut Node<D>|
            0 <= i < self.mut_nodes@.len() ==> #[trigger] call_requires(self.mut_nodes@[i].1, (n,))
        &&& forall|i: int, n: Node<D>|
            0 <= i < self.update_nodes@.len() ==> #[trigger] call_requires(
                self.update_nodes@[i].1,
                (n,),
            )
    }

    /// What the accessors stand for, for the commit engine.
    pub(crate) proof fn lemma_parts(&self)
        ensures
            self.context_id() == self.ctx_id,
            self.unfilled() == index_seq(self.alloc_nodes).to_set(),
            self.staged() == self.inc_nodes.keys(),
            forall|x: usize| self.staged_node(x) == self.inc_nodes.value(x)@,
            self.removals() == index_seq(self.dec_nodes).to_set(),
            self.removal_order() == index_seq(self.dec_nodes),
            self.mutations() == self.mut_nodes@,
            self.replacements() == self.update_nodes@,
            self.redirects_all() == self.redirect_all_links_vec@,
            self.redirects() == self.redirect_links_vec@,
            self.wf() ==> {
                &&& self.inc_nodes.wf()
                &&& index_seq(self.alloc_nodes).no_duplicates()
                &&& index_seq(self.dec_nodes).no_duplicates()
                &&& forall|i: int, n: &mut Node<D>|
                    0 <= i < self.mut_nodes@.len() ==> #[trigger] call_requires(
                        self.mut_nodes@[i].1,
                        (n,),
                    )
                &&& forall|i: int, n: Node<D>|
                    0 <= i < self.update_nodes@.len() ==> #[trigger] call_requires(
                        self.update_nodes@[i].1,
                        (n,),
                    )
            },
    {
    }

    /// An empty transaction for the given context.
    pub fn new(context: &Context) -> (t: Self)
        ensures
            t.wf(),
            t.context_id() == context.spec_id(),
            t.allocator() == context.allocator(),
            t.unfilled() == Set::<usize>::empty(),
            t.staged() == Seq::<usize>::empty(),
            t.removals() == Set::<usize>::empty(),
            t.removal_order() == Seq::<usize>::empty(),
            t.mutations().len() == 0,
            t.replacements().len() == 0,
            t.redirects_all().len() == 0,
            t.redirects().len() == 0,
    {
        let t = Transaction {
            ctx_id: context.id(),
            alloc_nodes: index_set_new(),
            inc_nodes: Arena::new(context.distributer()),
            dec_nodes: index_set_new(),
            mut_nodes: Vec::new(),
            update_nodes: Vec::new(),
            redirect_all_links_vec: Vec::new(),
            redirect_links_vec: Vec::new(),
        };
        assert(t.unfilled() =~= Set::empty());
        assert(t.removals() =~= Set::empty());
        t
    }

    /// Reserves an index for a node that is filled in later with
    /// [`Self::fill_back`]. This makes cycles possible: nodes can refer to
    /// each other before all of them exist. Every reserved index must be
    /// filled before the transaction is committed. Gives nothing where the
    /// allocator of the context is exhausted, or hands out an index that the
    /// transaction holds already.
    pub fn reserve(&mut self) -> (r: Option<NodeIndex>)
        requires
            old(self).wf(),
        ensures
            final(self).wf(),
            final(self).context_id() == old(self).context_id(),
            final(self).allocator() == old(self).allocator(),
            final(self).staged() == old(self).staged(),
            forall|x: usize| final(self).staged_node(x) == old(self).staged_node(x),
            final(self).removals() == old(self).removals(),
            final(self).removal_order() == old(self).removal_order(),
            final(self).mutations() == old(self).mutations(),
            final(self).replacements() == old(self).replacements(),
            final(self).redirects_all() == old(self).redirects_all(),
            final(self).redirects() == old(self).redirects(),
            match r {
                Some(i) => {
                    &&& i.0 > old(self).allocator().floor()
                    &&& !old(self).staged().contains(i.0)
                    &&& !old(self).unfilled().contains(i.0)
                    &&& final(self).unfilled() == old(self).unfilled().insert(i.0)
                },
                None => final(self).unfilled() == old(self).unfilled(),
            },
    {
        let got = self.inc_nodes.reserve();
        self.note_reserved(got)
    }

    /// Whether `got` is an index that the transaction can take as newly
    /// reserved: it holds no staged node under it and has not reserved it.
    pub open spec fn takes(&self, got: Option<NodeIndex>) -> bool {
        got matches Some(i) && !self.staged().contains(i.0) && !self.unfilled().contains(i.0)
    }

    /// Counts the index that the allocator gave as reserved and not filled
    /// yet, and hands it on. Where the allocator gave none, or one that the
    /// transaction holds already, nothing is reserved and nothing handed on.
    pub(crate) fn note_reserved(&mut self, got: Option<NodeIndex>) -> (r: Option<NodeIndex>)
        requires
            old(self).wf(),
        ensures
            r == if old(self).takes(got) {
                got
            } else {
                None
            },
            final(self).wf(),
            final(self).context_id() == old(self).context_id(),
            final(self).allocator() == old(self).allocator(),
            final(self).staged() == old(self).staged(),
            forall|x: usize| final(self).staged_node(x) == old(self).staged_node(x),
            final(self).removals() == old(self).removals(),
            final(self).removal_order() == old(self).removal_order(),
            final(self).mutations() == old(self).mutations(),
            final(self).replacements() == old(self).replacements(),
            final(self).redirects_all() == old(self).redirects_all(),
            final(self).redirects() == old(self).redirects(),
            final(self).unfilled() == match r {
                Some(i) => old(self).unfilled().insert(i.0),
                None => old(self).unfilled(),
            },
    {
        match got {
            Some(i) => {
                if self.inc_nodes.contains(i) {
                    return None;
                }
                let ghost before = index_seq(self.alloc_nodes);
                let added = index_set_insert(&mut self.alloc_nodes, i.0);
                proof {
                    if added {
                        lemma_push_no_duplicates(before, i.0);
                    } else {
                        assert(before.to_set() =~= before.to_set().insert(i.0));
                    }
                }
                if added {
                    Some(i)
                } else {
                    None
                }
            },
            None => None,
        }
    }

    /// Stores `data` under `idx`, which is then no longer counted as
    /// unfilled. The index must not be empty and must not hold a staged node
    /// already: an index is filled once. A caller that cannot tell uses
    /// [`Self::try_fill_back`].
    pub fn fill_back(&mut self, idx: NodeIndex, data: Node<D>)
        requires
            old(self).wf(),
            idx.0 != 0,
            !old(self).staged().contains(idx.0),
        ensures
            final(self).wf(),
            final(self).context_id() == old(self).context_id(),
            final(self).allocator() == old(self).allocator(),
            final(self).removals() == old(self).removals(),
            final(self).removal_order() == old(self).removal_order(),
            final(self).mutations() == old(self).mutations(),
            final(self).replacements() == old(self).replacements(),
            final(self).redirects_all() == old(self).redirects_all(),
            final(self).redirects() == old(self).redirects(),
            final(self).staged() == old(self).staged().push(idx.0),
            final(self).staged_node(idx.0) == data@,
            forall|x: usize|
                old(self).staged().contains(x) ==> final(self).staged_node(x) == old(
                    self,
                ).staged_node(x),
            final(self).unfilled() == old(self).unfilled().remove(idx.0),
    {
        let _staged = self.try_fill_back(idx, data);
    }

    /// Stores `data` under `idx`, which is then no longer counted as
    /// unfilled. An empty index, or one that holds a staged node already, is
    /// refused, and the transaction stays as it was.
    pub fn try_fill_back(&mut self, idx: NodeIndex, data: Node<D>) -> (r: Result<(), ArenaError>)
        requires
            old(self).wf(),
        ensures
            final(self).wf(),
            final(self).context_id() == old(self).context_id(),
            final(self).allocator() == old(self).allocator(),
            final(self).removals() == old(self).removals(),
            final(self).removal_order() == old(self).removal_order(),
            final(self).mutations() == old(self).mutations(),
            final(self).replacements() == old(self).replacements(),
            final(self).redirects_all() == old(self).redirects_all(),
            final(self).redirects() == old(self).redirects(),
            match r {
                Ok(()) => {
                    &&& idx.0 != 0
                    &&& !old(self).staged().contains(idx.0)
                    &&& final(self).staged() == old(self).staged().push(idx.0)
                    &&& final(self).staged_node(idx.0) == data@
                    &&& forall|x: usize|
                        old(self).staged().contains(x) ==> final(self).staged_node(x) == old(
                            self,
                        ).staged_node(x)
                    &&& final(self).unfilled() == old(self).unfilled().remove(idx.0)
                },
                Err(e) => {
                    &&& idx.0 == 0 || old(self).staged().contains(idx.0)
                    &&& e == if idx.0 == 0 {
                        ArenaError::EmptyIndex
                    } else {
                        ArenaError::Occupied(idx)
                    }
                    &&& final(self).staged() == old(self).staged()
                    &&& forall|x: usize| final(self).staged_node(x) == old(self).staged_node(x)
                    &&& final(self).unfilled() == old(self).unfilled()
                },
            },
    {
        let ghost a0 = self.inc_nodes;
        match self.inc_nodes.try_fill_back(idx, data) {
            Ok(()) => {
                proof {
                    self.inc_nodes.lemma_after_push(&a0, idx.0, data);
                }
                let ghost before = index_seq(self.alloc_nodes);
                let pos = index_set_swap_remove(&mut self.alloc_nodes, idx.0);
                proof {
                    if pos is Some {
                        lemma_swap_removed(before, pos->0 as int);
                    } else {
                        assert(before.to_set() =~= before.to_set().remove(idx.0));
                    }
                }
                Ok(())
            },
            Err(e) => Err(e),
        }
    }

    /// Stages a new node and gives its index. Where the allocator of the
    /// context is exhausted, or hands out an index that is staged already,
    /// nothing is staged.
    pub fn insert(&mut self, data: Node<D>) -> (r: Result<NodeIndex, ArenaError>)
        requires
            old(self).wf(),
        ensures
            final(self).wf(),
            final(self).context_id() == old(self).context_id(),
            final(self).allocator() == old(self).allocator(),
            final(self).unfilled() == old(self).unfilled(),
            final(self).removals() == old(self).removals(),
            final(self).removal_order() == old(self).removal_order(),
            final(self).mutations() == old(self).mutations(),
            final(self).replacements() == old(self).replacements(),
            final(self).redirects_all() == old(self).redirects_all(),
            final(self).redirects() == old(self).redirects(),
            match r {
                Ok(i) => {
                    &&& i.0 > old(self).allocator().floor()
                    &&& !old(self).staged().contains(i.0)
                    &&& final(self).staged() == old(self).staged().push(i.0)
                    &&& final(self).staged_node(i.0) == data@
                    &&& forall|x: usize|
                        old(self).staged().contains(x) ==> final(self).staged_node(x) == old(
                            self,
                        ).staged_node(x)
                },
                Err(e) => {
                    &&& final(self).staged() == old(self).staged()
                    &&& forall|x: usize| final(self).staged_node(x) == old(self).staged_node(x)
                    &&& e != ArenaError::EmptyIndex
                },
            },
    {
        let ghost a0 = self.inc_nodes;
        match self.inc_nodes.insert(data) {
            Ok(i) => {
                proof {
                    self.inc_nodes.lemma_after_push(&a0, i.0, data);
                }
                Ok(i)
            },
            Err(e) => Err(e),
        }
    }

    /// Removes a node. A node that was staged in this transaction is
    /// discarded, and so is a reservation; any other index is queued for
    /// removal from the graph.
    pub fn remove(&mut self, node: NodeIndex)
        requires
            old(self).wf(),
        ensures
            final(self).wf(),
            final(self).context_id() == old(self).context_id(),
            final(self).allocator() == old(self).allocator(),
            final(self).mutations() == old(self).mutations(),
            final(self).replacements() == old(self).replacements(),
            final(self).redirects_all() == old(self).redirects_all(),
            final(self).redirects() == old(self).redirects(),
            forall|x: usize|
                final(self).staged().contains(x) == (x != node.0 && old(self).staged().contains(x)),
            final(self).staged() == if old(self).staged().contains(node.0) {
                crate::order_set::swap_removed(old(self).staged(), old(self).staged().index_of(node.0))
            } else {
                old(self).staged()
            },
            forall|x: usize|
                x != node.0 && old(self).staged().contains(x) ==> final(self).staged_node(x) == old(
                    self,
                ).staged_node(x),
            final(self).unfilled() == old(self).unfilled().remove(node.0),
            final(self).removals() == if old(self).staged().contains(node.0) || old(
                self,
            ).unfilled().contains(node.0) {
                old(self).removals()
            } else {
                old(self).removals().insert(node.0)
            },
            final(self).removal_order() == if old(self).staged().contains(node.0) || old(
                self,
            ).unfilled().contains(node.0) || old(self).removals().contains(node.0) {
                old(self).removal_order()
            } else {
                old(self).removal_order().push(node.0)
            },
    {
        let ghost a0 = self.inc_nodes;
        let staged = self.inc_nodes.remove(node);
        proof {
            if staged is Some {
                self.inc_nodes.lemma_after_remove(&a0, node.0);
            }
            assert forall|x: usize|
                self.staged().contains(x) == (x != node.0 && old(self).staged().contains(x)) by {
                assert(self.inc_nodes.has(x) == (x != node.0 && a0.has(x)));
            }
        }
        let ghost before = index_seq(self.alloc_nodes);
        let reserved = index_set_swap_remove(&mut self.alloc_nodes, node.0);
        proof {
            if reserved is Some {
                lemma_swap_removed(before, reserved->0 as int);
            } else {
                assert(before.to_set() =~= before.to_set().remove(node.0));
            }
        }
        if staged.is_none() && reserved.is_none() {
            let ghost dec = index_seq(self.dec_nodes);
            let added = index_set_insert(&mut self.dec_nodes, node.0);
            proof {
                if added {
                    lemma_push_no_duplicates(dec, node.0);
                } else {
                    assert(dec.to_set() =~= dec.to_set().insert(node.0));
                }
            }
        }
    }

    /// Changes a node in place with `func`. A node that was staged in this
    /// transaction is changed at once; for any other index the closure is
    /// queued and runs when the transaction is committed.
    pub fn mutate(&mut self, node: NodeIndex, func: M)
        requires
            old(self).wf(),
            forall|n: &mut Node<D>| call_requires(func, (n,)),
        ensures
            final(self).wf(),
            final(self).context_id() == old(self).context_id(),
            final(self).allocator() == old(self).allocator(),
            final(self).unfilled() == old(self).unfilled(),
            final(self).removals() == old(self).removals(),
            final(self).removal_order() == old(self).removal_order(),
            final(self).replacements() == old(self).replacements(),
            final(self).redirects_all() == old(self).redirects_all(),
            final(self).redirects() == old(self).redirects(),
            final(self).staged() == old(self).staged(),
            forall|x: usize|
                x != node.0 && old(self).staged().contains(x) ==> final(self).staged_node(x) == old(
                    self,
                ).staged_node(x),
            final(self).mutations() == if old(self).staged().contains(node.0) {
                old(self).mutations()
            } else {
                old(self).mutations().push((node, func))
            },
            old(self).staged().contains(node.0) ==> exists|n: &mut Node<D>|
                (*n)@ == old(self).staged_node(node.0) && (*final(n))@ == final(self).staged_node(
                    node.0,
                ) && #[trigger] call_ensures(func, (n,), ()),
    {
        let ghost a0 = self.inc_nodes;
        proof {
            a0.lemma_wf();
        }
        if self.inc_nodes.contains(node) {
            match self.inc_nodes.get_mut(node) {
                Some(n) => {
                    func(n);
                },
                None => {},
            }
            proof {
                self.inc_nodes.lemma_after_update(&a0, node.0);
            }
        } else {
            let ghost before = self.mut_nodes@;
            self.mut_nodes.push((node, func));
            proof {
                assert forall|i: int, n: &mut Node<D>|
                    0 <= i < self.mut_nodes@.len() implies #[trigger] call_requires(
                    self.mut_nodes@[i].1,
                    (n,),
                ) by {
                    if i < before.len() {
                        assert(self.mut_nodes@[i] == before[i]);
                    }
                }
            }
        }
    }

    /// Replaces a node by what `func` makes of it. A node that was staged in
    /// this transaction is replaced at once, and moves to the end of the
    /// staged nodes; for any other index the closure is queued and runs when
    /// the transaction is committed.
    pub fn update(&mut self, node: NodeIndex, func: U)
        requires
            old(self).wf(),
            forall|n: Node<D>| call_requires(func, (n,)),
        ensures
            final(self).wf(),
            final(self).context_id() == old(self).context_id(),
            final(self).allocator() == old(self).allocator(),
            final(self).unfilled() == old(self).unfilled(),
            final(self).removals() == old(self).removals(),
            final(self).removal_order() == old(self).removal_order(),
            final(self).mutations() == old(self).mutations(),
            final(self).redirects_all() == old(self).redirects_all(),
            final(self).redirects() == old(self).redirects(),
            forall|x: usize| final(self).staged().contains(x) == old(self).staged().contains(x),
            final(self).staged() == if old(self).staged().contains(node.0) {
                crate::order_set::swap_removed(
                    old(self).staged(),
                    old(self).staged().index_of(node.0),
                ).push(node.0)
            } else {
                old(self).staged()
            },
            forall|x: usize|
                x != node.0 && old(self).staged().contains(x) ==> final(self).staged_node(x) == old(
                    self,
                ).staged_node(x),
            final(self).replacements() == if old(self).staged().contains(node.0) {
                old(self).replacements()
            } else {
                old(self).replacements().push((node, func))
            },
            old(self).staged().contains(node.0) ==> crate::model::replaced(
                func,
                old(self).staged_node(node.0),
                final(self).staged_node(node.0),
            ),
    {
        let ghost a0 = self.inc_nodes;
        proof {
            a0.lemma_wf();
        }
        if self.inc_nodes.contains(node) {
            self.inc_nodes.update_with(node, func);
            proof {
                assert(call_ensures(func, (a0.value(node.0),), self.inc_nodes.value(node.0)));
                assert forall|x: usize|
                    self.staged().contains(x) == old(self).staged().contains(x) by {
                    assert(self.inc_nodes.has(x) == a0.has(x));
                }
            }
        } else {
            let ghost before = self.update_nodes@;
            self.update_nodes.push((node, func));
            proof {
                assert forall|i: int, n: Node<D>|
                    0 <= i < self.update_nodes@.len() implies #[trigger] call_requires(
                    self.update_nodes@[i].1,
                    (n,),
                ) by {
                    if i < before.len() {
                        assert(self.update_nodes@[i] == before[i]);
                    }
                }
            }
        }
    }

    /// Queues the redirection of every reference to `old_node`, in the graph
    /// and in the nodes staged in this transaction, to `new_node`.
    pub fn redirect_all_links(&mut self, old_node: NodeIndex, new_node: NodeIndex)
        requires
            old(self).wf(),
        ensures
            final(self).wf(),
            final(self).context_id() == old(self).context_id(),
            final(self).allocator() == old(self).allocator(),
            final(self).unfilled() == old(self).unfilled(),
            final(self).staged() == old(self).staged(),
            forall|x: usize| final(self).staged_node(x) == old(self).staged_node(x),
            final(self).removals() == old(self).removals(),
            final(self).removal_order() == old(self).removal_order(),
            final(self).mutations() == old(self).mutations(),
            final(self).replacements() == old(self).replacements(),
            final(self).redirects() == old(self).redirects(),
            final(self).redirects_all() == old(self).redirects_all().push((old_node, new_node)),
    {
        self.redirect_all_links_vec.push((old_node, new_node));
    }

    /// Queues the redirection of every reference to `old_node` in the graph
    /// to `new_node`. The nodes staged in this transaction keep their
    /// references.
    pub fn redirect_links(&mut self, old_node: NodeIndex, new_node: NodeIndex)
        requires
            old(self).wf(),
        ensures
            final(self).wf(),
            final(self).context_id() == old(self).context_id(),
            final(self).allocator() == old(self).allocator(),
            final(self).unfilled() == old(self).unfilled(),
            final(self).staged() == old(self).staged(),
            forall|x: usize| final(self).staged_node(x) == old(self).staged_node(x),
            final(self).removals() == old(self).removals(),
            final(self).removal_order() == old(self).removal_order(),
            final(self).mutations() == old(self).mutations(),
            final(self).replacements() == old(self).replacements(),
            final(self).redirects_all() == old(self).redirects_all(),
            final(self).redirects() == old(self).redirects().push((old_node, new_node)),
    {
        self.redirect_links_vec.push((old_node, new_node));
    }

    /// Stages all the nodes of `graph`, in their order, under the indices
    /// that they have. The graph must belong to the context of the
    /// transaction, and none of its indices may be staged already. A caller
    /// that cannot tell uses [`Self::try_merge`].
    pub fn merge(&mut self, graph: crate::graph::Graph<D>)
        requires
            old(self).wf(),
            graph.wf(),
            graph.context_id() == old(self).context_id(),
            forall|x: usize| !(graph.has(x) && old(self).staged().contains(x)),
        ensures
            final(self).wf(),
            final(self).context_id() == old(self).context_id(),
            final(self).allocator() == old(self).allocator(),
            final(self).unfilled() == old(self).unfilled(),
            final(self).removals() == old(self).removals(),
            final(self).removal_order() == old(self).removal_order(),
            final(self).mutations() == old(self).mutations(),
            final(self).replacements() == old(self).replacements(),
            final(self).redirects_all() == old(self).redirects_all(),
            final(self).redirects() == old(self).redirects(),
            final(self).staged() == old(self).staged() + graph.order(),
            forall|x: usize|
                old(self).staged().contains(x) ==> final(self).staged_node(x) == old(
                    self,
                ).staged_node(x),
            forall|x: usize| graph.has(x) ==> final(self).staged_node(x) == graph.node(x),
    {
        let _staged = self.try_merge(graph);
    }

    /// Stages all the nodes of `graph`, in their order, under the indices
    /// that they have. A graph of another context, or one with an index
    /// that is staged already, is refused: nothing is staged then.
    pub fn try_merge(&mut self, graph: crate::graph::Graph<D>) -> (r: Result<(), crate::error::CommitError>)
        requires
            old(self).wf(),
            graph.wf(),
        ensures
            final(self).wf(),
            final(self).context_id() == old(self).context_id(),
            final(self).allocator() == old(self).allocator(),
            final(self).unfilled() == old(self).unfilled(),
            final(self).removals() == old(self).removals(),
            final(self).removal_order() == old(self).removal_order(),
            final(self).mutations() == old(self).mutations(),
            final(self).replacements() == old(self).replacements(),
            final(self).redirects_all() == old(self).redirects_all(),
            final(self).redirects() == old(self).redirects(),
            match r {
                Ok(()) => {
                    &&& graph.context_id() == old(self).context_id()
                    &&& forall|x: usize| !(graph.has(x) && old(self).staged().contains(x))
                    &&& final(self).staged() == old(self).staged() + graph.order()
                    &&& forall|x: usize|
                        old(self).staged().contains(x) ==> final(self).staged_node(x) == old(
                            self,
                        ).staged_node(x)
                    &&& forall|x: usize| graph.has(x) ==> final(self).staged_node(x) == graph.node(x)
                },
                Err(e) => {
                    &&& final(self).staged() == old(self).staged()
                    &&& forall|x: usize| final(self).staged_node(x) == old(self).staged_node(x)
                    &&& e == crate::error::CommitError::ContextMismatch <==> graph.context_id() != old(
                        self,
                    ).context_id()
                    &&& e matches crate::error::CommitError::IndexCollision(i) ==> graph.has(i.0)
                        && old(self).staged().contains(i.0)
                    &&& e is ContextMismatch || e is IndexCollision
                },
            },
    {
        proof {
            graph.lemma_arena();
        }
        if graph.ctx_id != self.ctx_id {
            return Err(crate::error::CommitError::ContextMismatch);
        }
        let ghost a0 = self.inc_nodes;
        let ghost order = graph.order();
        proof {
            graph.nodes.lemma_wf();
            a0.lemma_wf();
        }
        let entries = graph.nodes.into_entries();
        proof {
            assert forall|j: int| 0 <= j < entries@.len() implies (#[trigger] entries@[j]).0.0
                == order[j] && entries@[j].1@ == graph.node(order[j]) by {
                graph.nodes.lemma_position(j);
            }
        }
        match self.inc_nodes.try_merge(entries) {
            Ok(()) => {
                proof {
                    let k1 = self.inc_nodes.keys();
                    let v1 = self.inc_nodes.vals();
                    assert(k1 =~= a0.keys() + order);
                    assert forall|x: usize| !(graph.has(x) && a0.has(x)) by {
                        if graph.has(x) && a0.has(x) {
                            let j = choose|j: int| 0 <= j < order.len() && order[j] == x;
                            assert(!crate::arena::clashes(a0.keys(), entries@, j));
                        }
                    }
                    self.inc_nodes.lemma_wf();
                    assert forall|x: usize| a0.has(x) implies self.inc_nodes.value(x) == a0.value(
                        x,
                    ) by {
                        let j = a0.keys().index_of(x);
                        assert(a0.keys()[j] == x);
                        assert(k1[j] == x);
                        self.inc_nodes.lemma_position(j);
                        assert(v1[j] == a0.vals()[j]);
                    }
                    assert forall|x: usize| graph.has(x) implies self.inc_nodes.value(x)@
                        == graph.node(x) by {
                        let j = choose|j: int| 0 <= j < order.len() && order[j] == x;
                        let p = a0.keys().len() + j;
                        assert(k1[p] == x);
                        self.inc_nodes.lemma_position(p);
                        assert(v1[p] == entries@[j].1);
                    }
                }
                Ok(())
            },
            Err(e) => {
                proof {
                    let j = choose|j: int|
                        0 <= j < entries@.len() && crate::arena::clashes(a0.keys(), entries@, j) && e
                            == (if entries@[j].0.0 == 0 {
                            ArenaError::EmptyIndex
                        } else {
                            ArenaError::Occupied(entries@[j].0)
                        });
                    assert(order.contains(order[j]));
                    assert(entries@[j].0.0 != 0);
                    if exists|q: int| 0 <= q < j && entries@[q].0 == entries@[j].0 {
                        let q = choose|q: int| 0 <= q < j && entries@[q].0 == entries@[j].0;
                        assert(order[q] == order[j]);
                    }
                    assert(a0.keys().contains(entries@[j].0.0));
                }
                match e {
                    ArenaError::Occupied(i) => Err(crate::error::CommitError::IndexCollision(i)),
                    _ => Err(crate::error::CommitError::IndexCollision(NodeIndex(0))),
                }
            },
        }
    }

    /// Gives the transaction up: nothing of it reaches any graph.
    pub fn give_up(self) {
    }
}

} // verus!
