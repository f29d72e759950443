//! The identity that a graph and its transactions share.

use vstd::prelude::*;
use crate::id_distributer::IdDistributer;

verus! {

/// `Uuid::new_v4` and `Uuid::as_u128`: a random 128-bit identifier, as a
/// number. Nothing is promised of the number.
#[verifier::external_body]
fn random_id() -> u128 {
    uuid::Uuid::new_v4().as_u128()
}

/// The context of a graph: an identifier and the allocator of node indices.
///
/// A transaction can only be committed to a graph of the same context; this
/// is what keeps the indices of staged nodes apart from those of the graph.
#[derive(Debug)]
pub struct Context {
    id: u128,
    node_dist: IdDistributer,
}

impl Context {
    /// The identifier of the context.
    pub closed spec fn spec_id(&self) -> u128 {
        self.id
    }

    /// A new context with a random identifier and a fresh allocator.
    pub fn new() -> (c: Context)
        ensures
            c.allocator().floor() == 0,
    {
        Context { id: random_id(), node_dist: IdDistributer::new() }
    }

    /// The context with the given identifier whose allocator has handed out
    /// the indices up to `cnt`.
    pub fn from_id(id: u128, cnt: usize) -> (c: Context)
        ensures
            c.spec_id() == id,
            c.allocator().floor() == cnt,
    {
        Context { id, node_dist: IdDistributer::from_count(cnt) }
    }

    /// The identifier of the context.
    pub fn id(&self) -> (r: u128)
        ensures
            r == self.spec_id(),
    {
        self.id
    }

    /// A handle on the allocator of this context, on the same counter.
    pub fn distributer(&self) -> (r: IdDistributer)
        ensures
            r == self.allocator(),
    {
        self.node_dist.share()
    }

    /// The allocator of the context.
    pub closed spec fn allocator(&self) -> IdDistributer {
        self.node_dist
    }
}

impl Default for Context {
    fn default() -> Context {
        Context::new()
    }
}

impl Clone for Context {
    fn clone(&self) -> (c: Context)
        ensures
            c.spec_id() == self.spec_id(),
            c.allocator() == self.allocator(),
    {
        Context { id: self.id, node_dist: self.node_dist.share() }
    }
}

} // verus!
