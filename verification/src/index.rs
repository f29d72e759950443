//! The handle by which nodes refer to each other.

use vstd::prelude::*;

verus! {

/// The index of a node.
///
/// The index is independent of any graph: holding one says nothing about
/// whether a node is stored under it. The value `0` is reserved for "no node".
#[derive(Debug, Clone, Copy, PartialEq, Eq, Structural, Hash, PartialOrd, Ord)]
pub struct NodeIndex(pub usize);

impl NodeIndex {
    /// The index that points at no node.
    pub fn empty() -> (r: NodeIndex)
        ensures
            r.0 == 0,
    {
        NodeIndex(0)
    }

    /// Whether this index points at no node.
    pub fn is_empty(&self) -> (r: bool)
        ensures
            r == (self.0 == 0),
    {
        self.0 == 0
    }
}

impl Default for NodeIndex {
    fn default() -> (r: NodeIndex)
        ensures
            r.0 == 0,
    {
        NodeIndex(0)
    }
}

/// An index type that an arena can hand out: a thin layer over the number
/// that the allocator produced.
pub trait ArenaIndex: Copy {
    /// The number behind the index.
    spec fn spec_id(self) -> usize;

    /// Wraps a number.
    fn new(id: usize) -> (r: Self)
        ensures
            r.spec_id() == id,
    ;

    /// Unwraps the number.
    fn id(&self) -> (r: usize)
        ensures
            r == self.spec_id(),
    ;
}

impl ArenaIndex for NodeIndex {
    open spec fn spec_id(self) -> usize {
        self.0
    }

    fn new(id: usize) -> (r: Self) {
        NodeIndex(id)
    }

    fn id(&self) -> (r: usize) {
        self.0
    }
}

} // verus!
