//! The ways in which a commit is refused.

use vstd::prelude::*;
use crate::index::NodeIndex;
use crate::link::LinkConflict;
use crate::schema::LinkTypeError;

verus! {

/// Why a transaction was not, or not fully, applied.
///
/// The first six errors are found before the graph is touched, and leave it
/// as it was. The others are found while bidirectional links are brought in
/// step, link types are checked, or the checks of the caller are run; by then
/// the staged changes have been applied, and the graph keeps them.
#[derive(Debug, PartialEq, Eq)]
pub enum CommitError {
    /// The transaction belongs to another context than the graph.
    ContextMismatch,
    /// An index was reserved and never filled.
    UnfilledReservation(NodeIndex),
    /// A staged node has an index that the graph already holds.
    IndexCollision(NodeIndex),
    /// A queued mutation, update or removal names an index that neither the
    /// graph nor the transaction holds.
    MissingNode(NodeIndex),
    /// The redirections of the transaction form a loop.
    LoopRedirection,
    /// The allocator of the context has no index left to hand out.
    IdsExhausted,
    /// A link was added whose target has more than one field that could
    /// mirror it, and none does yet.
    AmbiguousBidirectional { source: NodeIndex, target: NodeIndex, field: usize },
    /// A link was added whose mirror field on the target cannot take it.
    BidirectionalConflict { source: NodeIndex, target: NodeIndex, field: usize, reason: LinkConflict },
    /// A link was added whose target has a shape that its declaration does
    /// not allow.
    LinkType(LinkTypeError),
    /// Some of the checks that were run on the changes failed; their names.
    CheckFailed(Vec<String>),
}

impl CommitError {
    /// Whether the error was found before the graph was touched.
    pub open spec fn early(self) -> bool {
        match self {
            CommitError::ContextMismatch => true,
            CommitError::UnfilledReservation(_) => true,
            CommitError::IndexCollision(_) => true,
            CommitError::MissingNode(_) => true,
            CommitError::LoopRedirection => true,
            CommitError::IdsExhausted => true,
            _ => false,
        }
    }

    /// Whether the error was found before the graph was touched.
    pub fn is_early(&self) -> (r: bool)
        ensures
            r == self.early(),
    {
        match self {
            CommitError::ContextMismatch => true,
            CommitError::UnfilledReservation(_) => true,
            CommitError::IndexCollision(_) => true,
            CommitError::MissingNode(_) => true,
            CommitError::LoopRedirection => true,
            CommitError::IdsExhausted => true,
            _ => false,
        }
    }
}

} // verus!
