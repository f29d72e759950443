//! A transactional store for typed nodes that reference each other by index.
//!
//! Nodes live in a [`Graph`]. A graph is only ever changed by committing a
//! [`Transaction`]: a staged batch of insertions, removals, mutations and
//! redirections. While it applies the batch, the commit engine keeps a reverse
//! index of every link, resolves chained redirections, and keeps declared
//! bidirectional link pairs in step.
//!
//! A function of this crate does not panic. Where a call would be a fault
//! of the caller (a second fill of one index, a commit with an unfilled
//! reservation or for another context, redirections in a loop), the function
//! leaves such input out by its `requires`, and a function of the same name
//! with `try_` before it takes any input and answers with the error.
//!
//! Everything in this crate is checked by Verus. The few calls into the
//! `ordermap` and `uuid` crates, and the one call of a sort of `std`, go
//! through the wrappers of [`order_set`], [`context`] and [`triples`], whose
//! contracts are stated but not proved.

pub mod index;
pub mod id_distributer;
pub mod order_set;
pub mod ord_map;
pub mod insertion_set;
pub mod link;
pub mod node;
pub mod arena;
pub mod back_links;
pub mod changes;
pub mod schema;
pub mod text;
pub mod triples;
pub mod redirect;
pub mod context;
pub mod error;
pub mod check;
pub mod model;
pub mod graph;
pub mod transaction;

pub use arena::{Arena, ArenaError};
pub use check::{CheckResult, GraphCheck};
pub use context::Context;
pub use error::CommitError;
pub use graph::serialize::{deserialize_graph, GraphSerializer};
pub use graph::Graph;
pub use id_distributer::IdDistributer;
pub use index::{ArenaIndex, NodeIndex};
pub use insertion_set::InsertionSet;
pub use link::{Link, LinkConflict, LinkType, ModifyResult, Source};
pub use node::Node;
pub use schema::{LinkTypeError, Schema};
pub use transaction::Transaction;
