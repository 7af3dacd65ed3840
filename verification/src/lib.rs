//! Coordination logic for indexing subgraphs against a chain that may
//! reorganize.
//!
//! The crate holds the decisions of the indexing core as verified state
//! machines and data structures. Everything that talks to a chain node, a
//! database or a mapping runtime is left to the caller, which performs the
//! requests that the machines hand out and feeds the answers back in.
//!
//! * [`block`]: block hashes, block pointers and block headers.
//! * [`filter`]: chain events and the filters that select them.
//! * [`walker`]: the reconciliation walker, which moves a subgraph's block
//!   pointer toward the chain head, one request at a time.
//! * [`traces`]: what holds of every walk.
//! * [`deep`]: the advance through the blocks that the chain finds deep
//!   below the head.
//! * [`indexing`]: what a walk does to the store.
//! * [`rounds`]: whole rounds of a walk, and what a reorganization comes
//!   to.
//! * [`store`]: the persisted state of a subgraph, with the theorems that
//!   connect advancing and reverting.
//! * [`manager`]: the registry of hosted subgraphs, their hosts and their
//!   cancel handles.
//! * [`watcher`]: the per-subgraph watcher that turns head updates into
//!   walks, one at a time.

pub mod block;
pub mod deep;
pub mod filter;
pub mod indexing;
pub mod manager;
pub mod rounds;
pub mod store;
pub mod traces;
pub mod walker;
pub mod watcher;
