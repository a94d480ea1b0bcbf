//! Traversal of an unknown, possibly cyclic directed graph whose edges are
//! discovered one node at a time through a fetch capability. Every node that
//! can be reached from the start node is claimed once, and the traversal
//! ends when none is left.
//!
//! Three engines do the same work in different ways. `serial` walks depth
//! first on one thread. `shared` holds what the tasks of the shared-state
//! engine decide, which claim in one ledger behind a lock. `coordinator`
//! holds the one owner of the ledger that hands fetches out to workers and
//! counts the outstanding ones. `agreement` shows that the three end with
//! the same set of nodes, which `graph` defines.

pub mod agreement;
pub mod coordinator;
pub mod depth_first;
pub mod fetch;
pub mod graph;
pub mod ledger;
pub mod serial;
pub mod shared;
