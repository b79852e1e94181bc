//! An in-memory, index-based arena tree: ordered n-ary trees with
//! parent/child/sibling navigation, structural mutation, and traversal.
//!
//! All relationships are stored as integer positions into a growable backing
//! store, so the structure needs no pointers and never reclaims storage for
//! removed nodes; removal merely unlinks a record.

pub mod arena;
pub mod context_iter;
pub mod model;

pub use context_iter::ContextIterator;
