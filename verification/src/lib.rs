//! A hierarchical store that indexes absolute, path-like keys into a tree.
//!
//! Paths are sequences of named segments rooted at a single top segment.
//! Insertion creates missing intermediate nodes on demand, attaches an
//! optional payload to the node named by the full path, and keeps a
//! deduplicated count of the non-root nodes created.  Enumeration reports
//! the full path of every current leaf (a node with no children).

pub mod errors;
pub mod pathkey;
pub mod store;

pub use errors::StorageError;
pub use pathkey::{seg_ok, PathKey};
pub use store::PathStore;
pub use store::{join_path, join_segs, vec_has_str};
