//! Content-addressed directory-tree finalization.
//!
//! An assembled tree of directories and already-hashed file leaves is walked
//! bottom-up by an explicit-stack post-order traversal.  Each directory is
//! rendered into the dag-pb wire format, hashed with SHA-256, and given a
//! version-0 content identifier; parents embed the identifiers and cumulative
//! sizes of their children, so the output forms a complete Merkle DAG.

pub mod digest;
pub mod iter;
pub mod path;
pub mod links;
pub mod pb;
pub mod tree;
