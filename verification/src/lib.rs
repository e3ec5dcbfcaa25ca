//! A deduplicated, content-addressed filesystem-snapshot store layered on a
//! Merkle-tree object database.
//!
//! A filesystem state is captured as a tree of small "shadow" records
//! (content hash plus size) instead of full file contents.  The tree lives in
//! a content-addressed object database that structurally shares identical
//! subtrees, while the actual file bytes live in an external bulk store
//! ("substance") keyed by content hash.

pub mod args;
pub mod database;
pub mod edit;
pub mod error;
pub mod names;
pub mod objects;
pub mod paths;
pub mod plant;
pub mod shadow;
pub mod snapshot;
pub mod text;
pub mod traverse;
