//! An in-memory editor core for JSON documents.
//!
//! The crate keeps a parsed document in a tree whose every node caches the
//! line and byte counts of its own pretty-printed text, so that the cost of
//! a shape query or a mutation is proportional to the depth of the edited
//! path rather than to the size of the document.  A second, lazily
//! materialized tree projects the expanded part of the document onto a flat
//! list of rows for a virtualized list widget.
pub mod action;
pub mod error;
pub mod laws;
pub mod loading;
pub mod math;
pub mod model;
pub mod node;
pub mod preview;
pub mod raw;
pub mod util;
pub mod worktree;
