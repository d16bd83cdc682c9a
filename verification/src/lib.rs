//! Repository index and resolution engine for a directory-jump tool.
//!
//! The crate builds a name-to-path index of repository roots found by
//! scanning a directory tree, persists that index as a small JSON document,
//! and resolves a fuzzy query against the indexed names.
pub mod bytes;
pub mod codec;
pub mod index;
pub mod install;
pub mod resolve;
pub mod scan;
