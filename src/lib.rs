//! Finds build-cache directories in a snapshot of a directory tree.
//!
//! A cache is a directory named `target` that directly holds a regular file
//! named `CACHEDIR.TAG`. The walker reports the directories that directly
//! contain a cache, never looking inside a cache and never going deeper than
//! a fixed bound.
pub mod tree;
pub mod walk;
pub mod laws;

pub use tree::{is_cache, Dir, CACHE_DIR_NAME, CACHE_MARKER, MAX_DEPTH};
pub use walk::{cache_children, collect_candidates, walk_dirs, Candidate};
