//! Scans a project directory tree, decides which files and directories are
//! visible under a layered ignore-rule policy, and renders the result as a
//! textual tree plus concatenated file contents.
//!
//! The verified core covers the gitignore-style pattern engine, the layered
//! per-directory ignore-rule store, the directory-tree accumulator and the
//! deterministic renderers. Filesystem walking, argument handling and output
//! writing are left to an unverified front end that feeds plain values in.

pub mod pathutil;
pub mod pattern;
pub mod render;
pub mod sniff;
pub mod store;
pub mod tree;
