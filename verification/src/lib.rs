//! Packaging of a directory tree into a single zip archive.
//!
//! The traversal of the tree is a state machine that asks its caller for
//! directory listings and file contents and decides which entries the archive
//! receives; the archive itself is written by the `zip` crate.

pub mod file_utils;
pub mod options;
pub mod error;
pub mod traversal;
pub mod write;
pub mod filesystem;
pub mod correctness;
