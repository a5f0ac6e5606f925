//! Snapshots of files and directories as values that compare like ordinary data.
//!
//! A [`Content`] is what lies at a path, with no name of its own: the bytes of a
//! file, or the named children of a directory in listing order. An [`Entry`] pairs
//! a name with a content. Two snapshots are equal when their trees are equal.
//!
//! Reading the filesystem is left to the caller: a [`Walk`] asks for one path at a
//! time, is handed what was found there as a [`Probe`], and assembles the tree.

pub mod laws;
pub mod name;
pub mod tree;
pub mod walk;

pub use tree::{Content, Entry, EntryError};
pub use walk::{Probe, Walk};
