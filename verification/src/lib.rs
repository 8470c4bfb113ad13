//! Manifest-based directory synchronization engine.
//!
//! The library builds a content-addressed manifest of a directory tree,
//! diffs it against a remote manifest, and plans the minimal set of
//! actions (add, update, delete) that brings the tree in line with the
//! remote side.  All decision logic is verified; file, network and
//! archive I/O live outside the library and talk to it in plain values.

pub mod archive;
pub mod codec;
pub mod diff;
pub mod digest;
pub mod launcher;
pub mod manifest;
pub mod remote;
pub mod sync;
pub mod text;
pub mod tree;
