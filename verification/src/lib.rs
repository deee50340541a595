//! A polling observer of directory trees.
//!
//! The library keeps a forest of in-memory mirror trees of the watched
//! directories, reconciles it with what was found on disk, and says which
//! change events follow. It also decodes permission words and answers read
//! commands. Everything in it works on plain values: what was found on disk is
//! handed in, what has to be sent is handed out.

pub mod atomic;
pub mod config;
pub mod disk;
pub mod error;
pub mod forest;
pub mod path;
pub mod reader;
pub mod watcher;
pub mod workers;
