//! A cache-first directory-tree indexer: a verified record codec, an
//! append-only record log, a path index, a bounded recency window, the lazy
//! store composed from them, the traversal engine's decisions, the rescan
//! policy and the tree printers.

pub mod error;
pub mod bytes;
pub mod text;
pub mod entry;
pub mod codec;
pub mod log;
pub mod pathset;
pub mod strmap;
pub mod index;
pub mod window;
pub mod lazy;
pub mod render;
pub mod skip;
pub mod cli;
pub mod policy;
pub mod traversal;
pub mod scheduler;
pub mod usn;
