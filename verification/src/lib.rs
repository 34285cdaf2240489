//! Directory tree traversal: filtering, cycle detection, ignore rules, pruning and the two
//! traversal engines, as state machines that ask their driver for what only the file system
//! can tell.

pub mod config;
pub mod descend;
pub mod engine;
pub mod entry;
pub mod error;
pub mod filter;
pub mod ignoring;
pub mod laws;
pub mod limiter;
pub mod listing;
pub mod machine;
pub mod node;
pub mod ordered_model;
pub mod parallel_model;
pub mod path;
pub mod protocol;
pub mod shared;
pub mod streaming;
pub mod streaming_model;
pub mod task;
pub mod visited;
pub mod walk;
