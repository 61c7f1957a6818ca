//! Content-addressed object store core: a dictionary-based two-stage codec,
//! its symbol bookkeeping, and the framed wire protocol that carries objects.

pub mod config;
pub mod utils;
pub mod protocol;
pub mod engine;
pub mod storage;
pub mod session;
pub mod startup;
