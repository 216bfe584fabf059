//! A verified core for a workspace manager: a tool that keeps a local
//! directory tree in sync with a declared set of version-controlled
//! repositories.
//!
//! The library holds the logic: the repository model with its identity
//! and ordering, the lockfile codec, the lock-generation pipeline
//! (sort and deduplicate), the archive detector's pruned classification,
//! and the batch engine's bookkeeping. Filesystem access, subprocesses,
//! terminals and threads live outside the library and hand it plain values.

pub mod archive;
pub mod commands;
pub mod dedup;
pub mod engine;
pub mod errors;
pub mod lockfile;
pub mod order;
pub mod repository;
