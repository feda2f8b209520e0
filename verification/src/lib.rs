//! A minimal version-control storage engine: a content-addressed object
//! store, a binary staging index, tree snapshots of a directory hierarchy,
//! named references with one level of symbolic indirection, and a checkout
//! engine that reconciles the working tree, the index and a target commit.
//!
//! The engine works on an in-memory picture of the repository: maps from
//! names to file contents. Reading that picture from disk and writing it
//! back is left to the caller; every rule about what the stores hold is
//! stated and proved here.
pub mod bytes;
pub mod checkout;
pub mod commands;
pub mod commit;
pub mod error;
pub mod hashing;
pub mod index;
pub mod kvstore;
pub mod object;
pub mod reference;
pub mod repository;
pub mod strings;
pub mod tree;
pub mod workdir;
