//! A minimal version-control storage engine: a content-addressed object
//! store, a staging index kept sorted by path, the propagation of tree hashes
//! from a changed path up to the repository root, and commits chained on
//! branch heads.
//!
//! Everything here works on plain values held in memory. Reading the working
//! tree and writing the repository directory is left to the caller.

pub mod assemble;
pub mod blob;
pub mod bytes;
pub mod commit;
pub mod config;
pub mod digest;
pub mod error;
pub mod index;
pub mod layout;
pub mod lines;
pub mod path;
pub mod propagate;
pub mod refs;
pub mod stage;
pub mod store;
pub mod tree;
