//! A parallel archiving toolchain built around a content-addressed index of a
//! directory tree.
//!
//! The library holds the verified core: lexical path analysis, the tree data
//! model with its bottom-up metadata and Merkle-hash reductions, the
//! serializable mirror of the tree, the work/result pipe discipline of the
//! tar engine, and the engine's bookkeeping (shard names, permission plans,
//! reconciliation of requested against processed work).

pub mod archive;
pub mod crypto;
pub mod error;
pub mod files;
pub mod path;
pub mod pipe;
pub mod serialize;
pub mod text;
pub mod tree;
