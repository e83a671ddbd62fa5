//! A minimal content-addressed version-control storage engine.
//!
//! The library covers the object database (blob / tree / commit objects,
//! SHA-1 named, zlib compressed), the binary staging index with its
//! conflict-resolution rules, the lockfile protocol, and `HEAD` reference
//! handling.  All file-system effects are described as data (byte vectors
//! and path strings) so that the logic itself is verified; a thin driver
//! performs the actual I/O.

pub mod author;
pub mod blob;
pub mod commit;
pub mod database;
pub mod encoding;
pub mod hashing;
pub mod index;
pub mod index_entry;
pub mod lockfile;
pub mod paths;
pub mod refs;
pub mod tree;
pub mod workspace;
