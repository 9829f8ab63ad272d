//! The loader implementations: caching, combining, directory-backed,
//! archive-backed and in-memory.

pub mod cached;
pub mod combined;
pub mod directory;
pub mod memory;
pub mod zip;
