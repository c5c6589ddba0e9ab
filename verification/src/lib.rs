//! A verified virtual file system and package cache for a document compiler.
//!
//! The crate resolves logical file identifiers to byte content held in a
//! key-value store, deduplicating identical content reachable through
//! different paths and decoding text lazily, exactly once per resolved path.
//! A package manager parses package coordinates, materializes downloaded
//! archives into the store, and supports listing and deleting packages.

pub mod codec;
pub mod decimal;
pub mod digest;
pub mod errors;
pub mod file;
pub mod package;
pub mod paths;
pub mod store;
pub mod strutil;
pub mod text;
