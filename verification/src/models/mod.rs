//! The graph in memory, its cells and collections, and the index file.

pub mod cache_loader;
pub mod common;
pub mod custom_buffered_writer;
pub mod endian;
pub mod file_persist;
pub mod identity_collections;
pub mod lazy_load;
pub mod node_arena;
pub mod registry_laws;
pub mod serializer;
pub mod text;
pub mod types;
pub mod versioning;
