//! A persistent HNSW graph whose nodes live in an arena and are written to,
//! and demand-loaded from, a chunked little-endian index file.

pub mod api_service;
pub mod models;
pub mod vector_store;
