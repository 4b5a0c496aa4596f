//! Cairn: a universal, content-addressed build cache.
//!
//! The verified engine: FNV-1a content hashing, the canonical cache key,
//! the canonical manifest JSON, the layout of the content-addressed store
//! and the command-line grammar of the `cairn` tool.

pub mod text;
pub mod hash;
pub mod json;
pub mod manifest;
pub mod store;
pub mod cli;

