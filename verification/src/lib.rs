//! Staleness-aware fingerprint cache for a per-file analysis pipeline.
//!
//! The library decides, for each file path, whether previously computed
//! fingerprints (an exact content digest plus an optional perceptual digest
//! for images) are still valid, and persists fingerprints behind a pluggable
//! storage backend: a local file-backed map or a remote key-value service.
//!
//! Paths, file sizes and modification times enter the library as plain
//! values (`&str`, `u64`); all file and network I/O stays with the caller
//! or behind small trusted wrappers around the outside crates.

pub mod enhanced_cache;
pub mod metadata_preserve;
pub mod semantic_hash;
pub mod sidecar;
pub mod store_codec;
pub mod strutil;
