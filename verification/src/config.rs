//! Chunking configuration.
use vstd::prelude::*;

verus! {

/// Controls whether and how chunk content hashes are computed.
#[derive(Debug, Clone, Copy, PartialEq, Eq, Structural)]
pub enum ContentHashMode {
    /// Compute a cryptographic BLAKE3 hash per chunk (content-addressing).
    Blake3,
    /// Skip content hashing (CDC boundary finding only).
    Skip,
}

/// Configuration for FastCDC chunking.
#[derive(Debug, Clone, Copy)]
pub struct Config {
    pub min_size: usize,
    pub avg_size: usize,
    pub max_size: usize,
    pub content_hash_mode: ContentHashMode,
}

impl Default for Config {
    /// 8 KiB minimum, 16 KiB average and 32 KiB maximum chunk size, BLAKE3 content hashes.
    fn default() -> (c: Self)
        ensures
            c.min_size == 8 * 1024,
            c.avg_size == 16 * 1024,
            c.max_size == 32 * 1024,
            c.content_hash_mode == ContentHashMode::Blake3,
    {
        Self {
            min_size: 8 * 1024,
            avg_size: 16 * 1024,
            max_size: 32 * 1024,
            content_hash_mode: ContentHashMode::Blake3,
        }
    }
}

} // verus!
