//! Content-defined chunking (FastCDC with a gear rolling hash).

pub mod analysis;
pub mod chunk;
pub mod config;
pub mod gear;
pub mod stream;

pub use config::{Config, ContentHashMode};
pub use gear::{GEAR_TABLE, find_cutpoint, find_cutpoint_avx2, find_cutpoint_scalar, update_hash};
