//! Shared helpers.
pub mod bits;
pub mod bytes;
pub mod crc32;
pub mod crc64;
pub mod error;
pub mod limits;
pub mod lz;
pub mod sorting;
pub mod xxhash;
