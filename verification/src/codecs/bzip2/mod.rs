//! bzip2.
pub mod bitio;
pub mod blocks;
pub mod bwt;
pub mod crc;
pub mod decode;
pub mod encode;
pub mod join;
pub mod pack;
pub mod plan;
pub mod syntax;

pub use decode::{decompress, Bzip2Reader};
pub use encode::{compress, Bzip2Encoder};
