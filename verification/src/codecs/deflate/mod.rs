//! Deflate and Deflate64.
pub mod bitwriter;
pub mod compress;
pub mod huffman;
pub mod inflate;
pub mod header;
pub mod history;
pub mod lz77;
pub mod source;
pub mod stored;
pub mod streams;
pub mod tokens;
