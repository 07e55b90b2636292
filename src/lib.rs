//! A lossless byte-stream codec: run-length encoding with escaped flag bytes,
//! applied to fixed-size blocks inside a length-prefixed frame.
pub mod format;
pub mod compression;
pub mod decompression;
pub mod laws;

pub use compression::compress;
pub use decompression::{decompress, DecompressError};
pub use format::{BLOCK_SIZE, MAX_INPUT_LEN};
