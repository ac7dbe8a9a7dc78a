pub mod bits;
pub mod error;
pub mod huffman;
pub mod jpg;
pub mod png;
pub mod printer;
pub mod zlib;

pub use crate::error::InflateError;
pub use crate::png::{Chunk, ChunkType, ColorType, ImageHeader, PNGImage, PngError};
pub use crate::printer::{ImgData, Pixel};
pub use crate::zlib::inflate;
