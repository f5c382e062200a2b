//! Decoding of PNG images: a bit reader, canonical Huffman codes, a DEFLATE decompressor,
//! the zlib container and the PNG chunk format with scanline filter reversal.
use vstd::prelude::*;

pub mod error;
pub mod fiddling;
pub mod huffman;
pub mod png;
pub mod deflate;
pub mod digest;
pub mod zlib;

verus! {

} // verus!
