//! Transform core of a bzip2-style block compressor: Burrows-Wheeler transform,
//! move-to-front with run-length coding of zero runs, and length-limited
//! Huffman coding, plus the byte-level run-length pre-pass.

pub mod bwt;
pub mod mtf;
pub mod huff;
pub mod rle;
