//! A verified decoder for the GIF87a/89a image format.
//!
//! The crate parses the GIF container block by block, decompresses the
//! LZW-coded image data, and composites full-screen RGB frames under the
//! four GIF disposal disciplines, interlacing and transparency.  Every
//! public function carries a contract relating its result to a
//! mathematical model of the format.

pub mod color;
pub mod decoder;
pub mod error;
pub mod gif_reader;
pub mod header;
pub mod laws;
pub mod lzw;
pub mod parser;
