//! Building fixed-size ROM images: a buffer padded with `0xFF`, into which
//! the contents of input files are written one after another.
pub mod image;
pub mod parse;
