//! A decoder for the QOI ("Quite OK Image") format: a 14-byte header, a
//! stream of byte-oriented opcodes and an 8-byte end marker, turned into a
//! flat RGBA8 pixel buffer.
pub mod cache;
pub mod decode;
pub mod header;
pub mod opcode;
pub mod pixel;
pub mod theorems;

pub use cache::ColorCache;
pub use decode::ImageData;
pub use header::{read_header, DecodeError, Header};
pub use opcode::{read_op, Op};
pub use pixel::Pixel;
