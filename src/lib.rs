//! Reading, editing and writing a PNG-style chunk container: a fixed
//! signature followed by length-prefixed, tagged and CRC-checked chunks.

pub mod chunk;
pub mod chunk_type;
pub mod error;
pub mod png;
mod text;
