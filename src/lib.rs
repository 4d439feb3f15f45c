//! Tora: a compact little-endian binary encoding for typed values, with a
//! decoder for each encoder and a proof that decoding undoes encoding.

pub mod stream;
pub mod wire;
pub mod write;
pub mod read;
pub mod union;
pub mod schema;

