//! Base122: a binary-to-text codec that packs seven payload bits into every
//! byte of its output.
//!
//! [`encode`] reads a byte buffer as a stream of bits and cuts it into
//! seven-bit chunks. A chunk becomes one character below 128, unless it is one
//! of six dangerous values (NUL, line feed, carriage return, double quote,
//! ampersand, backslash); such a chunk and the chunk behind it become one
//! two-byte character together. [`decode`] reads the characters back into
//! chunks and packs the chunks into bytes. The text needs no length field:
//! the bits that do not fill a last byte are dropped.
//!
//! The contracts are stated over the modules [`bits`] (the bit stream),
//! [`alphabet`] (the characters) and [`text`] (the text as a whole); [`laws`]
//! holds what follows for the codec as a whole.

pub mod alphabet;
pub mod bits;
pub mod decoder;
pub mod encoder;
pub mod laws;
pub mod reader;
pub mod text;
pub mod utf8;
pub mod writer;

pub use decoder::{decode, DecodeError};
pub use encoder::encode;
pub use reader::BitReader;
pub use writer::BitWriter;
