//! A compact binary codec: variable-length integers, bit-packed booleans,
//! a one-byte shortcut for common floats, and length-prefixed payloads.
//!
//! A [`JaguarSerializer`] gathers the encodings of the values written to it,
//! one after the other and with nothing between them; a
//! [`JaguarDeserializer`] walks such bytes and gives the values back, if it
//! is asked for the same kinds in the same order. The stream names no types
//! and no fields.
//!
//! Every encoding is stated as a function from a value to bytes, every
//! decoding as a function from bytes to a value and the number of bytes it
//! took, or to an error. Each writing function appends exactly what the
//! format says, each reading function returns exactly what the format makes
//! of the bytes that remain, and decoding what was encoded gives the value
//! back.
//!
//! Multi-byte raw values (the four or eight bytes of a float that has no
//! marker, the words of a 32-bit slice) are laid down least significant
//! byte first on every machine.

pub mod bools;
pub mod codec;
pub mod error;
pub mod floats;
pub mod items;
pub mod laws;
pub mod payload;
pub mod reader;
pub mod slices;
pub mod varint;
pub mod writer;
pub mod zigzag;

pub use codec::{
    deserialize, serialize, ArrayItem, JaguarDeserialize, JaguarSerialize, StrRef, Value,
};
pub use error::SerError;
pub use floats::{Double, Single};
pub use reader::JaguarDeserializer;
pub use writer::JaguarSerializer;
