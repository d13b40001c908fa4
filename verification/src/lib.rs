//! A verified codec for the bencode wire format: byte strings, integers,
//! lists and key-sorted dictionaries, each framed by a one-character type
//! tag with explicit lengths and delimiters.
//!
//! The crate converts between the wire encoding and an in-memory tree of
//! [`value::Value`] nodes, and offers a typed layer, [`bencode::BenCodeAble`],
//! for decoding directly into strings, integers, vectors and dictionaries.

pub mod bencode;
pub mod bytes;
pub mod de;
pub mod dict;
pub mod err;
pub mod laws;
pub mod ser;
pub mod value;

pub use bencode::{from_str, BenCodeAble};
pub use de::from_bytes;
pub use dict::Dict;
pub use err::DeBencodingError;
pub use ser::{to_bytes, to_string};
pub use value::Value;
