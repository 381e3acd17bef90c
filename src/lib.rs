//! Codec for the tag-based binary tree format (NBT) in its three wire
//! encodings: fixed-width big-endian, fixed-width little-endian, and the
//! network variant with variable-length integers.
//!
//! [`from_bytes`] decodes a document into a [`Value`] tree and [`to_bytes`]
//! encodes one; [`Deserializer`] walks a document field by field for a reader
//! that knows the shape it expects. Every function is specified against the
//! grammar in [`grammar`], and [`laws`] proves that decoding what the encoder
//! wrote gives back the same tree.

pub mod de;
pub mod decode;
pub mod encode;
pub mod error;
pub mod grammar;
pub mod laws;
pub mod record;
pub mod ser;
pub mod tag;
pub mod value;
pub mod variant;
pub mod varint;
pub mod wire;

pub use de::{from_be_bytes, from_bytes, from_le_bytes, from_net_bytes, Deserializer, SeqDeserializer};
pub use error::{NbtError, Shape};
pub use grammar::MAX_DEPTH;
pub use record::record_compound;
pub use ser::{to_be_bytes, to_bytes, to_bytes_in, to_bytes_named, to_le_bytes, to_net_bytes};
pub use tag::FieldType;
pub use value::Value;
pub use variant::Variant;
