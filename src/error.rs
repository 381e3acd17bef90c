use crate::tag::FieldType;
use vstd::prelude::*;

verus! {

/// Shapes of typed data that none of the twelve value tags can hold.
#[derive(Debug, Clone, Copy, PartialEq, Eq, Structural)]
pub enum Shape {
    Char,
    U8,
    U16,
    U32,
    U64,
    I128,
    U128,
    StrRef,
    ByteSlice,
    Unit,
    UnitStruct,
    NewtypeStruct,
    TupleStruct,
    Enum,
}

impl Shape {
    /// Why a value of this shape cannot be decoded.
    pub fn message(&self) -> (r: &'static str) {
        match self {
            Shape::Char => "Deserialization of `char` is not supported",
            Shape::U8 => "Deserialization of `u8` is not supported",
            Shape::U16 => "Deserialization of `u16` is not supported",
            Shape::U32 => "Deserialization of `u32` is not supported",
            Shape::U64 => "Deserialization of `u64` is not supported",
            Shape::I128 => "Deserialization of `i128` is not supported",
            Shape::U128 => "Deserialization of `u128` is not supported",
            Shape::StrRef => "Deserializing string references is not supported",
            Shape::ByteSlice => "Deserializing byte slices is not supported",
            Shape::Unit => "Deserializing unit values is not supported",
            Shape::UnitStruct => "Deserializing unit structs is not supported",
            Shape::NewtypeStruct => "Deserializing newtype structs is not supported",
            Shape::TupleStruct => "Deserializing tuple structs is not supported",
            Shape::Enum => "Deserializing enums is not supported",
        }
    }
}

/// Everything that can go wrong while encoding or decoding.
#[derive(Debug, Clone, Copy, PartialEq, Eq, Structural)]
pub enum NbtError {
    /// A tag-directed read found another tag than the one it needs.
    UnexpectedType { expected: FieldType, actual: FieldType },
    /// A tag byte outside the legal range 0 to 12.
    UnrecognizedTag(u8),
    /// A shape that the format cannot represent.
    Unsupported(Shape),
    /// The input ended before the value it holds was complete.
    UnexpectedEof,
    /// A string's bytes are not valid UTF-8.
    InvalidUtf8,
    /// A sequence's length differs from the fixed length that the reader asked for.
    LengthMismatch { expected_len: u32, found_len: u32 },
    /// An End tag stands where a value must be.
    UnmatchedEnd,
    /// A variable-length integer runs past the bytes that its width allows.
    VarintTooLong,
    /// Lists and compounds are nested deeper than the decoder allows.
    DepthExceeded,
    /// A string or sequence is too long for the length prefix of the variant.
    TooLong,
    /// The elements of a list do not all carry the same tag.
    MixedList,
}

impl NbtError {
    /// A human-readable description of the error.
    pub fn message(&self) -> (r: &'static str) {
        match self {
            NbtError::UnexpectedType { .. } => "unexpected tag",
            NbtError::UnrecognizedTag(_) => "unrecognized tag byte",
            NbtError::Unsupported(shape) => shape.message(),
            NbtError::UnexpectedEof => "input ended early",
            NbtError::InvalidUtf8 => "string is not valid UTF-8",
            NbtError::LengthMismatch { .. } => "sequence length differs from the expected length",
            NbtError::UnmatchedEnd => "encountered unmatched end tag",
            NbtError::VarintTooLong => "variable-length integer is too long",
            NbtError::DepthExceeded => "nesting is too deep",
            NbtError::TooLong => "string or sequence is too long for its length prefix",
            NbtError::MixedList => "list elements carry different tags",
        }
    }
}

} // verus!
