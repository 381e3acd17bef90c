use vstd::prelude::*;

verus! {

/// The thirteen wire type tags, with their one-byte discriminants.
#[derive(Debug, Clone, Copy, PartialEq, Eq, Structural)]
pub enum FieldType {
    End,
    Byte,
    Short,
    Int,
    Long,
    Float,
    Double,
    ByteArray,
    String,
    List,
    Compound,
    IntArray,
    LongArray,
}

/// The tag that a byte names on the wire, if it names one.
pub open spec fn tag_of(b: u8) -> Option<FieldType> {
    if b == 0 {
        Some(FieldType::End)
    } else if b == 1 {
        Some(FieldType::Byte)
    } else if b == 2 {
        Some(FieldType::Short)
    } else if b == 3 {
        Some(FieldType::Int)
    } else if b == 4 {
        Some(FieldType::Long)
    } else if b == 5 {
        Some(FieldType::Float)
    } else if b == 6 {
        Some(FieldType::Double)
    } else if b == 7 {
        Some(FieldType::ByteArray)
    } else if b == 8 {
        Some(FieldType::String)
    } else if b == 9 {
        Some(FieldType::List)
    } else if b == 10 {
        Some(FieldType::Compound)
    } else if b == 11 {
        Some(FieldType::IntArray)
    } else if b == 12 {
        Some(FieldType::LongArray)
    } else {
        None
    }
}

impl FieldType {
    /// The byte that stands for this tag on the wire.
    pub open spec fn spec_byte(self) -> u8 {
        match self {
            FieldType::End => 0,
            FieldType::Byte => 1,
            FieldType::Short => 2,
            FieldType::Int => 3,
            FieldType::Long => 4,
            FieldType::Float => 5,
            FieldType::Double => 6,
            FieldType::ByteArray => 7,
            FieldType::String => 8,
            FieldType::List => 9,
            FieldType::Compound => 10,
            FieldType::IntArray => 11,
            FieldType::LongArray => 12,
        }
    }

    /// The byte that stands for this tag on the wire.
    #[verifier::when_used_as_spec(spec_byte)]
    pub fn to_byte(self) -> (r: u8)
        ensures
            r == self.spec_byte(),
            r <= 12,
    {
        match self {
            FieldType::End => 0,
            FieldType::Byte => 1,
            FieldType::Short => 2,
            FieldType::Int => 3,
            FieldType::Long => 4,
            FieldType::Float => 5,
            FieldType::Double => 6,
            FieldType::ByteArray => 7,
            FieldType::String => 8,
            FieldType::List => 9,
            FieldType::Compound => 10,
            FieldType::IntArray => 11,
            FieldType::LongArray => 12,
        }
    }

    /// Reads a tag byte: the tag it names, or `None` for a byte above 12.
    pub fn from_byte(b: u8) -> (r: Option<FieldType>)
        ensures
            r == tag_of(b),
            r is Some <==> b <= 12,
    {
        match b {
            0 => Some(FieldType::End),
            1 => Some(FieldType::Byte),
            2 => Some(FieldType::Short),
            3 => Some(FieldType::Int),
            4 => Some(FieldType::Long),
            5 => Some(FieldType::Float),
            6 => Some(FieldType::Double),
            7 => Some(FieldType::ByteArray),
            8 => Some(FieldType::String),
            9 => Some(FieldType::List),
            10 => Some(FieldType::Compound),
            11 => Some(FieldType::IntArray),
            12 => Some(FieldType::LongArray),
            _ => None,
        }
    }
}

} // verus!
