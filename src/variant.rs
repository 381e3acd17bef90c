use vstd::prelude::*;

verus! {

/// The three wire encodings, chosen once per encode or decode call.
///
/// | Variant       | Short, Float, Double | Int, Long      | lengths          |
/// |---------------|----------------------|----------------|------------------|
/// | BigEndian     | big-endian           | big-endian     | fixed            |
/// | LittleEndian  | little-endian        | little-endian  | fixed            |
/// | NetworkEndian | little-endian        | zigzag varint  | varint           |
#[derive(Debug, Clone, Copy, PartialEq, Eq, Structural)]
pub enum Variant {
    /// Fixed widths, big-endian (Java Edition).
    BigEndian,
    /// Fixed widths, little-endian (Bedrock Edition on disk).
    LittleEndian,
    /// Variable-length integers and lengths, little-endian otherwise
    /// (Bedrock Edition on the network).
    NetworkEndian,
}

} // verus!
