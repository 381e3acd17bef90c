//! Decoding entry points: whole documents into [`Value`] trees, and a
//! step-by-step [`Deserializer`] that a schema-driven reader can drive.

use crate::decode::{decode_document, read_bytes, read_payload, read_str};
use crate::error::NbtError;
use crate::grammar::{parse_byte_array, parse_document, parse_payload, parse_str};
use crate::tag::FieldType;
use crate::value::{Tree, Value};
use crate::variant::Variant;
use crate::wire::{
    parse_byte, parse_double, parse_float, parse_int, parse_long, parse_seq_len, parse_short,
    parse_str_len, parse_tag, read_byte, read_double, read_float, read_int, read_long,
    read_seq_len, read_short, read_str_len, read_tag, lemma_primitives_within,
};
use vstd::prelude::*;

verus! {

/// Reads a document from the front of `input` into a value tree.
///
/// Every input gives a value or an error: lists and compounds nested deeper
/// than [`MAX_DEPTH`](crate::grammar::MAX_DEPTH) give `DepthExceeded`.
pub fn from_bytes(variant: Variant, input: &[u8]) -> (r: Result<Value, NbtError>)
    ensures
        match parse_document(variant, input@) {
            Ok((t, _)) => r is Ok && r->Ok_0@ == t,
            Err(e) => r == Err::<Value, NbtError>(e),
        },
{
    match decode_document(variant, input) {
        Ok((v, _)) => Ok(v),
        Err(e) => Err(e),
    }
}

/// Reads a document in the little-endian variant (Bedrock Edition on disk).
pub fn from_le_bytes(input: &[u8]) -> (r: Result<Value, NbtError>)
    ensures
        match parse_document(Variant::LittleEndian, input@) {
            Ok((t, _)) => r is Ok && r->Ok_0@ == t,
            Err(e) => r == Err::<Value, NbtError>(e),
        },
{
    from_bytes(Variant::LittleEndian, input)
}

/// Reads a document in the big-endian variant (Java Edition).
pub fn from_be_bytes(input: &[u8]) -> (r: Result<Value, NbtError>)
    ensures
        match parse_document(Variant::BigEndian, input@) {
            Ok((t, _)) => r is Ok && r->Ok_0@ == t,
            Err(e) => r == Err::<Value, NbtError>(e),
        },
{
    from_bytes(Variant::BigEndian, input)
}

/// Reads a document in the network variant (Bedrock Edition on the network).
pub fn from_net_bytes(input: &[u8]) -> (r: Result<Value, NbtError>)
    ensures
        match parse_document(Variant::NetworkEndian, input@) {
            Ok((t, _)) => r is Ok && r->Ok_0@ == t,
            Err(e) => r == Err::<Value, NbtError>(e),
        },
{
    from_bytes(Variant::NetworkEndian, input)
}

/// A reader that walks a document one field at a time, for a caller that knows
/// the shape it expects.
///
/// It holds the tag that the next value must have, and whether the next string
/// is a compound key.
pub struct Deserializer<'a> {
    input: &'a [u8],
    pos: usize,
    variant: Variant,
    next_ty: FieldType,
    is_key: bool,
}

/// The element tag and the number of elements left of a sequence being read.
pub struct SeqDeserializer {
    ty: FieldType,
    remaining: u32,
}

impl<'a> Deserializer<'a> {
    /// The bytes not read yet.
    pub closed spec fn rest(&self) -> Seq<u8> {
        self.input@.skip(self.pos as int)
    }

    pub closed spec fn variant_spec(&self) -> Variant {
        self.variant
    }

    /// The tag that the next value must have.
    pub closed spec fn next_ty_spec(&self) -> FieldType {
        self.next_ty
    }

    /// Whether the next string read is a compound key.
    pub closed spec fn is_key_spec(&self) -> bool {
        self.is_key
    }

    pub closed spec fn wf(&self) -> bool {
        self.pos <= self.input@.len() <= usize::MAX
    }

    /// `after` is this reader with `k` more bytes read and its state otherwise kept.
    pub open spec fn moved(self, after: Self, k: int) -> bool {
        &&& after.wf()
        &&& 0 <= k <= self.rest().len()
        &&& after.rest() == self.rest().skip(k)
        &&& after.variant_spec() == self.variant_spec()
        &&& after.next_ty_spec() == self.next_ty_spec()
        &&& after.is_key_spec() == self.is_key_spec()
    }

    /// Starts reading a document: its first byte must be a Compound tag, and
    /// its root name is read and dropped.
    pub fn new(input: &'a [u8], variant: Variant) -> (r: Result<Self, NbtError>)
        ensures
            match parse_tag(input@) {
                Err(e) => r == Err::<Self, NbtError>(e),
                Ok((t, _)) => if t != FieldType::Compound {
                    r == Err::<Self, NbtError>(
                        NbtError::UnexpectedType { expected: FieldType::Compound, actual: t },
                    )
                } else {
                    match parse_str(variant, input@.skip(1)) {
                        Err(e) => r == Err::<Self, NbtError>(e),
                        Ok((_, k)) => r is Ok && r->Ok_0.wf() && r->Ok_0.rest() == input@.skip(
                            (1 + k) as int,
                        ) && r->Ok_0.variant_spec() == variant && r->Ok_0.next_ty_spec()
                            == FieldType::Compound && !r->Ok_0.is_key_spec(),
                    }
                },
            },
    {
        assert(input@.skip(0) =~= input@);
        assert(input@.len() == input.len());
        let (t, _) = match read_tag(input, 0) {
            Ok(x) => x,
            Err(e) => return Err(e),
        };
        if t != FieldType::Compound {
            return Err(NbtError::UnexpectedType { expected: FieldType::Compound, actual: t });
        }
        let (_, k) = match read_str(variant, input, 1) {
            Ok(x) => x,
            Err(e) => return Err(e),
        };
        Ok(Deserializer { input, pos: 1 + k, variant, next_ty: t, is_key: false })
    }

    /// The tag that the next value must have.
    pub fn next_type(&self) -> (r: FieldType)
        ensures
            r == self.next_ty_spec(),
    {
        self.next_ty
    }

    /// Whether the next string read is a compound key.
    pub fn is_key(&self) -> (r: bool)
        ensures
            r == self.is_key_spec(),
    {
        self.is_key
    }

    /// The tag check that every typed read makes first.
    fn expect(&self, ty: FieldType) -> (r: Result<(), NbtError>)
        ensures
            self.next_ty_spec() == ty ==> r is Ok,
            self.next_ty_spec() != ty ==> r == Err::<(), NbtError>(
                NbtError::UnexpectedType { expected: ty, actual: self.next_ty_spec() },
            ),
    {
        if self.next_ty != ty {
            return Err(NbtError::UnexpectedType { expected: ty, actual: self.next_ty });
        }
        Ok(())
    }

    /// Reads a Byte as a boolean: zero is false, anything else true.
    pub fn deserialize_bool(&mut self) -> (r: Result<bool, NbtError>)
        requires
            old(self).wf(),
        ensures
            old(self).next_ty_spec() != FieldType::Byte ==> r == Err::<bool, NbtError>(
                NbtError::UnexpectedType {
                    expected: FieldType::Byte,
                    actual: old(self).next_ty_spec(),
                },
            ) && *final(self) == *old(self),
            old(self).next_ty_spec() == FieldType::Byte ==> match parse_byte(old(self).rest()) {
                Ok((x, k)) => r == Ok::<bool, NbtError>(x != 0) && old(self).moved(*final(self), k as int),
                Err(e) => r == Err::<bool, NbtError>(e),
            },
            final(self).wf(),
    {
        match self.deserialize_i8() {
            Ok(x) => Ok(x != 0),
            Err(e) => Err(e),
        }
    }

    /// Reads a Byte.
    pub fn deserialize_i8(&mut self) -> (r: Result<i8, NbtError>)
        requires
            old(self).wf(),
        ensures
            old(self).next_ty_spec() != FieldType::Byte ==> r == Err::<i8, NbtError>(
                NbtError::UnexpectedType {
                    expected: FieldType::Byte,
                    actual: old(self).next_ty_spec(),
                },
            ) && *final(self) == *old(self),
            old(self).next_ty_spec() == FieldType::Byte ==> match parse_byte(old(self).rest()) {
                Ok((x, k)) => r == Ok::<i8, NbtError>(x) && old(self).moved(*final(self), k as int),
                Err(e) => r == Err::<i8, NbtError>(e),
            },
            final(self).wf(),
    {
        match self.expect(FieldType::Byte) {
            Ok(()) => {},
            Err(e) => return Err(e),
        }
        match read_byte(self.input, self.pos) {
            Ok((x, k)) => {
                self.advance(k);
                Ok(x)
            },
            Err(e) => Err(e),
        }
    }

    /// Reads a Short.
    pub fn deserialize_i16(&mut self) -> (r: Result<i16, NbtError>)
        requires
            old(self).wf(),
        ensures
            old(self).next_ty_spec() != FieldType::Short ==> r == Err::<i16, NbtError>(
                NbtError::UnexpectedType {
                    expected: FieldType::Short,
                    actual: old(self).next_ty_spec(),
                },
            ) && *final(self) == *old(self),
            old(self).next_ty_spec() == FieldType::Short ==> match parse_short(old(self).variant_spec(), old(self).rest()) {
                Ok((x, k)) => r == Ok::<i16, NbtError>(x) && old(self).moved(*final(self), k as int),
                Err(e) => r == Err::<i16, NbtError>(e),
            },
            final(self).wf(),
    {
        match self.expect(FieldType::Short) {
            Ok(()) => {},
            Err(e) => return Err(e),
        }
        proof {
            lemma_primitives_within(self.variant, self.input@.skip(self.pos as int));
        }
        match read_short(self.variant, self.input, self.pos) {
            Ok((x, k)) => {
                self.advance(k);
                Ok(x)
            },
            Err(e) => Err(e),
        }
    }

    /// Reads an Int.
    pub fn deserialize_i32(&mut self) -> (r: Result<i32, NbtError>)
        requires
            old(self).wf(),
        ensures
            old(self).next_ty_spec() != FieldType::Int ==> r == Err::<i32, NbtError>(
                NbtError::UnexpectedType {
                    expected: FieldType::Int,
                    actual: old(self).next_ty_spec(),
                },
            ) && *final(self) == *old(self),
            old(self).next_ty_spec() == FieldType::Int ==> match parse_int(old(self).variant_spec(), old(self).rest()) {
                Ok((x, k)) => r == Ok::<i32, NbtError>(x) && old(self).moved(*final(self), k as int),
                Err(e) => r == Err::<i32, NbtError>(e),
            },
            final(self).wf(),
    {
        match self.expect(FieldType::Int) {
            Ok(()) => {},
            Err(e) => return Err(e),
        }
        proof {
            lemma_primitives_within(self.variant, self.input@.skip(self.pos as int));
        }
        match read_int(self.variant, self.input, self.pos) {
            Ok((x, k)) => {
                self.advance(k);
                Ok(x)
            },
            Err(e) => Err(e),
        }
    }

    /// Reads a Long.
    pub fn deserialize_i64(&mut self) -> (r: Result<i64, NbtError>)
        requires
            old(self).wf(),
        ensures
            old(self).next_ty_spec() != FieldType::Long ==> r == Err::<i64, NbtError>(
                NbtError::UnexpectedType {
                    expected: FieldType::Long,
                    actual: old(self).next_ty_spec(),
                },
            ) && *final(self) == *old(self),
            old(self).next_ty_spec() == FieldType::Long ==> match parse_long(old(self).variant_spec(), old(self).rest()) {
                Ok((x, k)) => r == Ok::<i64, NbtError>(x) && old(self).moved(*final(self), k as int),
                Err(e) => r == Err::<i64, NbtError>(e),
            },
            final(self).wf(),
    {
        match self.expect(FieldType::Long) {
            Ok(()) => {},
            Err(e) => return Err(e),
        }
        proof {
            lemma_primitives_within(self.variant, self.input@.skip(self.pos as int));
        }
        match read_long(self.variant, self.input, self.pos) {
            Ok((x, k)) => {
                self.advance(k);
                Ok(x)
            },
            Err(e) => Err(e),
        }
    }

    /// Reads a Float, as its IEEE-754 bit pattern.
    pub fn deserialize_f32_bits(&mut self) -> (r: Result<u32, NbtError>)
        requires
            old(self).wf(),
        ensures
            old(self).next_ty_spec() != FieldType::Float ==> r == Err::<u32, NbtError>(
                NbtError::UnexpectedType {
                    expected: FieldType::Float,
                    actual: old(self).next_ty_spec(),
                },
            ) && *final(self) == *old(self),
            old(self).next_ty_spec() == FieldType::Float ==> match parse_float(old(self).variant_spec(), old(self).rest()) {
                Ok((x, k)) => r == Ok::<u32, NbtError>(x) && old(self).moved(*final(self), k as int),
                Err(e) => r == Err::<u32, NbtError>(e),
            },
            final(self).wf(),
    {
        match self.expect(FieldType::Float) {
            Ok(()) => {},
            Err(e) => return Err(e),
        }
        proof {
            lemma_primitives_within(self.variant, self.input@.skip(self.pos as int));
        }
        match read_float(self.variant, self.input, self.pos) {
            Ok((x, k)) => {
                self.advance(k);
                Ok(x)
            },
            Err(e) => Err(e),
        }
    }

    /// Reads a Double, as its IEEE-754 bit pattern.
    pub fn deserialize_f64_bits(&mut self) -> (r: Result<u64, NbtError>)
        requires
            old(self).wf(),
        ensures
            old(self).next_ty_spec() != FieldType::Double ==> r == Err::<u64, NbtError>(
                NbtError::UnexpectedType {
                    expected: FieldType::Double,
                    actual: old(self).next_ty_spec(),
                },
            ) && *final(self) == *old(self),
            old(self).next_ty_spec() == FieldType::Double ==> match parse_double(old(self).variant_spec(), old(self).rest()) {
                Ok((x, k)) => r == Ok::<u64, NbtError>(x) && old(self).moved(*final(self), k as int),
                Err(e) => r == Err::<u64, NbtError>(e),
            },
            final(self).wf(),
    {
        match self.expect(FieldType::Double) {
            Ok(()) => {},
            Err(e) => return Err(e),
        }
        proof {
            lemma_primitives_within(self.variant, self.input@.skip(self.pos as int));
        }
        match read_double(self.variant, self.input, self.pos) {
            Ok((x, k)) => {
                self.advance(k);
                Ok(x)
            },
            Err(e) => Err(e),
        }
    }

    /// Reads a String; a compound key is read the same way.
    pub fn deserialize_string(&mut self) -> (r: Result<String, NbtError>)
        requires
            old(self).wf(),
        ensures
            old(self).next_ty_spec() != FieldType::String ==> r == Err::<String, NbtError>(
                NbtError::UnexpectedType {
                    expected: FieldType::String,
                    actual: old(self).next_ty_spec(),
                },
            ) && *final(self) == *old(self),
            old(self).next_ty_spec() == FieldType::String ==> match parse_str(
                old(self).variant_spec(),
                old(self).rest(),
            ) {
                Ok((cs, k)) => r is Ok && r->Ok_0@ == cs && old(self).moved(*final(self), k as int),
                Err(e) => r == Err::<String, NbtError>(e),
            },
            final(self).wf(),
    {
        match self.expect(FieldType::String) {
            Ok(()) => {},
            Err(e) => return Err(e),
        }
        match read_str(self.variant, self.input, self.pos) {
            Ok((text, k)) => {
                self.advance(k);
                Ok(text)
            },
            Err(e) => Err(e),
        }
    }

    /// Reads a ByteArray.
    pub fn deserialize_byte_buf(&mut self) -> (r: Result<Vec<u8>, NbtError>)
        requires
            old(self).wf(),
        ensures
            old(self).next_ty_spec() != FieldType::ByteArray ==> r == Err::<Vec<u8>, NbtError>(
                NbtError::UnexpectedType {
                    expected: FieldType::ByteArray,
                    actual: old(self).next_ty_spec(),
                },
            ) && *final(self) == *old(self),
            old(self).next_ty_spec() == FieldType::ByteArray ==> match parse_byte_array(
                old(self).variant_spec(),
                old(self).rest(),
            ) {
                Ok((t, k)) => r is Ok && t == Tree::ByteArray(r->Ok_0@) && old(self).moved(
                    *final(self),
                    k as int,
                ),
                Err(e) => r == Err::<Vec<u8>, NbtError>(e),
            },
            final(self).wf(),
    {
        match self.expect(FieldType::ByteArray) {
            Ok(()) => {},
            Err(e) => return Err(e),
        }
        match read_bytes(self.variant, self.input, self.pos) {
            Ok((bytes, k)) => {
                self.advance(k);
                Ok(bytes)
            },
            Err(e) => Err(e),
        }
    }

    /// Reads the next value whatever its tag, as a value tree: a string where
    /// a compound key is due, a payload of the expected tag otherwise.
    pub fn deserialize_value(&mut self) -> (r: Result<Value, NbtError>)
        requires
            old(self).wf(),
        ensures
            match parse_payload(
                old(self).variant_spec(),
                if old(self).is_key_spec() {
                    FieldType::String
                } else {
                    old(self).next_ty_spec()
                },
                old(self).rest(),
                1,
            ) {
                Ok((t, k)) => r is Ok && r->Ok_0@ == t && old(self).moved(*final(self), k as int),
                Err(e) => r == Err::<Value, NbtError>(e),
            },
            final(self).wf(),
    {
        let ty = if self.is_key {
            FieldType::String
        } else {
            self.next_ty
        };
        match read_payload(self.variant, ty, self.input, self.pos, 1) {
            Ok((v, k)) => {
                self.advance(k);
                Ok(v)
            },
            Err(e) => Err(e),
        }
    }

    /// Starts reading a sequence: a List, whose element tag is read first, or
    /// a ByteArray, IntArray or LongArray, whose element tag is implied. A
    /// nonzero `expected_len` is the length the caller needs.
    pub fn deserialize_seq(&mut self, expected_len: u32) -> (r: Result<SeqDeserializer, NbtError>)
        requires
            old(self).wf(),
        ensures
            final(self).wf(),
            old(self).next_ty_spec() == FieldType::ByteArray ==> seq_begins(*old(self), *final(self), r, FieldType::Byte, 0, expected_len),
            old(self).next_ty_spec() == FieldType::IntArray ==> seq_begins(*old(self), *final(self), r, FieldType::Int, 0, expected_len),
            old(self).next_ty_spec() == FieldType::LongArray ==> seq_begins(*old(self), *final(self), r, FieldType::Long, 0, expected_len),
            old(self).next_ty_spec() != FieldType::ByteArray && old(self).next_ty_spec()
                != FieldType::IntArray && old(self).next_ty_spec() != FieldType::LongArray
                ==> match parse_tag(old(self).rest()) {
                Err(e) => r == Err::<SeqDeserializer, NbtError>(e),
                Ok((et, k)) => seq_begins(*old(self), *final(self), r, et, k as int, expected_len),
            },
    {
        match self.next_ty {
            FieldType::ByteArray => SeqDeserializer::new(self, FieldType::Byte, expected_len),
            FieldType::IntArray => SeqDeserializer::new(self, FieldType::Int, expected_len),
            FieldType::LongArray => SeqDeserializer::new(self, FieldType::Long, expected_len),
            _ => {
                let (t, k) = match read_tag(self.input, self.pos) {
                    Ok(x) => x,
                    Err(e) => return Err(e),
                };
                self.advance(k);
                let ghost mid = self.rest();
                assert forall|j: int| 0 <= j <= mid.len() implies #[trigger] mid.skip(j)
                    == old(self).rest().skip(k + j) by {
                    assert(mid.skip(j) =~= old(self).rest().skip(k + j));
                }
                proof {
                    lemma_primitives_within(self.variant, mid);
                    assert(mid.skip(0) =~= mid);
                }
                SeqDeserializer::new(self, t, expected_len)
            },
        }
    }

    /// Reads the tag of the next compound entry. `None` at the End tag; else
    /// the entry's tag, with the reader set to read its key.
    pub fn next_key_tag(&mut self) -> (r: Result<Option<FieldType>, NbtError>)
        requires
            old(self).wf(),
        ensures
            final(self).wf(),
            match parse_tag(old(self).rest()) {
                Err(e) => r == Err::<Option<FieldType>, NbtError>(e),
                Ok((t, k)) => final(self).rest() == old(self).rest().skip(k as int)
                    && final(self).variant_spec() == old(self).variant_spec() && if t
                    == FieldType::End {
                    r == Ok::<Option<FieldType>, NbtError>(None) && final(self).next_ty_spec()
                        == FieldType::End && !final(self).is_key_spec()
                } else {
                    r == Ok::<Option<FieldType>, NbtError>(Some(t)) && final(self).next_ty_spec()
                        == FieldType::String && final(self).is_key_spec()
                },
            },
    {
        match read_tag(self.input, self.pos) {
            Ok((t, k)) => {
                self.advance(k);
                if t == FieldType::End {
                    self.is_key = false;
                    self.next_ty = FieldType::End;
                    Ok(None)
                } else {
                    self.is_key = true;
                    self.next_ty = FieldType::String;
                    Ok(Some(t))
                }
            },
            Err(e) => Err(e),
        }
    }

    /// Ends a compound key: the entry's value, of tag `ty`, comes next.
    pub fn end_key(&mut self, ty: FieldType)
        requires
            old(self).wf(),
        ensures
            final(self).wf(),
            final(self).rest() == old(self).rest(),
            final(self).variant_spec() == old(self).variant_spec(),
            final(self).next_ty_spec() == ty,
            !final(self).is_key_spec(),
    {
        self.is_key = false;
        self.next_ty = ty;
    }

    /// Starts reading a compound: the expected tag must be Compound.
    pub fn deserialize_map(&self) -> (r: Result<(), NbtError>)
        ensures
            self.next_ty_spec() == FieldType::Compound ==> r is Ok,
            self.next_ty_spec() != FieldType::Compound ==> r == Err::<(), NbtError>(
                NbtError::UnexpectedType {
                    expected: FieldType::Compound,
                    actual: self.next_ty_spec(),
                },
            ),
    {
        self.expect(FieldType::Compound)
    }

    fn advance(&mut self, k: usize)
        requires
            old(self).wf(),
            k <= old(self).rest().len(),
        ensures
            old(self).moved(*final(self), k as int),
            final(self).input == old(self).input,
    {
        assert(self.input@.skip(self.pos as int).skip(k as int) =~= self.input@.skip(
            (self.pos + k) as int,
        ));
        self.pos = self.pos + k;
    }
}

/// `r` starts a sequence of `ty` elements after `k` bytes: its length is read
/// next, and must equal a nonzero `expected_len`.
pub open spec fn seq_begins(
    before: Deserializer,
    after: Deserializer,
    r: Result<SeqDeserializer, NbtError>,
    ty: FieldType,
    k: int,
    expected_len: u32,
) -> bool {
    0 <= k <= before.rest().len() && match parse_seq_len(
        before.variant_spec(),
        before.rest().skip(k),
    ) {
        Err(e) => r == Err::<SeqDeserializer, NbtError>(e),
        Ok((n, k2)) => if expected_len != 0 && expected_len != n {
            r == Err::<SeqDeserializer, NbtError>(
                NbtError::LengthMismatch { expected_len, found_len: n },
            )
        } else {
            r is Ok && r->Ok_0.ty_spec() == ty && r->Ok_0.remaining_spec() == n
                && after.rest() == before.rest().skip(k + k2) && after.variant_spec()
                == before.variant_spec() && after.next_ty_spec() == ty
                && after.is_key_spec() == before.is_key_spec()
        },
    }
}

impl SeqDeserializer {
    /// The tag of the elements.
    pub closed spec fn ty_spec(&self) -> FieldType {
        self.ty
    }

    /// The number of elements left.
    pub closed spec fn remaining_spec(&self) -> u32 {
        self.remaining
    }

    /// Reads the length of a sequence of `ty` elements; the reader then
    /// expects an element. A nonzero `expected_len` must equal the length.
    pub fn new(de: &mut Deserializer, ty: FieldType, expected_len: u32) -> (r: Result<Self, NbtError>)
        requires
            old(de).wf(),
        ensures
            final(de).wf(),
            seq_begins(*old(de), *final(de), r, ty, 0, expected_len),
    {
        assert(de.rest().skip(0) =~= de.rest());
        proof {
            lemma_primitives_within(de.variant, de.input@.skip(de.pos as int));
        }
        de.next_ty = ty;
        let (remaining, k) = match read_seq_len(de.variant, de.input, de.pos) {
            Ok(x) => x,
            Err(e) => return Err(e),
        };
        if expected_len != 0 && expected_len != remaining {
            return Err(NbtError::LengthMismatch { expected_len, found_len: remaining });
        }
        de.advance(k);
        Ok(SeqDeserializer { ty, remaining })
    }

    /// Whether an element is left; if so, it is counted as read.
    pub fn next_element(&mut self) -> (r: bool)
        ensures
            r == (old(self).remaining_spec() > 0),
            final(self).ty_spec() == old(self).ty_spec(),
            r ==> final(self).remaining_spec() == old(self).remaining_spec() - 1,
            !r ==> final(self).remaining_spec() == 0,
    {
        if self.remaining > 0 {
            self.remaining = self.remaining - 1;
            true
        } else {
            false
        }
    }

    /// Sets the reader to expect an element again, after an element whose own
    /// reading changed what the reader expects.
    pub fn restore(&self, de: &mut Deserializer)
        requires
            old(de).wf(),
        ensures
            final(de).wf(),
            final(de).rest() == old(de).rest(),
            final(de).variant_spec() == old(de).variant_spec(),
            final(de).is_key_spec() == old(de).is_key_spec(),
            final(de).next_ty_spec() == self.ty_spec(),
    {
        de.next_ty = self.ty;
    }
}

} // verus!
