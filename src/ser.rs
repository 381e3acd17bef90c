//! Encoding entry points: value trees into documents.

use crate::encode::encode_document;
use crate::error::NbtError;
use crate::grammar::{document_bytes, document_problem};
use crate::value::Value;
use crate::variant::Variant;
use vstd::prelude::*;

verus! {

/// Writes `value`, which must be a compound, as a document with the root name
/// `name`.
pub fn to_bytes_named(variant: Variant, value: &Value, name: &str) -> (r: Result<Vec<u8>, NbtError>)
    ensures
        match document_problem(variant, value@, name@) {
            None => r is Ok && r->Ok_0@ == document_bytes(variant, value@, name@),
            Some(e) => r == Err::<Vec<u8>, NbtError>(e),
        },
{
    encode_document(variant, value, name)
}

/// Writes `value`, which must be a compound, as a document with an empty root
/// name.
pub fn to_bytes(variant: Variant, value: &Value) -> (r: Result<Vec<u8>, NbtError>)
    ensures
        match document_problem(variant, value@, Seq::empty()) {
            None => r is Ok && r->Ok_0@ == document_bytes(variant, value@, Seq::empty()),
            Some(e) => r == Err::<Vec<u8>, NbtError>(e),
        },
{
    let name = "";
    proof {
        reveal_strlit("");
        assert(name@ =~= Seq::<char>::empty());
    }
    encode_document(variant, value, name)
}

/// Appends the document that [`to_bytes`] writes to `out`; on an error, `out`
/// is left as it was.
pub fn to_bytes_in(out: &mut Vec<u8>, variant: Variant, value: &Value) -> (r: Result<(), NbtError>)
    ensures
        match document_problem(variant, value@, Seq::empty()) {
            None => r is Ok && final(out)@ == old(out)@ + document_bytes(
                variant,
                value@,
                Seq::empty(),
            ),
            Some(e) => r == Err::<(), NbtError>(e) && final(out)@ == old(out)@,
        },
{
    match to_bytes(variant, value) {
        Ok(mut bytes) => {
            out.append(&mut bytes);
            Ok(())
        },
        Err(e) => Err(e),
    }
}

/// Writes a document in the little-endian variant (Bedrock Edition on disk).
pub fn to_le_bytes(value: &Value) -> (r: Result<Vec<u8>, NbtError>)
    ensures
        match document_problem(Variant::LittleEndian, value@, Seq::empty()) {
            None => r is Ok && r->Ok_0@ == document_bytes(Variant::LittleEndian, value@, Seq::empty()),
            Some(e) => r == Err::<Vec<u8>, NbtError>(e),
        },
{
    to_bytes(Variant::LittleEndian, value)
}

/// Writes a document in the big-endian variant (Java Edition).
pub fn to_be_bytes(value: &Value) -> (r: Result<Vec<u8>, NbtError>)
    ensures
        match document_problem(Variant::BigEndian, value@, Seq::empty()) {
            None => r is Ok && r->Ok_0@ == document_bytes(Variant::BigEndian, value@, Seq::empty()),
            Some(e) => r == Err::<Vec<u8>, NbtError>(e),
        },
{
    to_bytes(Variant::BigEndian, value)
}

/// Writes a document in the network variant (Bedrock Edition on the network).
pub fn to_net_bytes(value: &Value) -> (r: Result<Vec<u8>, NbtError>)
    ensures
        match document_problem(Variant::NetworkEndian, value@, Seq::empty()) {
            None => r is Ok && r->Ok_0@ == document_bytes(
                Variant::NetworkEndian,
                value@,
                Seq::empty(),
            ),
            Some(e) => r == Err::<Vec<u8>, NbtError>(e),
        },
{
    to_bytes(Variant::NetworkEndian, value)
}

} // verus!
