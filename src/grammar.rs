//! The wire grammar over the [`Tree`] model: what a byte sequence decodes to,
//! and what a tree encodes to.
//!
//! ```text
//! document      := tag(Compound) name compound_body
//! compound_body := (tag name value)* tag(End)
//! list          := tag(elem) length element{length}
//! byte_array    := length byte{length}
//! int_array     := length int32{length}
//! long_array    := length int64{length}
//! name, string  := length utf8_byte{length}
//! ```

use crate::error::NbtError;
use crate::tag::FieldType;
use crate::value::Tree;
use crate::variant::Variant;
use crate::wire::{
    double_bytes, float_bytes, int_bytes, long_bytes, max_str_len, parse_byte, parse_double,
    parse_float, parse_int, parse_long, parse_seq_len, parse_short, parse_str_len, parse_tag,
    seq_len_bytes, short_bytes, str_len_bytes,
};
use vstd::prelude::*;
use vstd::utf8::{decode_utf8, encode_utf8, valid_utf8};

verus! {

/// How deep lists and compounds may nest below the root compound.
pub const MAX_DEPTH: usize = 512;

/// The tag that a tree is written with.
pub open spec fn tree_tag(t: Tree) -> FieldType {
    match t {
        Tree::Byte(_) => FieldType::Byte,
        Tree::Short(_) => FieldType::Short,
        Tree::Int(_) => FieldType::Int,
        Tree::Long(_) => FieldType::Long,
        Tree::Float(_) => FieldType::Float,
        Tree::Double(_) => FieldType::Double,
        Tree::ByteArray(_) => FieldType::ByteArray,
        Tree::String(_) => FieldType::String,
        Tree::List(_) => FieldType::List,
        Tree::Compound(_) => FieldType::Compound,
        Tree::IntArray(_) => FieldType::IntArray,
        Tree::LongArray(_) => FieldType::LongArray,
    }
}

/// The element tag written for a list: that of its first element, or End for
/// an empty list.
pub open spec fn elem_tag(ts: Seq<Tree>) -> FieldType {
    if ts.len() == 0 {
        FieldType::End
    } else {
        tree_tag(ts[0])
    }
}

/// Whether a compound's entries have pairwise different keys.
pub open spec fn keys_unique(es: Seq<(Seq<char>, Tree)>) -> bool {
    forall|i: int, j: int| 0 <= i < j < es.len() ==> es[i].0 != es[j].0
}

/// Whether some entry has the given key.
pub open spec fn has_key(es: Seq<(Seq<char>, Tree)>, key: Seq<char>) -> bool {
    exists|i: int| 0 <= i < es.len() && es[i].0 == key
}

/// The first entry with the given key.
pub open spec fn key_index(es: Seq<(Seq<char>, Tree)>, key: Seq<char>) -> int {
    choose|i: int|
        0 <= i < es.len() && es[i].0 == key && forall|j: int| 0 <= j < i ==> es[j].0 != key
}

/// Adds an entry to a compound: it replaces the value of an entry with the same
/// key, and is appended otherwise.
pub open spec fn put(es: Seq<(Seq<char>, Tree)>, key: Seq<char>, v: Tree) -> Seq<(Seq<char>, Tree)> {
    if has_key(es, key) {
        es.update(key_index(es, key), (key, v))
    } else {
        es.push((key, v))
    }
}

/// A string: its UTF-8 byte length, then the bytes.
pub open spec fn parse_str(var: Variant, s: Seq<u8>) -> Result<(Seq<char>, nat), NbtError> {
    match parse_str_len(var, s) {
        Err(e) => Err(e),
        Ok((n, k)) => if s.len() - k < n {
            Err(NbtError::UnexpectedEof)
        } else if !valid_utf8(s.subrange(k as int, k + n)) {
            Err(NbtError::InvalidUtf8)
        } else {
            Ok((decode_utf8(s.subrange(k as int, k + n)), (k + n) as nat))
        },
    }
}

/// `n` Ints, one after the other.
pub open spec fn parse_ints(var: Variant, n: nat, s: Seq<u8>) -> Result<(Seq<i32>, nat), NbtError>
    decreases n,
{
    if n == 0 {
        Ok((seq![], 0))
    } else {
        match parse_int(var, s) {
            Err(e) => Err(e),
            Ok((x, k)) => if k <= s.len() {
                match parse_ints(var, (n - 1) as nat, s.skip(k as int)) {
                    Err(e) => Err(e),
                    Ok((xs, k2)) => Ok((seq![x] + xs, k + k2)),
                }
            } else {
                Err(NbtError::UnexpectedEof)
            },
        }
    }
}

/// `n` Longs, one after the other.
pub open spec fn parse_longs(var: Variant, n: nat, s: Seq<u8>) -> Result<(Seq<i64>, nat), NbtError>
    decreases n,
{
    if n == 0 {
        Ok((seq![], 0))
    } else {
        match parse_long(var, s) {
            Err(e) => Err(e),
            Ok((x, k)) => if k <= s.len() {
                match parse_longs(var, (n - 1) as nat, s.skip(k as int)) {
                    Err(e) => Err(e),
                    Ok((xs, k2)) => Ok((seq![x] + xs, k + k2)),
                }
            } else {
                Err(NbtError::UnexpectedEof)
            },
        }
    }
}

/// The payload of a value whose tag is `ty`, at nesting depth `depth`.
pub open spec fn parse_payload(var: Variant, ty: FieldType, s: Seq<u8>, depth: nat) -> Result<
    (Tree, nat),
    NbtError,
>
    decreases s.len(), 2nat, 0nat,
{
    match ty {
        FieldType::End => Err(NbtError::UnmatchedEnd),
        FieldType::Byte => match parse_byte(s) {
            Ok((x, k)) => Ok((Tree::Byte(x), k)),
            Err(e) => Err(e),
        },
        FieldType::Short => match parse_short(var, s) {
            Ok((x, k)) => Ok((Tree::Short(x), k)),
            Err(e) => Err(e),
        },
        FieldType::Int => match parse_int(var, s) {
            Ok((x, k)) => Ok((Tree::Int(x), k)),
            Err(e) => Err(e),
        },
        FieldType::Long => match parse_long(var, s) {
            Ok((x, k)) => Ok((Tree::Long(x), k)),
            Err(e) => Err(e),
        },
        FieldType::Float => match parse_float(var, s) {
            Ok((x, k)) => Ok((Tree::Float(x), k)),
            Err(e) => Err(e),
        },
        FieldType::Double => match parse_double(var, s) {
            Ok((x, k)) => Ok((Tree::Double(x), k)),
            Err(e) => Err(e),
        },
        FieldType::ByteArray => parse_byte_array(var, s),
        FieldType::String => match parse_str(var, s) {
            Ok((cs, k)) => Ok((Tree::String(cs), k)),
            Err(e) => Err(e),
        },
        FieldType::List => parse_list(var, s, depth),
        FieldType::Compound => parse_compound(var, s, depth),
        FieldType::IntArray => parse_int_array(var, s),
        FieldType::LongArray => parse_long_array(var, s),
    }
}

/// A ByteArray: its length, then the bytes.
pub open spec fn parse_byte_array(var: Variant, s: Seq<u8>) -> Result<(Tree, nat), NbtError> {
    match parse_seq_len(var, s) {
        Err(e) => Err(e),
        Ok((n, k)) => if s.len() - k < n {
            Err(NbtError::UnexpectedEof)
        } else {
            Ok((Tree::ByteArray(s.subrange(k as int, k + n)), (k + n) as nat))
        },
    }
}

/// A List: the element tag, the length, then the elements' payloads.
pub open spec fn parse_list(var: Variant, s: Seq<u8>, depth: nat) -> Result<(Tree, nat), NbtError>
    decreases s.len(), 1nat, 0nat,
{
    if depth >= MAX_DEPTH {
        Err(NbtError::DepthExceeded)
    } else {
        match parse_tag(s) {
            Err(e) => Err(e),
            Ok((et, _)) => match parse_seq_len(var, s.skip(1)) {
                Err(e) => Err(e),
                Ok((n, k)) => {
                    proof {
                        lemma_seq_len_consumes(var, s.skip(1));
                    }
                    match parse_elems(var, et, n as nat, s.skip((1 + k) as int), depth + 1) {
                        Err(e) => Err(e),
                        Ok((ts, k2)) => Ok((Tree::List(ts), 1 + k + k2)),
                    }
                },
            },
        }
    }
}

/// A Compound: its entries up to an End tag.
pub open spec fn parse_compound(var: Variant, s: Seq<u8>, depth: nat) -> Result<(Tree, nat), NbtError>
    decreases s.len(), 1nat, 0nat,
{
    if depth >= MAX_DEPTH {
        Err(NbtError::DepthExceeded)
    } else {
        match parse_entries(var, seq![], s, depth + 1) {
            Err(e) => Err(e),
            Ok((es, k)) => Ok((Tree::Compound(es), k)),
        }
    }
}

/// An IntArray: its length, then the Ints.
pub open spec fn parse_int_array(var: Variant, s: Seq<u8>) -> Result<(Tree, nat), NbtError> {
    match parse_seq_len(var, s) {
        Err(e) => Err(e),
        Ok((n, k)) => if k <= s.len() {
            match parse_ints(var, n as nat, s.skip(k as int)) {
                Err(e) => Err(e),
                Ok((xs, k2)) => Ok((Tree::IntArray(xs), k + k2)),
            }
        } else {
            Err(NbtError::UnexpectedEof)
        },
    }
}

/// A LongArray: its length, then the Longs.
pub open spec fn parse_long_array(var: Variant, s: Seq<u8>) -> Result<(Tree, nat), NbtError> {
    match parse_seq_len(var, s) {
        Err(e) => Err(e),
        Ok((n, k)) => if k <= s.len() {
            match parse_longs(var, n as nat, s.skip(k as int)) {
                Err(e) => Err(e),
                Ok((xs, k2)) => Ok((Tree::LongArray(xs), k + k2)),
            }
        } else {
            Err(NbtError::UnexpectedEof)
        },
    }
}

/// `n` list elements, each a payload of tag `ty`.
pub open spec fn parse_elems(var: Variant, ty: FieldType, n: nat, s: Seq<u8>, depth: nat) -> Result<
    (Seq<Tree>, nat),
    NbtError,
>
    decreases s.len(), 3nat, n,
{
    if n == 0 {
        Ok((seq![], 0))
    } else {
        match parse_payload(var, ty, s, depth) {
            Err(e) => Err(e),
            Ok((t, k)) => if k <= s.len() {
                match parse_elems(var, ty, (n - 1) as nat, s.skip(k as int), depth) {
                    Err(e) => Err(e),
                    Ok((ts, k2)) => Ok((seq![t] + ts, k + k2)),
                }
            } else {
                Err(NbtError::UnexpectedEof)
            },
        }
    }
}

/// The entries of a compound up to its End tag, added to `acc` one by one.
pub open spec fn parse_entries(
    var: Variant,
    acc: Seq<(Seq<char>, Tree)>,
    s: Seq<u8>,
    depth: nat,
) -> Result<(Seq<(Seq<char>, Tree)>, nat), NbtError>
    decreases s.len(), 0nat, 0nat,
{
    match parse_tag(s) {
        Err(e) => Err(e),
        Ok((t, _)) => if t == FieldType::End {
            Ok((acc, 1))
        } else {
            match parse_str(var, s.skip(1)) {
                Err(e) => Err(e),
                Ok((key, k)) => {
                    proof {
                        lemma_str_consumes(var, s.skip(1));
                    }
                    match parse_payload(var, t, s.skip((1 + k) as int), depth) {
                        Err(e) => Err(e),
                        Ok((v, k2)) => if 1 + k + k2 <= s.len() {
                            match parse_entries(var, put(acc, key, v), s.skip((1 + k + k2) as int), depth) {
                                Err(e) => Err(e),
                                Ok((es, k3)) => Ok((es, 1 + k + k2 + k3)),
                            }
                        } else {
                            Err(NbtError::UnexpectedEof)
                        },
                    }
                },
            }
        },
    }
}

/// A whole document: a Compound tag, a root name that is dropped, and the
/// compound's body.
pub open spec fn parse_document(var: Variant, s: Seq<u8>) -> Result<(Tree, nat), NbtError> {
    match parse_tag(s) {
        Err(e) => Err(e),
        Ok((t, _)) => if t != FieldType::Compound {
            Err(NbtError::UnexpectedType { expected: FieldType::Compound, actual: t })
        } else {
            match parse_str(var, s.skip(1)) {
                Err(e) => Err(e),
                Ok((_, k)) => match parse_payload(var, FieldType::Compound, s.skip((1 + k) as int), 0) {
                    Err(e) => Err(e),
                    Ok((v, k2)) => Ok((v, 1 + k + k2)),
                },
            }
        },
    }
}

pub proof fn lemma_seq_len_consumes(var: Variant, s: Seq<u8>)
    ensures
        parse_seq_len(var, s) is Ok ==> parse_seq_len(var, s)->Ok_0.1 <= s.len(),
{
    crate::varint::lemma_varint_within(s, 5);
}

pub proof fn lemma_str_consumes(var: Variant, s: Seq<u8>)
    ensures
        parse_str(var, s) is Ok ==> parse_str(var, s)->Ok_0.1 <= s.len(),
{
    crate::varint::lemma_varint_within(s, 5);
}

/// A string on the wire: its UTF-8 byte length, then the bytes.
pub open spec fn str_bytes(var: Variant, cs: Seq<char>) -> Seq<u8> {
    str_len_bytes(var, encode_utf8(cs).len()) + encode_utf8(cs)
}

pub open spec fn ints_bytes(var: Variant, xs: Seq<i32>) -> Seq<u8>
    decreases xs.len(),
{
    if xs.len() == 0 {
        seq![]
    } else {
        int_bytes(var, xs[0]) + ints_bytes(var, xs.drop_first())
    }
}

pub open spec fn longs_bytes(var: Variant, xs: Seq<i64>) -> Seq<u8>
    decreases xs.len(),
{
    if xs.len() == 0 {
        seq![]
    } else {
        long_bytes(var, xs[0]) + longs_bytes(var, xs.drop_first())
    }
}

/// The payload that a tree is written as, after its tag.
pub open spec fn payload_bytes(var: Variant, t: Tree) -> Seq<u8>
    decreases t,
{
    match t {
        Tree::Byte(x) => seq![x as u8],
        Tree::Short(x) => short_bytes(var, x),
        Tree::Int(x) => int_bytes(var, x),
        Tree::Long(x) => long_bytes(var, x),
        Tree::Float(bits) => float_bytes(var, bits),
        Tree::Double(bits) => double_bytes(var, bits),
        Tree::ByteArray(bs) => seq_len_bytes(var, bs.len()) + bs,
        Tree::String(cs) => str_bytes(var, cs),
        Tree::List(ts) => seq![elem_tag(ts).spec_byte()] + seq_len_bytes(var, ts.len()) + elems_bytes(
            var,
            ts,
        ),
        Tree::Compound(es) => entries_bytes(var, es) + seq![0u8],
        Tree::IntArray(xs) => seq_len_bytes(var, xs.len()) + ints_bytes(var, xs),
        Tree::LongArray(xs) => seq_len_bytes(var, xs.len()) + longs_bytes(var, xs),
    }
}

/// List elements: their payloads one after the other, with no tags.
pub open spec fn elems_bytes(var: Variant, ts: Seq<Tree>) -> Seq<u8>
    decreases ts,
{
    if ts.len() == 0 {
        seq![]
    } else {
        payload_bytes(var, ts[0]) + elems_bytes(var, ts.subrange(1, ts.len() as int))
    }
}

/// Compound entries: for each, its tag, its key, and its payload.
pub open spec fn entries_bytes(var: Variant, es: Seq<(Seq<char>, Tree)>) -> Seq<u8>
    decreases es,
{
    if es.len() == 0 {
        seq![]
    } else {
        seq![tree_tag(es[0].1).spec_byte()] + str_bytes(var, es[0].0) + payload_bytes(var, es[0].1)
            + entries_bytes(var, es.subrange(1, es.len() as int))
    }
}

/// A document: a Compound tag, the root name, then the compound's body.
pub open spec fn document_bytes(var: Variant, t: Tree, name: Seq<char>) -> Seq<u8> {
    seq![FieldType::Compound.spec_byte()] + str_bytes(var, name) + payload_bytes(var, t)
}

/// Why a tree cannot be written at nesting depth `depth`, if it cannot: the
/// first problem in the order of writing.
pub open spec fn payload_problem(var: Variant, t: Tree, depth: nat) -> Option<NbtError>
    decreases t,
{
    match t {
        Tree::ByteArray(bs) => if bs.len() > i32::MAX {
            Some(NbtError::TooLong)
        } else {
            None
        },
        Tree::String(cs) => if encode_utf8(cs).len() > max_str_len(var) {
            Some(NbtError::TooLong)
        } else {
            None
        },
        Tree::List(ts) => if depth >= MAX_DEPTH {
            Some(NbtError::DepthExceeded)
        } else if ts.len() > i32::MAX {
            Some(NbtError::TooLong)
        } else {
            elems_problem(var, elem_tag(ts), ts, depth + 1)
        },
        Tree::Compound(es) => if depth >= MAX_DEPTH {
            Some(NbtError::DepthExceeded)
        } else {
            entries_problem(var, es, depth + 1)
        },
        Tree::IntArray(xs) => if xs.len() > i32::MAX {
            Some(NbtError::TooLong)
        } else {
            None
        },
        Tree::LongArray(xs) => if xs.len() > i32::MAX {
            Some(NbtError::TooLong)
        } else {
            None
        },
        _ => None,
    }
}

/// The first problem among list elements that must all carry `tag`.
pub open spec fn elems_problem(var: Variant, tag: FieldType, ts: Seq<Tree>, depth: nat) -> Option<
    NbtError,
>
    decreases ts,
{
    if ts.len() == 0 {
        None
    } else if tree_tag(ts[0]) != tag {
        Some(NbtError::MixedList)
    } else {
        match payload_problem(var, ts[0], depth) {
            Some(e) => Some(e),
            None => elems_problem(var, tag, ts.subrange(1, ts.len() as int), depth),
        }
    }
}

/// The first problem among compound entries.
pub open spec fn entries_problem(var: Variant, es: Seq<(Seq<char>, Tree)>, depth: nat) -> Option<
    NbtError,
>
    decreases es,
{
    if es.len() == 0 {
        None
    } else if encode_utf8(es[0].0).len() > max_str_len(var) {
        Some(NbtError::TooLong)
    } else {
        match payload_problem(var, es[0].1, depth) {
            Some(e) => Some(e),
            None => entries_problem(var, es.subrange(1, es.len() as int), depth),
        }
    }
}

/// Why a tree cannot be written as a document with the given root name, if it
/// cannot: the root must be a compound.
pub open spec fn document_problem(var: Variant, t: Tree, name: Seq<char>) -> Option<NbtError> {
    if !(t is Compound) {
        Some(NbtError::UnexpectedType { expected: FieldType::Compound, actual: tree_tag(t) })
    } else if encode_utf8(name).len() > max_str_len(var) {
        Some(NbtError::TooLong)
    } else {
        payload_problem(var, t, 0)
    }
}

/// Whether every compound in a tree has unique keys.
pub open spec fn keys_unique_deep(t: Tree) -> bool
    decreases t,
{
    match t {
        Tree::List(ts) => forall|i: int| 0 <= i < ts.len() ==> keys_unique_deep(#[trigger] ts[i]),
        Tree::Compound(es) => keys_unique(es) && forall|i: int|
            0 <= i < es.len() ==> keys_unique_deep(#[trigger] es[i].1),
        _ => true,
    }
}

} // verus!
