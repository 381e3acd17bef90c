//! The encoder for dynamic value trees, proved to follow the grammar.

use crate::error::NbtError;
use crate::grammar::{
    document_bytes, document_problem, elem_tag, elems_bytes, elems_problem, entries_bytes,
    entries_problem, ints_bytes, longs_bytes, payload_bytes, payload_problem, str_bytes, tree_tag,
    MAX_DEPTH,
};
use crate::tag::FieldType;
use crate::value::{entry_trees_of, lemma_entry_trees_of, lemma_trees_of, trees_of, Tree, Value};
use crate::variant::Variant;
use crate::wire::{
    max_str_len, push_double, push_float, push_int, push_long, push_seq_len, push_short,
    push_str_len,
};
use vstd::prelude::*;
use vstd::utf8::encode_utf8;

verus! {

/// Appends `b` to `out`.
fn push_all(out: &mut Vec<u8>, b: &[u8])
    ensures
        final(out)@ == old(out)@ + b@,
{
    out.extend_from_slice(b);
    assert(final(out)@ =~= old(out)@ + b@);
}

fn str_limit(var: Variant) -> (r: usize)
    ensures
        r == max_str_len(var),
{
    match var {
        Variant::NetworkEndian => 0xffff_ffff,
        _ => 0xffff,
    }
}

/// Writes a string: its UTF-8 byte length, then the bytes.
pub fn write_str(var: Variant, s: &str, out: &mut Vec<u8>) -> (r: Result<(), NbtError>)
    ensures
        encode_utf8(s@).len() > max_str_len(var) ==> r == Err::<(), NbtError>(NbtError::TooLong)
            && final(out)@ == old(out)@,
        encode_utf8(s@).len() <= max_str_len(var) ==> r is Ok && final(out)@ == old(out)@
            + str_bytes(var, s@),
{
    let b = s.as_bytes();
    if b.len() > str_limit(var) {
        return Err(NbtError::TooLong);
    }
    push_str_len(var, out, b.len());
    push_all(out, b);
    assert(final(out)@ =~= old(out)@ + str_bytes(var, s@));
    Ok(())
}

fn write_ints(var: Variant, xs: &Vec<i32>, out: &mut Vec<u8>)
    ensures
        final(out)@ == old(out)@ + ints_bytes(var, xs@),
{
    let mut i: usize = 0;
    assert(xs@.skip(0) =~= xs@);
    while i < xs.len()
        invariant
            i <= xs@.len(),
            out@ + ints_bytes(var, xs@.skip(i as int)) == old(out)@ + ints_bytes(var, xs@),
        decreases xs@.len() - i,
    {
        let ghost before = out@;
        push_int(var, out, xs[i]);
        assert(xs@.skip(i as int).drop_first() =~= xs@.skip(i + 1));
        assert(before + ints_bytes(var, xs@.skip(i as int)) =~= out@ + ints_bytes(var, xs@.skip(i + 1)));
        i = i + 1;
    }
    assert(xs@.skip(i as int) =~= Seq::<i32>::empty());
    assert(out@ =~= out@ + ints_bytes(var, xs@.skip(i as int)));
}

fn write_longs(var: Variant, xs: &Vec<i64>, out: &mut Vec<u8>)
    ensures
        final(out)@ == old(out)@ + longs_bytes(var, xs@),
{
    let mut i: usize = 0;
    assert(xs@.skip(0) =~= xs@);
    while i < xs.len()
        invariant
            i <= xs@.len(),
            out@ + longs_bytes(var, xs@.skip(i as int)) == old(out)@ + longs_bytes(var, xs@),
        decreases xs@.len() - i,
    {
        let ghost before = out@;
        push_long(var, out, xs[i]);
        assert(xs@.skip(i as int).drop_first() =~= xs@.skip(i + 1));
        assert(before + longs_bytes(var, xs@.skip(i as int)) =~= out@ + longs_bytes(var, xs@.skip(i + 1)));
        i = i + 1;
    }
    assert(xs@.skip(i as int) =~= Seq::<i64>::empty());
    assert(out@ =~= out@ + longs_bytes(var, xs@.skip(i as int)));
}

/// Writes the payload of a value at nesting depth `depth`.
pub fn write_payload(var: Variant, v: &Value, depth: usize, out: &mut Vec<u8>) -> (r: Result<
    (),
    NbtError,
>)
    requires
        depth <= MAX_DEPTH,
    ensures
        match payload_problem(var, v@, depth as nat) {
            None => r is Ok && final(out)@ == old(out)@ + payload_bytes(var, v@),
            Some(e) => r == Err::<(), NbtError>(e),
        },
    decreases v,
{
    match v {
        Value::Byte(x) => {
            out.push(*x as u8);
            assert(final(out)@ =~= old(out)@ + payload_bytes(var, v@));
            Ok(())
        },
        Value::Short(x) => {
            push_short(var, out, *x);
            Ok(())
        },
        Value::Int(x) => {
            push_int(var, out, *x);
            Ok(())
        },
        Value::Long(x) => {
            push_long(var, out, *x);
            Ok(())
        },
        Value::Float(bits) => {
            push_float(var, out, *bits);
            Ok(())
        },
        Value::Double(bits) => {
            push_double(var, out, *bits);
            Ok(())
        },
        Value::ByteArray(bs) => {
            if bs.len() > 0x7fff_ffff {
                return Err(NbtError::TooLong);
            }
            push_seq_len(var, out, bs.len());
            push_all(out, bs.as_slice());
            assert(final(out)@ =~= old(out)@ + payload_bytes(var, v@));
            Ok(())
        },
        Value::String(s) => write_str(var, s.as_str(), out),
        Value::List(items) => write_list(var, items, depth, out),
        Value::Compound(es) => write_compound(var, es, depth, out),
        Value::IntArray(xs) => {
            if xs.len() > 0x7fff_ffff {
                return Err(NbtError::TooLong);
            }
            push_seq_len(var, out, xs.len());
            write_ints(var, xs, out);
            assert(final(out)@ =~= old(out)@ + payload_bytes(var, v@));
            Ok(())
        },
        Value::LongArray(xs) => {
            if xs.len() > 0x7fff_ffff {
                return Err(NbtError::TooLong);
            }
            push_seq_len(var, out, xs.len());
            write_longs(var, xs, out);
            assert(final(out)@ =~= old(out)@ + payload_bytes(var, v@));
            Ok(())
        },
    }
}

/// Writes a list: the element tag, the length, then each element's payload.
fn write_list(var: Variant, items: &Vec<Value>, depth: usize, out: &mut Vec<u8>) -> (r: Result<
    (),
    NbtError,
>)
    requires
        depth <= MAX_DEPTH,
    ensures
        match payload_problem(var, Tree::List(trees_of(items@)), depth as nat) {
            None => r is Ok && final(out)@ == old(out)@ + payload_bytes(
                var,
                Tree::List(trees_of(items@)),
            ),
            Some(e) => r == Err::<(), NbtError>(e),
        },
    decreases items,
{
    let ghost ts = trees_of(items@);
    proof {
        lemma_trees_of(items@);
    }
    if depth >= MAX_DEPTH {
        return Err(NbtError::DepthExceeded);
    }
    if items.len() > 0x7fff_ffff {
        return Err(NbtError::TooLong);
    }
    let tag = if items.len() == 0 {
        FieldType::End
    } else {
        items[0].tag()
    };
    assert(tag == elem_tag(ts));
    out.push(tag.to_byte());
    push_seq_len(var, out, items.len());
    let ghost start = out@;
    let mut i: usize = 0;
    assert(ts.subrange(0, ts.len() as int) =~= ts);
    while i < items.len()
        invariant
            i <= items@.len(),
            items@.len() <= 0x7fff_ffff,
            ts == trees_of(items@),
            ts.len() == items@.len(),
            forall|j: int| 0 <= j < items@.len() ==> #[trigger] ts[j] == items@[j]@,
            tag == elem_tag(ts),
            depth < MAX_DEPTH,
            elems_problem(var, tag, ts, (depth + 1) as nat) == elems_problem(
                var,
                tag,
                ts.subrange(i as int, ts.len() as int),
                (depth + 1) as nat,
            ),
            out@ + elems_bytes(var, ts.subrange(i as int, ts.len() as int)) == start
                + elems_bytes(var, ts),
        decreases items@.len() - i,
    {
        let ghost rest = ts.subrange(i as int, ts.len() as int);
        assert(rest.subrange(1, rest.len() as int) =~= ts.subrange(i + 1, ts.len() as int));
        assert(rest[0] == items@[i as int]@);
        if items[i].tag() != tag {
            return Err(NbtError::MixedList);
        }
        let ghost before = out@;
        match write_payload(var, &items[i], depth + 1, out) {
            Ok(()) => {},
            Err(e) => return Err(e),
        }
        assert(before + elems_bytes(var, rest) =~= out@ + elems_bytes(
            var,
            ts.subrange(i + 1, ts.len() as int),
        ));
        i = i + 1;
    }
    assert(ts.subrange(i as int, ts.len() as int) =~= Seq::<Tree>::empty());
    assert(out@ =~= out@ + elems_bytes(var, ts.subrange(i as int, ts.len() as int)));
    assert(out@ =~= old(out)@ + payload_bytes(var, Tree::List(ts)));
    Ok(())
}

/// Writes a compound: each entry's tag, key and payload, then an End tag.
fn write_compound(var: Variant, es: &Vec<(String, Value)>, depth: usize, out: &mut Vec<u8>) -> (r:
    Result<(), NbtError>)
    requires
        depth <= MAX_DEPTH,
    ensures
        match payload_problem(var, Tree::Compound(entry_trees_of(es@)), depth as nat) {
            None => r is Ok && final(out)@ == old(out)@ + payload_bytes(
                var,
                Tree::Compound(entry_trees_of(es@)),
            ),
            Some(e) => r == Err::<(), NbtError>(e),
        },
    decreases es,
{
    let ghost ts = entry_trees_of(es@);
    proof {
        lemma_entry_trees_of(es@);
    }
    if depth >= MAX_DEPTH {
        return Err(NbtError::DepthExceeded);
    }
    let ghost start = out@;
    let mut i: usize = 0;
    assert(ts.subrange(0, ts.len() as int) =~= ts);
    while i < es.len()
        invariant
            i <= es@.len(),
            ts == entry_trees_of(es@),
            ts.len() == es@.len(),
            forall|j: int| 0 <= j < es@.len() ==> #[trigger] ts[j] == (es@[j].0@, es@[j].1@),
            depth < MAX_DEPTH,
            entries_problem(var, ts, (depth + 1) as nat) == entries_problem(
                var,
                ts.subrange(i as int, ts.len() as int),
                (depth + 1) as nat,
            ),
            out@ + entries_bytes(var, ts.subrange(i as int, ts.len() as int)) == start
                + entries_bytes(var, ts),
        decreases es@.len() - i,
    {
        let ghost rest = ts.subrange(i as int, ts.len() as int);
        assert(rest.subrange(1, rest.len() as int) =~= ts.subrange(i + 1, ts.len() as int));
        assert(rest[0] == (es@[i as int].0@, es@[i as int].1@));
        let ghost before = out@;
        let entry = &es[i];
        out.push(entry.1.tag().to_byte());
        match write_str(var, entry.0.as_str(), out) {
            Ok(()) => {},
            Err(e) => return Err(e),
        }
        match write_payload(var, &entry.1, depth + 1, out) {
            Ok(()) => {},
            Err(e) => return Err(e),
        }
        assert(before + entries_bytes(var, rest) =~= out@ + entries_bytes(
            var,
            ts.subrange(i + 1, ts.len() as int),
        ));
        i = i + 1;
    }
    assert(ts.subrange(i as int, ts.len() as int) =~= Seq::<(Seq<char>, Tree)>::empty());
    assert(out@ =~= out@ + entries_bytes(var, ts.subrange(i as int, ts.len() as int)));
    out.push(0);
    assert(out@ =~= old(out)@ + payload_bytes(var, Tree::Compound(ts)));
    Ok(())
}

/// Encodes a document whose root compound is `v`, under the root name `name`.
pub fn encode_document(var: Variant, v: &Value, name: &str) -> (r: Result<Vec<u8>, NbtError>)
    ensures
        match document_problem(var, v@, name@) {
            None => r is Ok && r->Ok_0@ == document_bytes(var, v@, name@),
            Some(e) => r == Err::<Vec<u8>, NbtError>(e),
        },
{
    match v {
        Value::Compound(_) => {},
        _ => return Err(NbtError::UnexpectedType { expected: FieldType::Compound, actual: v.tag() }),
    }
    let mut out: Vec<u8> = Vec::new();
    out.push(FieldType::Compound.to_byte());
    match write_str(var, name, &mut out) {
        Ok(()) => {},
        Err(e) => return Err(e),
    }
    match write_payload(var, v, 0, &mut out) {
        Ok(()) => {},
        Err(e) => return Err(e),
    }
    assert(out@ =~= document_bytes(var, v@, name@));
    Ok(out)
}

} // verus!
