//! The decoder for dynamic value trees, proved to follow the grammar.

use crate::error::NbtError;
use crate::grammar::{
    has_key, key_index, parse_byte_array, parse_compound, parse_document, parse_int_array,
    parse_list, parse_long_array, parse_elems, parse_entries, parse_ints, parse_longs,
    parse_payload, parse_str, put, MAX_DEPTH,
};
use crate::tag::FieldType;
use crate::value::{
    entry_trees_of, lemma_entry_trees_of, lemma_entry_trees_of_push, lemma_entry_trees_of_update,
    lemma_trees_of_push, trees_of, Tree, Value,
};
use crate::variant::Variant;
use crate::wire::{
    agrees, lemma_primitives_within, parse_seq_len, parse_str_len, read_byte, read_double, read_float, read_int, read_long,
    read_seq_len, read_short, read_str_len, read_tag,
};
use vstd::prelude::*;
use vstd::utf8::{decode_utf8, valid_utf8};

verus! {

/// What a value reader returns, compared with the grammar.
pub open spec fn agrees_value(r: Result<(Value, usize), NbtError>, s: Result<(Tree, nat), NbtError>) -> bool {
    match (r, s) {
        (Ok((v, k1)), Ok((t, k2))) => v@ == t && k1 as nat == k2,
        (Err(e1), Err(e2)) => e1 == e2,
        _ => false,
    }
}

/// Counts `d` more consumed bytes in a successful result.
pub open spec fn offset<T>(r: Result<(T, nat), NbtError>, d: int) -> Result<(T, nat), NbtError> {
    match r {
        Ok((x, k)) => Ok((x, (k + d) as nat)),
        Err(e) => Err(e),
    }
}

/// Puts `pre` in front of the sequence in a successful result.
pub open spec fn prepend<T>(pre: Seq<T>, r: Result<(Seq<T>, nat), NbtError>) -> Result<(Seq<T>, nat), NbtError> {
    match r {
        Ok((xs, k)) => Ok((pre + xs, k)),
        Err(e) => Err(e),
    }
}

/// Appending an element and then a sequence is putting both at once.
pub proof fn lemma_push_assoc<T>(pre: Seq<T>, x: T)
    ensures
        forall|xs: Seq<T>| #[trigger] (pre.push(x) + xs) == pre + (seq![x] + xs),
{
    assert forall|xs: Seq<T>| #[trigger] (pre.push(x) + xs) == pre + (seq![x] + xs) by {
        assert(pre.push(x) + xs =~= pre + (seq![x] + xs));
    }
}

/// Relies on std's `String::from_utf8`: it takes the bytes over when they are
/// valid UTF-8, and fails otherwise.
#[verifier::external_body]
fn string_from_utf8(bytes: Vec<u8>) -> (r: Option<String>)
    ensures
        match r {
            Some(s) => valid_utf8(bytes@) && s@ == decode_utf8(bytes@),
            None => !valid_utf8(bytes@),
        },
{
    String::from_utf8(bytes).ok()
}

/// Reads a string at `pos`: its length prefix, then its UTF-8 bytes.
pub fn read_str(var: Variant, input: &[u8], pos: usize) -> (r: Result<(String, usize), NbtError>)
    requires
        pos <= input@.len(),
    ensures
        match (r, parse_str(var, input@.skip(pos as int))) {
            (Ok((v, k1)), Ok((cs, k2))) => v@ == cs && k1 as nat == k2,
            (Err(e1), Err(e2)) => e1 == e2,
            _ => false,
        },
        r is Ok ==> r->Ok_0.1 <= input@.len() - pos,
{
    let s = Ghost(input@.skip(pos as int));
    let total = input.len();
    let (n, k) = match read_str_len(var, input, pos) {
        Ok(x) => x,
        Err(e) => return Err(e),
    };
    proof {
        lemma_primitives_within(var, s@);
    }
    let start = pos + k;
    if total - start < n as usize {
        return Err(NbtError::UnexpectedEof);
    }
    let end = start + n as usize;
    let bytes = vstd::slice::slice_to_vec(vstd::slice::slice_subrange(input, start, end));
    assert(bytes@ =~= s@.subrange(k as int, k + n));
    match string_from_utf8(bytes) {
        Some(text) => Ok((text, k + n as usize)),
        None => Err(NbtError::InvalidUtf8),
    }
}

/// Reads `n` Ints at `pos`.
fn read_ints(var: Variant, n: u32, input: &[u8], pos: usize) -> (r: Result<(Vec<i32>, usize), NbtError>)
    requires
        pos <= input@.len(),
    ensures
        match (r, parse_ints(var, n as nat, input@.skip(pos as int))) {
            (Ok((v, k1)), Ok((xs, k2))) => v@ == xs && k1 as nat == k2,
            (Err(e1), Err(e2)) => e1 == e2,
            _ => false,
        },
        r is Ok ==> r->Ok_0.1 <= input@.len() - pos,
{
    let total = input.len();
    let mut out: Vec<i32> = Vec::new();
    let mut cur = pos;
    let mut m = n;
    while m > 0
        invariant
            pos <= cur <= input@.len(),
            total == input@.len(),
            parse_ints(var, n as nat, input@.skip(pos as int)) == prepend(
                out@,
                offset(parse_ints(var, m as nat, input@.skip(cur as int)), cur - pos),
            ),
        decreases m,
    {
        let (x, k) = match read_int(var, input, cur) {
            Ok(v) => v,
            Err(e) => return Err(e),
        };
        proof {
            lemma_primitives_within(var, input@.skip(cur as int));
            assert(input@.skip(cur as int).skip(k as int) =~= input@.skip(cur + k));
            lemma_push_assoc(out@, x);
        }
        out.push(x);
        cur = cur + k;
        m = m - 1;
    }
    Ok((out, cur - pos))
}

/// Reads `n` Longs at `pos`.
fn read_longs(var: Variant, n: u32, input: &[u8], pos: usize) -> (r: Result<(Vec<i64>, usize), NbtError>)
    requires
        pos <= input@.len(),
    ensures
        match (r, parse_longs(var, n as nat, input@.skip(pos as int))) {
            (Ok((v, k1)), Ok((xs, k2))) => v@ == xs && k1 as nat == k2,
            (Err(e1), Err(e2)) => e1 == e2,
            _ => false,
        },
        r is Ok ==> r->Ok_0.1 <= input@.len() - pos,
{
    let total = input.len();
    let mut out: Vec<i64> = Vec::new();
    let mut cur = pos;
    let mut m = n;
    while m > 0
        invariant
            pos <= cur <= input@.len(),
            total == input@.len(),
            parse_longs(var, n as nat, input@.skip(pos as int)) == prepend(
                out@,
                offset(parse_longs(var, m as nat, input@.skip(cur as int)), cur - pos),
            ),
        decreases m,
    {
        let (x, k) = match read_long(var, input, cur) {
            Ok(v) => v,
            Err(e) => return Err(e),
        };
        proof {
            lemma_primitives_within(var, input@.skip(cur as int));
            assert(input@.skip(cur as int).skip(k as int) =~= input@.skip(cur + k));
            lemma_push_assoc(out@, x);
        }
        out.push(x);
        cur = cur + k;
        m = m - 1;
    }
    Ok((out, cur - pos))
}


/// Adds an entry to a compound: replaces the value of the entry with the same
/// key, or appends the entry.
fn put_entry(acc: &mut Vec<(String, Value)>, key: String, v: Value)
    ensures
        entry_trees_of(final(acc)@) == put(entry_trees_of(old(acc)@), key@, v@),
{
    let ghost es = entry_trees_of(old(acc)@);
    proof {
        lemma_entry_trees_of(old(acc)@);
    }
    let mut i: usize = 0;
    while i < acc.len()
        invariant
            acc@ == old(acc)@,
            es == entry_trees_of(acc@),
            i <= acc@.len(),
            es.len() == acc@.len(),
            forall|j: int| 0 <= j < acc@.len() ==> #[trigger] es[j] == (acc@[j].0@, acc@[j].1@),
            forall|j: int| 0 <= j < i ==> es[j].0 != key@,
        decreases acc@.len() - i,
    {
        if acc[i].0 == key {
            proof {
                assert(es[i as int].0 == key@);
                assert(has_key(es, key@));
                let c = key_index(es, key@);
                assert(0 <= c < es.len() && es[c].0 == key@ && forall|j: int|
                    0 <= j < c ==> es[j].0 != key@);
                assert(c == i);
            }
            proof {
                lemma_entry_trees_of_update(acc@, i as int, (key, v));
            }
            acc.set(i, (key, v));
            return;
        }
        i = i + 1;
    }
    proof {
        lemma_entry_trees_of_push(acc@, (key, v));
    }
    acc.push((key, v));
}

/// Reads the payload of a value whose tag is `ty` at `pos`, at nesting depth
/// `depth`.
pub fn read_payload(var: Variant, ty: FieldType, input: &[u8], pos: usize, depth: usize) -> (r: Result<
    (Value, usize),
    NbtError,
>)
    requires
        pos <= input@.len(),
        depth <= MAX_DEPTH,
    ensures
        agrees_value(r, parse_payload(var, ty, input@.skip(pos as int), depth as nat)),
        r is Ok ==> r->Ok_0.1 <= input@.len() - pos,
    decreases input@.len() - pos, 2nat, 0nat,
{
    let ghost s = input@.skip(pos as int);
    let total = input.len();
    proof {
        lemma_primitives_within(var, s);
    }
    match ty {
        FieldType::End => Err(NbtError::UnmatchedEnd),
        FieldType::Byte => match read_byte(input, pos) {
            Ok((x, k)) => Ok((Value::Byte(x), k)),
            Err(e) => Err(e),
        },
        FieldType::Short => match read_short(var, input, pos) {
            Ok((x, k)) => Ok((Value::Short(x), k)),
            Err(e) => Err(e),
        },
        FieldType::Int => match read_int(var, input, pos) {
            Ok((x, k)) => Ok((Value::Int(x), k)),
            Err(e) => Err(e),
        },
        FieldType::Long => match read_long(var, input, pos) {
            Ok((x, k)) => Ok((Value::Long(x), k)),
            Err(e) => Err(e),
        },
        FieldType::Float => match read_float(var, input, pos) {
            Ok((x, k)) => Ok((Value::Float(x), k)),
            Err(e) => Err(e),
        },
        FieldType::Double => match read_double(var, input, pos) {
            Ok((x, k)) => Ok((Value::Double(x), k)),
            Err(e) => Err(e),
        },
        FieldType::ByteArray => read_byte_array(var, input, pos),
        FieldType::String => match read_str(var, input, pos) {
            Ok((text, k)) => Ok((Value::String(text), k)),
            Err(e) => Err(e),
        },
        FieldType::List => read_list(var, input, pos, depth),
        FieldType::Compound => read_compound(var, input, pos, depth),
        FieldType::IntArray => read_int_array(var, input, pos),
        FieldType::LongArray => read_long_array(var, input, pos),
    }
}

fn read_byte_array(var: Variant, input: &[u8], pos: usize) -> (r: Result<(Value, usize), NbtError>)
    requires
        pos <= input@.len(),
    ensures
        agrees_value(r, parse_byte_array(var, input@.skip(pos as int))),
        r is Ok ==> r->Ok_0.1 <= input@.len() - pos,
{
    match read_bytes(var, input, pos) {
        Ok((bytes, k)) => Ok((Value::ByteArray(bytes), k)),
        Err(e) => Err(e),
    }
}

/// Reads the payload of a ByteArray at `pos`: its length, then the bytes.
pub fn read_bytes(var: Variant, input: &[u8], pos: usize) -> (r: Result<(Vec<u8>, usize), NbtError>)
    requires
        pos <= input@.len(),
    ensures
        match (r, parse_byte_array(var, input@.skip(pos as int))) {
            (Ok((b, k1)), Ok((t, k2))) => t == Tree::ByteArray(b@) && k1 as nat == k2,
            (Err(e1), Err(e2)) => e1 == e2,
            _ => false,
        },
        r is Ok ==> r->Ok_0.1 <= input@.len() - pos,
{
    let ghost s = input@.skip(pos as int);
    let total = input.len();
    proof {
        lemma_primitives_within(var, s);
    }
    let (n, k) = match read_seq_len(var, input, pos) {
        Ok(x) => x,
        Err(e) => return Err(e),
    };
    let start = pos + k;
    if total - start < n as usize {
        return Err(NbtError::UnexpectedEof);
    }
    let end = start + n as usize;
    let bytes = vstd::slice::slice_to_vec(vstd::slice::slice_subrange(input, start, end));
    assert(bytes@ =~= s.subrange(k as int, k + n));
    Ok((bytes, k + n as usize))
}

fn read_list(var: Variant, input: &[u8], pos: usize, depth: usize) -> (r: Result<(Value, usize), NbtError>)
    requires
        pos <= input@.len(),
        depth <= MAX_DEPTH,
    ensures
        agrees_value(r, parse_list(var, input@.skip(pos as int), depth as nat)),
        r is Ok ==> r->Ok_0.1 <= input@.len() - pos,
    decreases input@.len() - pos, 1nat, 0nat,
{
    let ghost s = input@.skip(pos as int);
    let total = input.len();
    proof {
        lemma_primitives_within(var, s);
    }
    if depth >= MAX_DEPTH {
        return Err(NbtError::DepthExceeded);
    }
    let (et, _) = match read_tag(input, pos) {
        Ok(x) => x,
        Err(e) => return Err(e),
    };
    proof {
        lemma_primitives_within(var, input@.skip(pos + 1));
        assert(s.skip(1) =~= input@.skip(pos + 1));
    }
    let (n, k) = match read_seq_len(var, input, pos + 1) {
        Ok(x) => x,
        Err(e) => return Err(e),
    };
    assert(s.skip(1 + k) =~= input@.skip(pos + 1 + k));
    match read_elems(var, et, n, input, pos + 1 + k, depth + 1) {
        Ok((ts, k2)) => {
            Ok((Value::List(ts), 1 + k + k2))
        },
        Err(e) => Err(e),
    }
}

fn read_compound(var: Variant, input: &[u8], pos: usize, depth: usize) -> (r: Result<(Value, usize), NbtError>)
    requires
        pos <= input@.len(),
        depth <= MAX_DEPTH,
    ensures
        agrees_value(r, parse_compound(var, input@.skip(pos as int), depth as nat)),
        r is Ok ==> r->Ok_0.1 <= input@.len() - pos,
    decreases input@.len() - pos, 1nat, 0nat,
{
    let ghost s = input@.skip(pos as int);
    let total = input.len();
    proof {
        lemma_primitives_within(var, s);
    }
    if depth >= MAX_DEPTH {
        return Err(NbtError::DepthExceeded);
    }
    match read_entries(var, input, pos, depth + 1) {
        Ok((es, k)) => {
            Ok((Value::Compound(es), k))
        },
        Err(e) => Err(e),
    }
}

fn read_int_array(var: Variant, input: &[u8], pos: usize) -> (r: Result<(Value, usize), NbtError>)
    requires
        pos <= input@.len(),
    ensures
        agrees_value(r, parse_int_array(var, input@.skip(pos as int))),
        r is Ok ==> r->Ok_0.1 <= input@.len() - pos,
{
    let ghost s = input@.skip(pos as int);
    let total = input.len();
    proof {
        lemma_primitives_within(var, s);
    }
    let (n, k) = match read_seq_len(var, input, pos) {
        Ok(x) => x,
        Err(e) => return Err(e),
    };
    assert(s.skip(k as int) =~= input@.skip(pos + k));
    match read_ints(var, n, input, pos + k) {
        Ok((xs, k2)) => Ok((Value::IntArray(xs), k + k2)),
        Err(e) => Err(e),
    }
}

fn read_long_array(var: Variant, input: &[u8], pos: usize) -> (r: Result<(Value, usize), NbtError>)
    requires
        pos <= input@.len(),
    ensures
        agrees_value(r, parse_long_array(var, input@.skip(pos as int))),
        r is Ok ==> r->Ok_0.1 <= input@.len() - pos,
{
    let ghost s = input@.skip(pos as int);
    let total = input.len();
    proof {
        lemma_primitives_within(var, s);
    }
    let (n, k) = match read_seq_len(var, input, pos) {
        Ok(x) => x,
        Err(e) => return Err(e),
    };
    assert(s.skip(k as int) =~= input@.skip(pos + k));
    match read_longs(var, n, input, pos + k) {
        Ok((xs, k2)) => Ok((Value::LongArray(xs), k + k2)),
        Err(e) => Err(e),
    }
}

/// Reads `n` list elements of tag `ty` at `pos`.
fn read_elems(var: Variant, ty: FieldType, n: u32, input: &[u8], pos: usize, depth: usize) -> (r: Result<
    (Vec<Value>, usize),
    NbtError,
>)
    requires
        pos <= input@.len(),
        depth <= MAX_DEPTH,
    ensures
        match (r, parse_elems(var, ty, n as nat, input@.skip(pos as int), depth as nat)) {
            (Ok((v, k1)), Ok((ts, k2))) => trees_of(v@) == ts && k1 as nat == k2,
            (Err(e1), Err(e2)) => e1 == e2,
            _ => false,
        },
        r is Ok ==> r->Ok_0.1 <= input@.len() - pos,
    decreases input@.len() - pos, 3nat, n,
{
    let total = input.len();
    let mut out: Vec<Value> = Vec::new();
    let mut cur = pos;
    let mut m = n;
    while m > 0
        invariant
            pos <= cur <= input@.len(),
            total == input@.len(),
            depth <= MAX_DEPTH,
            m <= n,
            parse_elems(var, ty, n as nat, input@.skip(pos as int), depth as nat) == prepend(
                trees_of(out@),
                offset(
                    parse_elems(var, ty, m as nat, input@.skip(cur as int), depth as nat),
                    cur - pos,
                ),
            ),
        decreases m,
    {
        let (x, k) = match read_payload(var, ty, input, cur, depth) {
            Ok(v) => v,
            Err(e) => return Err(e),
        };
        proof {
            assert(input@.skip(cur as int).skip(k as int) =~= input@.skip(cur + k));
            lemma_push_assoc(trees_of(out@), x@);
            lemma_trees_of_push(out@, x);
        }
        out.push(x);
        cur = cur + k;
        m = m - 1;
    }
    Ok((out, cur - pos))
}

/// Reads the entries of a compound at `pos`, up to and including its End tag.
#[verifier::rlimit(40)]
fn read_entries(var: Variant, input: &[u8], pos: usize, depth: usize) -> (r: Result<
    (Vec<(String, Value)>, usize),
    NbtError,
>)
    requires
        pos <= input@.len(),
        depth <= MAX_DEPTH,
    ensures
        match (r, parse_entries(var, seq![], input@.skip(pos as int), depth as nat)) {
            (Ok((v, k1)), Ok((es, k2))) => entry_trees_of(v@) == es && k1 as nat == k2,
            (Err(e1), Err(e2)) => e1 == e2,
            _ => false,
        },
        r is Ok ==> r->Ok_0.1 <= input@.len() - pos,
    decreases input@.len() - pos, 0nat, 0nat,
{
    let total = input.len();
    let mut out: Vec<(String, Value)> = Vec::new();
    let mut cur = pos;
    assert(entry_trees_of(out@) =~= Seq::<(Seq<char>, Tree)>::empty());
    loop
        invariant
            pos <= cur <= input@.len(),
            total == input@.len(),
            depth <= MAX_DEPTH,
            parse_entries(var, seq![], input@.skip(pos as int), depth as nat) == offset(
                parse_entries(var, entry_trees_of(out@), input@.skip(cur as int), depth as nat),
                cur - pos,
            ),
        decreases input@.len() - cur,
    {
        let ghost s = input@.skip(cur as int);
        let (t, _) = match read_tag(input, cur) {
            Ok(x) => x,
            Err(e) => return Err(e),
        };
        if t == FieldType::End {
            return Ok((out, cur + 1 - pos));
        }
        assert(s.skip(1) =~= input@.skip(cur + 1));
        let (key, k) = match read_str(var, input, cur + 1) {
            Ok(x) => x,
            Err(e) => return Err(e),
        };
        proof {
            crate::grammar::lemma_str_consumes(var, s.skip(1));
            assert(s.skip(1 + k) =~= input@.skip(cur + 1 + k));
        }
        let (v, k2) = match read_payload(var, t, input, cur + 1 + k, depth) {
            Ok(x) => x,
            Err(e) => return Err(e),
        };
        assert(s.skip(1 + k + k2) =~= input@.skip(cur + 1 + k + k2));
        put_entry(&mut out, key, v);
        cur = cur + 1 + k + k2;
    }
}

/// Decodes a document at the front of `input`: the root compound and the number
/// of bytes it takes.
pub fn decode_document(var: Variant, input: &[u8]) -> (r: Result<(Value, usize), NbtError>)
    ensures
        agrees_value(r, parse_document(var, input@)),
        r is Ok ==> r->Ok_0.1 <= input@.len(),
{
    let total = input.len();
    assert(input@.skip(0) =~= input@);
    let (t, _) = match read_tag(input, 0) {
        Ok(x) => x,
        Err(e) => return Err(e),
    };
    if t != FieldType::Compound {
        return Err(NbtError::UnexpectedType { expected: FieldType::Compound, actual: t });
    }
    assert(input@.skip(1) =~= input@.skip(0).skip(1));
    let (_, k) = match read_str(var, input, 1) {
        Ok(x) => x,
        Err(e) => return Err(e),
    };
    proof {
        crate::grammar::lemma_str_consumes(var, input@.skip(1));
        assert(input@.skip(1 + k) =~= input@.skip(0).skip(1 + k));
    }
    match read_payload(var, FieldType::Compound, input, 1 + k, 0) {
        Ok((v, k2)) => Ok((v, 1 + k + k2)),
        Err(e) => Err(e),
    }
}

} // verus!
