//! Laws that relate the encoder and the decoder.

use crate::error::NbtError;
use crate::grammar::{
    document_bytes, document_problem, elem_tag, elems_bytes, elems_problem, entries_bytes,
    entries_problem, has_key, ints_bytes, keys_unique, keys_unique_deep, longs_bytes,
    parse_byte_array, parse_compound, parse_document, parse_elems, parse_entries, parse_int_array,
    parse_ints, parse_list, parse_long_array, parse_longs, parse_payload, parse_str,
    payload_bytes, payload_problem, put, str_bytes, tree_tag,
};
use crate::tag::FieldType;
use crate::value::Tree;
use crate::variant::Variant;
use crate::wire::{
    lemma_byte_round_trip, lemma_double_round_trip, lemma_float_round_trip, lemma_int_round_trip,
    lemma_long_round_trip, lemma_primitives_within, lemma_seq_len_round_trip,
    lemma_short_round_trip, lemma_str_len_round_trip, lemma_tag_round_trip, max_str_len,
    seq_len_bytes, str_len_bytes,
};
use vstd::prelude::*;
use vstd::utf8::{encode_utf8, encode_utf8_decode_utf8, encode_utf8_valid_utf8};

verus! {

/// A string that fits its length prefix reads back as itself.
pub proof fn lemma_str_round_trip(var: Variant, cs: Seq<char>, rest: Seq<u8>)
    requires
        encode_utf8(cs).len() <= max_str_len(var),
    ensures
        parse_str(var, str_bytes(var, cs) + rest) == Ok::<(Seq<char>, nat), NbtError>(
            (cs, str_bytes(var, cs).len()),
        ),
{
    let b = encode_utf8(cs);
    let l = str_len_bytes(var, b.len());
    let s = str_bytes(var, cs) + rest;
    assert(s =~= l + (b + rest));
    lemma_str_len_round_trip(var, b.len(), b + rest);
    assert(s.subrange(l.len() as int, (l.len() + b.len()) as int) =~= b);
    encode_utf8_valid_utf8(cs);
    encode_utf8_decode_utf8(cs);
}

/// A sequence of Ints reads back as itself.
pub proof fn lemma_ints_round_trip(var: Variant, xs: Seq<i32>, rest: Seq<u8>)
    ensures
        parse_ints(var, xs.len(), ints_bytes(var, xs) + rest) == Ok::<(Seq<i32>, nat), NbtError>(
            (xs, ints_bytes(var, xs).len()),
        ),
    decreases xs.len(),
{
    if xs.len() > 0 {
        let tail = ints_bytes(var, xs.drop_first()) + rest;
        let s = ints_bytes(var, xs) + rest;
        assert(s =~= crate::wire::int_bytes(var, xs[0]) + tail);
        lemma_int_round_trip(var, xs[0], tail);
        let k = crate::wire::int_bytes(var, xs[0]).len();
        assert(s.skip(k as int) =~= tail);
        lemma_ints_round_trip(var, xs.drop_first(), rest);
        assert(seq![xs[0]] + xs.drop_first() =~= xs);
        assert(ints_bytes(var, xs).len() == k + ints_bytes(var, xs.drop_first()).len());
    } else {
        assert(ints_bytes(var, xs) + rest =~= rest);
        assert(xs =~= Seq::<i32>::empty());
    }
}

/// A sequence of Longs reads back as itself.
pub proof fn lemma_longs_round_trip(var: Variant, xs: Seq<i64>, rest: Seq<u8>)
    ensures
        parse_longs(var, xs.len(), longs_bytes(var, xs) + rest) == Ok::<(Seq<i64>, nat), NbtError>(
            (xs, longs_bytes(var, xs).len()),
        ),
    decreases xs.len(),
{
    if xs.len() > 0 {
        let tail = longs_bytes(var, xs.drop_first()) + rest;
        let s = longs_bytes(var, xs) + rest;
        assert(s =~= crate::wire::long_bytes(var, xs[0]) + tail);
        lemma_long_round_trip(var, xs[0], tail);
        let k = crate::wire::long_bytes(var, xs[0]).len();
        assert(s.skip(k as int) =~= tail);
        lemma_longs_round_trip(var, xs.drop_first(), rest);
        assert(seq![xs[0]] + xs.drop_first() =~= xs);
        assert(longs_bytes(var, xs).len() == k + longs_bytes(var, xs.drop_first()).len());
    } else {
        assert(longs_bytes(var, xs) + rest =~= rest);
        assert(xs =~= Seq::<i64>::empty());
    }
}

/// The payload of a tree that can be written reads back as the tree, with its
/// own tag, whatever follows it.
pub proof fn lemma_payload_round_trip(var: Variant, t: Tree, rest: Seq<u8>, depth: nat)
    requires
        payload_problem(var, t, depth) is None,
        keys_unique_deep(t),
    ensures
        parse_payload(var, tree_tag(t), payload_bytes(var, t) + rest, depth) == Ok::<
            (Tree, nat),
            NbtError,
        >((t, payload_bytes(var, t).len())),
    decreases t, 2nat,
{
    match t {
        Tree::Byte(x) => lemma_byte_round_trip(x, rest),
        Tree::Short(x) => lemma_short_round_trip(var, x, rest),
        Tree::Int(x) => lemma_int_round_trip(var, x, rest),
        Tree::Long(x) => lemma_long_round_trip(var, x, rest),
        Tree::Float(bits) => lemma_float_round_trip(var, bits, rest),
        Tree::Double(bits) => lemma_double_round_trip(var, bits, rest),
        Tree::ByteArray(bs) => lemma_byte_array_round_trip(var, bs, rest),
        Tree::String(cs) => lemma_str_round_trip(var, cs, rest),
        Tree::List(ts) => lemma_list_round_trip(var, ts, rest, depth),
        Tree::Compound(es) => lemma_compound_round_trip(var, es, rest, depth),
        Tree::IntArray(xs) => lemma_int_array_round_trip(var, xs, rest),
        Tree::LongArray(xs) => lemma_long_array_round_trip(var, xs, rest),
    }
}

proof fn lemma_byte_array_round_trip(var: Variant, bs: Seq<u8>, rest: Seq<u8>)
    requires
        bs.len() <= i32::MAX,
    ensures
        parse_byte_array(var, payload_bytes(var, Tree::ByteArray(bs)) + rest) == Ok::<
            (Tree, nat),
            NbtError,
        >((Tree::ByteArray(bs), payload_bytes(var, Tree::ByteArray(bs)).len())),
{
    let s = payload_bytes(var, Tree::ByteArray(bs)) + rest;
    let l = seq_len_bytes(var, bs.len());
    assert(s =~= l + (bs + rest));
    lemma_seq_len_round_trip(var, bs.len(), bs + rest);
    assert(s.subrange(l.len() as int, (l.len() + bs.len()) as int) =~= bs);
}

proof fn lemma_int_array_round_trip(var: Variant, xs: Seq<i32>, rest: Seq<u8>)
    requires
        xs.len() <= i32::MAX,
    ensures
        parse_int_array(var, payload_bytes(var, Tree::IntArray(xs)) + rest) == Ok::<
            (Tree, nat),
            NbtError,
        >((Tree::IntArray(xs), payload_bytes(var, Tree::IntArray(xs)).len())),
{
    let s = payload_bytes(var, Tree::IntArray(xs)) + rest;
    let l = seq_len_bytes(var, xs.len());
    assert(s =~= l + (ints_bytes(var, xs) + rest));
    lemma_seq_len_round_trip(var, xs.len(), ints_bytes(var, xs) + rest);
    assert(s.skip(l.len() as int) =~= ints_bytes(var, xs) + rest);
    lemma_ints_round_trip(var, xs, rest);
}

proof fn lemma_long_array_round_trip(var: Variant, xs: Seq<i64>, rest: Seq<u8>)
    requires
        xs.len() <= i32::MAX,
    ensures
        parse_long_array(var, payload_bytes(var, Tree::LongArray(xs)) + rest) == Ok::<
            (Tree, nat),
            NbtError,
        >((Tree::LongArray(xs), payload_bytes(var, Tree::LongArray(xs)).len())),
{
    let s = payload_bytes(var, Tree::LongArray(xs)) + rest;
    let l = seq_len_bytes(var, xs.len());
    assert(s =~= l + (longs_bytes(var, xs) + rest));
    lemma_seq_len_round_trip(var, xs.len(), longs_bytes(var, xs) + rest);
    assert(s.skip(l.len() as int) =~= longs_bytes(var, xs) + rest);
    lemma_longs_round_trip(var, xs, rest);
}

#[verifier::rlimit(60)]
proof fn lemma_list_round_trip(var: Variant, ts: Seq<Tree>, rest: Seq<u8>, depth: nat)
    requires
        payload_problem(var, Tree::List(ts), depth) is None,
        keys_unique_deep(Tree::List(ts)),
    ensures
        parse_list(var, payload_bytes(var, Tree::List(ts)) + rest, depth) == Ok::<
            (Tree, nat),
            NbtError,
        >((Tree::List(ts), payload_bytes(var, Tree::List(ts)).len())),
    decreases ts, 1nat,
{
    let s = payload_bytes(var, Tree::List(ts)) + rest;
    let l = seq_len_bytes(var, ts.len());
    let e = elems_bytes(var, ts);
    assert(s =~= seq![elem_tag(ts).spec_byte()] + (l + (e + rest)));
    lemma_tag_round_trip(elem_tag(ts), l + (e + rest));
    assert(s.skip(1) =~= l + (e + rest));
    lemma_seq_len_round_trip(var, ts.len(), e + rest);
    assert(s.skip((1 + l.len()) as int) =~= e + rest);
    lemma_elems_round_trip(var, elem_tag(ts), ts, rest, depth + 1);
}

#[verifier::rlimit(60)]
proof fn lemma_compound_round_trip(
    var: Variant,
    es: Seq<(Seq<char>, Tree)>,
    rest: Seq<u8>,
    depth: nat,
)
    requires
        payload_problem(var, Tree::Compound(es), depth) is None,
        keys_unique_deep(Tree::Compound(es)),
    ensures
        parse_compound(var, payload_bytes(var, Tree::Compound(es)) + rest, depth) == Ok::<
            (Tree, nat),
            NbtError,
        >((Tree::Compound(es), payload_bytes(var, Tree::Compound(es)).len())),
    decreases es, 1nat,
{
    let s = payload_bytes(var, Tree::Compound(es)) + rest;
    assert(s =~= entries_bytes(var, es) + (seq![0u8] + rest));
    assert(seq![] + es =~= es);
    lemma_entries_round_trip(var, seq![], es, seq![0u8] + rest, depth + 1);
}

/// List elements that all carry `tag` read back as themselves.
pub proof fn lemma_elems_round_trip(
    var: Variant,
    tag: FieldType,
    ts: Seq<Tree>,
    rest: Seq<u8>,
    depth: nat,
)
    requires
        elems_problem(var, tag, ts, depth) is None,
        forall|i: int| 0 <= i < ts.len() ==> keys_unique_deep(#[trigger] ts[i]),
    ensures
        parse_elems(var, tag, ts.len(), elems_bytes(var, ts) + rest, depth) == Ok::<
            (Seq<Tree>, nat),
            NbtError,
        >((ts, elems_bytes(var, ts).len())),
    decreases ts, 0nat,
{
    if ts.len() == 0 {
        assert(elems_bytes(var, ts) + rest =~= rest);
        assert(ts =~= seq![]);
    } else {
        let tail = ts.subrange(1, ts.len() as int);
        let p = payload_bytes(var, ts[0]);
        let s = elems_bytes(var, ts) + rest;
        assert(s =~= p + (elems_bytes(var, tail) + rest));
        lemma_payload_round_trip(var, ts[0], elems_bytes(var, tail) + rest, depth);
        assert(s.skip(p.len() as int) =~= elems_bytes(var, tail) + rest);
        assert forall|i: int| 0 <= i < tail.len() implies keys_unique_deep(#[trigger] tail[i]) by {
            assert(tail[i] == ts[i + 1]);
        }
        lemma_elems_round_trip(var, tag, tail, rest, depth);
        assert(seq![ts[0]] + tail =~= ts);
    }
}

/// One compound entry: its tag, key and payload, then what follows.
#[verifier::rlimit(100)]
proof fn lemma_entry_step(
    var: Variant,
    acc: Seq<(Seq<char>, Tree)>,
    e0: (Seq<char>, Tree),
    after: Seq<u8>,
    depth: nat,
)
    requires
        encode_utf8(e0.0).len() <= max_str_len(var),
        parse_payload(var, tree_tag(e0.1), payload_bytes(var, e0.1) + after, depth) == Ok::<
            (Tree, nat),
            NbtError,
        >((e0.1, payload_bytes(var, e0.1).len())),
        !has_key(acc, e0.0),
    ensures
        parse_entries(
            var,
            acc,
            seq![tree_tag(e0.1).spec_byte()] + str_bytes(var, e0.0) + payload_bytes(var, e0.1)
                + after,
            depth,
        ) == match parse_entries(var, acc.push(e0), after, depth) {
            Ok((x, k)) => Ok::<(Seq<(Seq<char>, Tree)>, nat), NbtError>(
                (
                    x,
                    k + 1 + str_bytes(var, e0.0).len() + payload_bytes(var, e0.1).len(),
                ),
            ),
            Err(e) => Err(e),
        },
{
    let sb = str_bytes(var, e0.0);
    let p = payload_bytes(var, e0.1);
    let s = seq![tree_tag(e0.1).spec_byte()] + sb + p + after;
    assert(s =~= seq![tree_tag(e0.1).spec_byte()] + (sb + (p + after)));
    lemma_tag_round_trip(tree_tag(e0.1), sb + (p + after));
    assert(s.skip(1) =~= sb + (p + after));
    lemma_str_round_trip(var, e0.0, p + after);
    assert(s.skip((1 + sb.len()) as int) =~= p + after);
    assert(s.skip((1 + sb.len() + p.len()) as int) =~= after);
    assert(put(acc, e0.0, e0.1) == acc.push(e0));
}

/// Taking the first entry of `es` over to `acc` keeps the keys unique, and its
/// key is not among those of `acc`.
proof fn lemma_keys_split(acc: Seq<(Seq<char>, Tree)>, es: Seq<(Seq<char>, Tree)>)
    requires
        es.len() > 0,
        keys_unique(acc + es),
    ensures
        !has_key(acc, es[0].0),
        acc.push(es[0]) + es.subrange(1, es.len() as int) == acc + es,
{
    assert(acc.push(es[0]) + es.subrange(1, es.len() as int) =~= acc + es);
    if has_key(acc, es[0].0) {
        let i = choose|i: int| 0 <= i < acc.len() && acc[i].0 == es[0].0;
        assert((acc + es)[i].0 == (acc + es)[acc.len() as int].0);
    }
}

/// Compound entries with keys new to `acc` and to each other, followed by an
/// End tag, read back as `acc` followed by themselves.
#[verifier::rlimit(100)]
pub proof fn lemma_entries_round_trip(
    var: Variant,
    acc: Seq<(Seq<char>, Tree)>,
    es: Seq<(Seq<char>, Tree)>,
    rest: Seq<u8>,
    depth: nat,
)
    requires
        entries_problem(var, es, depth) is None,
        keys_unique(acc + es),
        forall|i: int| 0 <= i < es.len() ==> keys_unique_deep(#[trigger] es[i].1),
        rest.len() > 0 && rest[0] == 0,
    ensures
        parse_entries(var, acc, entries_bytes(var, es) + rest, depth) == Ok::<
            (Seq<(Seq<char>, Tree)>, nat),
            NbtError,
        >((acc + es, entries_bytes(var, es).len() + 1)),
    decreases es, 0nat,
{
    let s = entries_bytes(var, es) + rest;
    if es.len() == 0 {
        assert(s =~= rest);
        assert(acc + es =~= acc);
    } else {
        let e0 = es[0];
        let tail = es.subrange(1, es.len() as int);
        let after = entries_bytes(var, tail) + rest;
        assert(s =~= seq![tree_tag(e0.1).spec_byte()] + str_bytes(var, e0.0) + payload_bytes(
            var,
            e0.1,
        ) + after);
        assert(payload_problem(var, e0.1, depth) is None);
        assert(keys_unique_deep(es[0].1));
        lemma_payload_round_trip(var, e0.1, after, depth);
        lemma_keys_split(acc, es);
        lemma_entry_step(var, acc, e0, after, depth);
        assert forall|i: int| 0 <= i < tail.len() implies keys_unique_deep(#[trigger] tail[i].1) by {
            assert(tail[i] == es[i + 1]);
        }
        lemma_entries_round_trip(var, acc.push(e0), tail, rest, depth);
        assert(entries_bytes(var, es).len() == 1 + str_bytes(var, e0.0).len() + payload_bytes(
            var,
            e0.1,
        ).len() + entries_bytes(var, tail).len());
    }
}

/// Round trip: a document written from a tree that can be written, and whose
/// compounds have unique keys, reads back as the same tree, whatever the root
/// name and whatever bytes follow it, in each of the three variants.
pub proof fn lemma_round_trip(var: Variant, t: Tree, name: Seq<char>, rest: Seq<u8>)
    requires
        document_problem(var, t, name) is None,
        keys_unique_deep(t),
    ensures
        parse_document(var, document_bytes(var, t, name) + rest) == Ok::<(Tree, nat), NbtError>(
            (t, document_bytes(var, t, name).len()),
        ),
{
    let sb = str_bytes(var, name);
    let p = payload_bytes(var, t);
    let s = document_bytes(var, t, name) + rest;
    assert(s =~= seq![FieldType::Compound.spec_byte()] + (sb + (p + rest)));
    lemma_tag_round_trip(FieldType::Compound, sb + (p + rest));
    assert(s.skip(1) =~= sb + (p + rest));
    lemma_str_round_trip(var, name, p + rest);
    assert(s.skip((1 + sb.len()) as int) =~= p + rest);
    lemma_payload_round_trip(var, t, rest, 0);
}

/// Tag legality: a document whose first byte is above 12 fails with
/// `UnrecognizedTag` of that byte, in every variant.
pub proof fn lemma_unrecognized_root_tag(var: Variant, s: Seq<u8>)
    requires
        s.len() > 0,
        s[0] > 12,
    ensures
        parse_document(var, s) == Err::<(Tree, nat), NbtError>(NbtError::UnrecognizedTag(s[0])),
{
}

/// Tag legality: where a compound's next entry tag is above 12, reading the
/// compound fails with `UnrecognizedTag` of that byte.
pub proof fn lemma_unrecognized_entry_tag(
    var: Variant,
    acc: Seq<(Seq<char>, Tree)>,
    s: Seq<u8>,
    depth: nat,
)
    requires
        s.len() > 0,
        s[0] > 12,
    ensures
        parse_entries(var, acc, s, depth) == Err::<(Seq<(Seq<char>, Tree)>, nat), NbtError>(
            NbtError::UnrecognizedTag(s[0]),
        ),
{
}

/// Compound termination: an empty compound is written as the single End byte,
/// and that byte alone reads back as a compound with no entries.
pub proof fn lemma_empty_compound(var: Variant, rest: Seq<u8>, depth: nat)
    requires
        depth < crate::grammar::MAX_DEPTH,
    ensures
        payload_bytes(var, Tree::Compound(Seq::empty())) == seq![0u8],
        parse_payload(var, FieldType::Compound, seq![0u8] + rest, depth) == Ok::<(Tree, nat), NbtError>(
            (Tree::Compound(Seq::empty()), 1),
        ),
{
    let es = Seq::<(Seq<char>, Tree)>::empty();
    assert(entries_bytes(var, es) =~= Seq::<u8>::empty());
    assert(payload_bytes(var, Tree::Compound(es)) =~= seq![0u8]);
    assert((seq![0u8] + rest)[0] == 0);
}

} // verus!
