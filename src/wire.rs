//! Primitive fields on the wire, per variant: tags, integers, float bit
//! patterns, and length prefixes.

use crate::error::NbtError;
use crate::tag::{tag_of, FieldType};
use crate::variant::Variant;
use crate::varint::{
    parse_varint, push_var_i32, push_var_i64, push_var_u32, read_var_i32, read_var_i64,
    read_var_u32, varint_bytes, lemma_varint_len_le, lemma_varint_round_trip, lemma_varint_len_32,
    lemma_varint_len_64, lemma_zigzag_round_trip, zigzag_decode, zigzag_encode, VarintRead,
};
use vstd::prelude::*;

verus! {

/// Whether a variant writes fixed-width fields big-endian.
pub open spec fn is_big(var: Variant) -> bool {
    var == Variant::BigEndian
}

pub open spec fn u16_of(big: bool, s: Seq<u8>) -> u16 {
    if big {
        ((s[0] as u16) << 8u16) | (s[1] as u16)
    } else {
        ((s[1] as u16) << 8u16) | (s[0] as u16)
    }
}

pub open spec fn u32_of(big: bool, s: Seq<u8>) -> u32 {
    if big {
        ((s[0] as u32) << 24u32) | ((s[1] as u32) << 16u32) | ((s[2] as u32) << 8u32) | (
        s[3] as u32)
    } else {
        ((s[3] as u32) << 24u32) | ((s[2] as u32) << 16u32) | ((s[1] as u32) << 8u32) | (
        s[0] as u32)
    }
}

pub open spec fn u64_of(big: bool, s: Seq<u8>) -> u64 {
    if big {
        ((s[0] as u64) << 56u64) | ((s[1] as u64) << 48u64) | ((s[2] as u64) << 40u64) | ((
        s[3] as u64) << 32u64) | ((s[4] as u64) << 24u64) | ((s[5] as u64) << 16u64) | ((
        s[6] as u64) << 8u64) | (s[7] as u64)
    } else {
        ((s[7] as u64) << 56u64) | ((s[6] as u64) << 48u64) | ((s[5] as u64) << 40u64) | ((
        s[4] as u64) << 32u64) | ((s[3] as u64) << 24u64) | ((s[2] as u64) << 16u64) | ((
        s[1] as u64) << 8u64) | (s[0] as u64)
    }
}

pub open spec fn u16_bytes(big: bool, n: u16) -> Seq<u8> {
    let b = seq![(n >> 8u16) as u8, n as u8];
    if big {
        b
    } else {
        b.reverse()
    }
}

pub open spec fn u32_bytes(big: bool, n: u32) -> Seq<u8> {
    let b = seq![(n >> 24u32) as u8, (n >> 16u32) as u8, (n >> 8u32) as u8, n as u8];
    if big {
        b
    } else {
        b.reverse()
    }
}

pub open spec fn u64_bytes(big: bool, n: u64) -> Seq<u8> {
    let b = seq![
        (n >> 56u64) as u8,
        (n >> 48u64) as u8,
        (n >> 40u64) as u8,
        (n >> 32u64) as u8,
        (n >> 24u64) as u8,
        (n >> 16u64) as u8,
        (n >> 8u64) as u8,
        n as u8,
    ];
    if big {
        b
    } else {
        b.reverse()
    }
}

/// What a reader returns, compared with what the grammar gives: the same value
/// and the same number of bytes, or the same error.
pub open spec fn agrees<T>(r: Result<(T, usize), NbtError>, s: Result<(T, nat), NbtError>) -> bool {
    match (r, s) {
        (Ok((v1, k1)), Ok((v2, k2))) => v1 == v2 && k1 as nat == k2,
        (Err(e1), Err(e2)) => e1 == e2,
        _ => false,
    }
}

/// A tag byte.
pub open spec fn parse_tag(s: Seq<u8>) -> Result<(FieldType, nat), NbtError> {
    if s.len() < 1 {
        Err(NbtError::UnexpectedEof)
    } else {
        match tag_of(s[0]) {
            Some(t) => Ok((t, 1)),
            None => Err(NbtError::UnrecognizedTag(s[0])),
        }
    }
}

pub open spec fn parse_byte(s: Seq<u8>) -> Result<(i8, nat), NbtError> {
    if s.len() < 1 {
        Err(NbtError::UnexpectedEof)
    } else {
        Ok((s[0] as i8, 1))
    }
}

/// A Short: fixed width in every variant.
pub open spec fn parse_short(var: Variant, s: Seq<u8>) -> Result<(i16, nat), NbtError> {
    if s.len() < 2 {
        Err(NbtError::UnexpectedEof)
    } else {
        Ok((u16_of(is_big(var), s) as i16, 2))
    }
}

/// An Int: a zigzag varint in the network variant, fixed width otherwise.
pub open spec fn parse_int(var: Variant, s: Seq<u8>) -> Result<(i32, nat), NbtError> {
    if var == Variant::NetworkEndian {
        match parse_varint(s, 5) {
            VarintRead::Done { value, len } => Ok(
                (zigzag_decode(value % 0x1_0000_0000) as i32, len),
            ),
            VarintRead::Eof => Err(NbtError::UnexpectedEof),
            VarintRead::TooLong => Err(NbtError::VarintTooLong),
        }
    } else if s.len() < 4 {
        Err(NbtError::UnexpectedEof)
    } else {
        Ok((u32_of(is_big(var), s) as i32, 4))
    }
}

/// A Long: a zigzag varint in the network variant, fixed width otherwise.
pub open spec fn parse_long(var: Variant, s: Seq<u8>) -> Result<(i64, nat), NbtError> {
    if var == Variant::NetworkEndian {
        match parse_varint(s, 10) {
            VarintRead::Done { value, len } => Ok(
                (zigzag_decode(value % 0x1_0000_0000_0000_0000) as i64, len),
            ),
            VarintRead::Eof => Err(NbtError::UnexpectedEof),
            VarintRead::TooLong => Err(NbtError::VarintTooLong),
        }
    } else if s.len() < 8 {
        Err(NbtError::UnexpectedEof)
    } else {
        Ok((u64_of(is_big(var), s) as i64, 8))
    }
}

/// The bit pattern of a Float: fixed width in every variant.
pub open spec fn parse_float(var: Variant, s: Seq<u8>) -> Result<(u32, nat), NbtError> {
    if s.len() < 4 {
        Err(NbtError::UnexpectedEof)
    } else {
        Ok((u32_of(is_big(var), s), 4))
    }
}

/// The bit pattern of a Double: fixed width in every variant.
pub open spec fn parse_double(var: Variant, s: Seq<u8>) -> Result<(u64, nat), NbtError> {
    if s.len() < 8 {
        Err(NbtError::UnexpectedEof)
    } else {
        Ok((u64_of(is_big(var), s), 8))
    }
}

/// The byte length of a string: an unsigned 16-bit field, or an unsigned 32-bit
/// varint in the network variant.
pub open spec fn parse_str_len(var: Variant, s: Seq<u8>) -> Result<(u32, nat), NbtError> {
    if var == Variant::NetworkEndian {
        match parse_varint(s, 5) {
            VarintRead::Done { value, len } => Ok(((value % 0x1_0000_0000) as u32, len)),
            VarintRead::Eof => Err(NbtError::UnexpectedEof),
            VarintRead::TooLong => Err(NbtError::VarintTooLong),
        }
    } else if s.len() < 2 {
        Err(NbtError::UnexpectedEof)
    } else {
        Ok((u16_of(is_big(var), s) as u32, 2))
    }
}

/// The length of a sequence: written as an Int, read back as unsigned.
pub open spec fn parse_seq_len(var: Variant, s: Seq<u8>) -> Result<(u32, nat), NbtError> {
    match parse_int(var, s) {
        Ok((n, k)) => Ok((n as u32, k)),
        Err(e) => Err(e),
    }
}

pub open spec fn short_bytes(var: Variant, x: i16) -> Seq<u8> {
    u16_bytes(is_big(var), x as u16)
}

pub open spec fn int_bytes(var: Variant, x: i32) -> Seq<u8> {
    if var == Variant::NetworkEndian {
        varint_bytes(zigzag_encode(x as int))
    } else {
        u32_bytes(is_big(var), x as u32)
    }
}

pub open spec fn long_bytes(var: Variant, x: i64) -> Seq<u8> {
    if var == Variant::NetworkEndian {
        varint_bytes(zigzag_encode(x as int))
    } else {
        u64_bytes(is_big(var), x as u64)
    }
}

pub open spec fn float_bytes(var: Variant, bits: u32) -> Seq<u8> {
    u32_bytes(is_big(var), bits)
}

pub open spec fn double_bytes(var: Variant, bits: u64) -> Seq<u8> {
    u64_bytes(is_big(var), bits)
}

/// The largest string byte length that a variant's length prefix can hold.
pub open spec fn max_str_len(var: Variant) -> nat {
    if var == Variant::NetworkEndian {
        0xffff_ffff
    } else {
        0xffff
    }
}

pub open spec fn str_len_bytes(var: Variant, n: nat) -> Seq<u8> {
    if var == Variant::NetworkEndian {
        varint_bytes(n)
    } else {
        u16_bytes(is_big(var), n as u16)
    }
}

pub open spec fn seq_len_bytes(var: Variant, n: nat) -> Seq<u8> {
    int_bytes(var, n as i32)
}

pub fn read_tag(input: &[u8], pos: usize) -> (r: Result<(FieldType, usize), NbtError>)
    requires
        pos <= input@.len(),
    ensures
        agrees(r, parse_tag(input@.skip(pos as int))),
{
    if pos >= input.len() {
        return Err(NbtError::UnexpectedEof);
    }
    match FieldType::from_byte(input[pos]) {
        Some(t) => Ok((t, 1)),
        None => Err(NbtError::UnrecognizedTag(input[pos])),
    }
}

pub fn read_byte(input: &[u8], pos: usize) -> (r: Result<(i8, usize), NbtError>)
    requires
        pos <= input@.len(),
    ensures
        agrees(r, parse_byte(input@.skip(pos as int))),
{
    if pos >= input.len() {
        return Err(NbtError::UnexpectedEof);
    }
    Ok((input[pos] as i8, 1))
}

fn read_u16(input: &[u8], pos: usize, big: bool) -> (r: u16)
    requires
        pos + 2 <= input@.len() <= usize::MAX,
    ensures
        r == u16_of(big, input@.skip(pos as int)),
{
    if big {
        ((input[pos] as u16) << 8u16) | (input[pos + 1] as u16)
    } else {
        ((input[pos + 1] as u16) << 8u16) | (input[pos] as u16)
    }
}

fn read_u32(input: &[u8], pos: usize, big: bool) -> (r: u32)
    requires
        pos + 4 <= input@.len() <= usize::MAX,
    ensures
        r == u32_of(big, input@.skip(pos as int)),
{
    let b0 = input[pos] as u32;
    let b1 = input[pos + 1] as u32;
    let b2 = input[pos + 2] as u32;
    let b3 = input[pos + 3] as u32;
    if big {
        (b0 << 24u32) | (b1 << 16u32) | (b2 << 8u32) | b3
    } else {
        (b3 << 24u32) | (b2 << 16u32) | (b1 << 8u32) | b0
    }
}

fn read_u64(input: &[u8], pos: usize, big: bool) -> (r: u64)
    requires
        pos + 8 <= input@.len() <= usize::MAX,
    ensures
        r == u64_of(big, input@.skip(pos as int)),
{
    let b0 = input[pos] as u64;
    let b1 = input[pos + 1] as u64;
    let b2 = input[pos + 2] as u64;
    let b3 = input[pos + 3] as u64;
    let b4 = input[pos + 4] as u64;
    let b5 = input[pos + 5] as u64;
    let b6 = input[pos + 6] as u64;
    let b7 = input[pos + 7] as u64;
    if big {
        (b0 << 56u64) | (b1 << 48u64) | (b2 << 40u64) | (b3 << 32u64) | (b4 << 24u64) | (b5
            << 16u64) | (b6 << 8u64) | b7
    } else {
        (b7 << 56u64) | (b6 << 48u64) | (b5 << 40u64) | (b4 << 32u64) | (b3 << 24u64) | (b2
            << 16u64) | (b1 << 8u64) | b0
    }
}

fn big(var: Variant) -> (r: bool)
    ensures
        r == is_big(var),
{
    match var {
        Variant::BigEndian => true,
        _ => false,
    }
}

fn network(var: Variant) -> (r: bool)
    ensures
        r == (var == Variant::NetworkEndian),
{
    match var {
        Variant::NetworkEndian => true,
        _ => false,
    }
}

pub fn read_short(var: Variant, input: &[u8], pos: usize) -> (r: Result<(i16, usize), NbtError>)
    requires
        pos <= input@.len(),
    ensures
        agrees(r, parse_short(var, input@.skip(pos as int))),
{
    if input.len() - pos < 2 {
        return Err(NbtError::UnexpectedEof);
    }
    Ok((read_u16(input, pos, big(var)) as i16, 2))
}

pub fn read_int(var: Variant, input: &[u8], pos: usize) -> (r: Result<(i32, usize), NbtError>)
    requires
        pos <= input@.len(),
    ensures
        agrees(r, parse_int(var, input@.skip(pos as int))),
{
    if network(var) {
        proof {
            lemma_varint_len_le(input@.skip(pos as int), 5);
        }
        return read_var_i32(input, pos);
    }
    if input.len() - pos < 4 {
        return Err(NbtError::UnexpectedEof);
    }
    Ok((read_u32(input, pos, big(var)) as i32, 4))
}

pub fn read_long(var: Variant, input: &[u8], pos: usize) -> (r: Result<(i64, usize), NbtError>)
    requires
        pos <= input@.len(),
    ensures
        agrees(r, parse_long(var, input@.skip(pos as int))),
{
    if network(var) {
        proof {
            lemma_varint_len_le(input@.skip(pos as int), 10);
        }
        return read_var_i64(input, pos);
    }
    if input.len() - pos < 8 {
        return Err(NbtError::UnexpectedEof);
    }
    Ok((read_u64(input, pos, big(var)) as i64, 8))
}

pub fn read_float(var: Variant, input: &[u8], pos: usize) -> (r: Result<(u32, usize), NbtError>)
    requires
        pos <= input@.len(),
    ensures
        agrees(r, parse_float(var, input@.skip(pos as int))),
{
    if input.len() - pos < 4 {
        return Err(NbtError::UnexpectedEof);
    }
    Ok((read_u32(input, pos, big(var)), 4))
}

pub fn read_double(var: Variant, input: &[u8], pos: usize) -> (r: Result<(u64, usize), NbtError>)
    requires
        pos <= input@.len(),
    ensures
        agrees(r, parse_double(var, input@.skip(pos as int))),
{
    if input.len() - pos < 8 {
        return Err(NbtError::UnexpectedEof);
    }
    Ok((read_u64(input, pos, big(var)), 8))
}

pub fn read_str_len(var: Variant, input: &[u8], pos: usize) -> (r: Result<(u32, usize), NbtError>)
    requires
        pos <= input@.len(),
    ensures
        agrees(r, parse_str_len(var, input@.skip(pos as int))),
{
    if network(var) {
        proof {
            lemma_varint_len_le(input@.skip(pos as int), 5);
        }
        return read_var_u32(input, pos);
    }
    if input.len() - pos < 2 {
        return Err(NbtError::UnexpectedEof);
    }
    Ok((read_u16(input, pos, big(var)) as u32, 2))
}

pub fn read_seq_len(var: Variant, input: &[u8], pos: usize) -> (r: Result<(u32, usize), NbtError>)
    requires
        pos <= input@.len(),
    ensures
        agrees(r, parse_seq_len(var, input@.skip(pos as int))),
{
    match read_int(var, input, pos) {
        Ok((n, k)) => Ok((n as u32, k)),
        Err(e) => Err(e),
    }
}

fn push_u16(out: &mut Vec<u8>, n: u16, big: bool)
    ensures
        final(out)@ == old(out)@ + u16_bytes(big, n),
{
    let hi = (n >> 8u16) as u8;
    let lo = n as u8;
    if big {
        out.push(hi);
        out.push(lo);
    } else {
        out.push(lo);
        out.push(hi);
    }
    assert(final(out)@ =~= old(out)@ + u16_bytes(big, n));
}

fn push_u32(out: &mut Vec<u8>, n: u32, big: bool)
    ensures
        final(out)@ == old(out)@ + u32_bytes(big, n),
{
    let b0 = (n >> 24u32) as u8;
    let b1 = (n >> 16u32) as u8;
    let b2 = (n >> 8u32) as u8;
    let b3 = n as u8;
    if big {
        out.push(b0);
        out.push(b1);
        out.push(b2);
        out.push(b3);
    } else {
        out.push(b3);
        out.push(b2);
        out.push(b1);
        out.push(b0);
    }
    assert(final(out)@ =~= old(out)@ + u32_bytes(big, n));
}

fn push_u64(out: &mut Vec<u8>, n: u64, big: bool)
    ensures
        final(out)@ == old(out)@ + u64_bytes(big, n),
{
    let b0 = (n >> 56u64) as u8;
    let b1 = (n >> 48u64) as u8;
    let b2 = (n >> 40u64) as u8;
    let b3 = (n >> 32u64) as u8;
    let b4 = (n >> 24u64) as u8;
    let b5 = (n >> 16u64) as u8;
    let b6 = (n >> 8u64) as u8;
    let b7 = n as u8;
    if big {
        out.push(b0);
        out.push(b1);
        out.push(b2);
        out.push(b3);
        out.push(b4);
        out.push(b5);
        out.push(b6);
        out.push(b7);
    } else {
        out.push(b7);
        out.push(b6);
        out.push(b5);
        out.push(b4);
        out.push(b3);
        out.push(b2);
        out.push(b1);
        out.push(b0);
    }
    assert(final(out)@ =~= old(out)@ + u64_bytes(big, n));
}

pub fn push_short(var: Variant, out: &mut Vec<u8>, x: i16)
    ensures
        final(out)@ == old(out)@ + short_bytes(var, x),
{
    push_u16(out, x as u16, big(var));
}

pub fn push_int(var: Variant, out: &mut Vec<u8>, x: i32)
    ensures
        final(out)@ == old(out)@ + int_bytes(var, x),
{
    if network(var) {
        push_var_i32(out, x);
    } else {
        push_u32(out, x as u32, big(var));
    }
}

pub fn push_long(var: Variant, out: &mut Vec<u8>, x: i64)
    ensures
        final(out)@ == old(out)@ + long_bytes(var, x),
{
    if network(var) {
        push_var_i64(out, x);
    } else {
        push_u64(out, x as u64, big(var));
    }
}

pub fn push_float(var: Variant, out: &mut Vec<u8>, bits: u32)
    ensures
        final(out)@ == old(out)@ + float_bytes(var, bits),
{
    push_u32(out, bits, big(var));
}

pub fn push_double(var: Variant, out: &mut Vec<u8>, bits: u64)
    ensures
        final(out)@ == old(out)@ + double_bytes(var, bits),
{
    push_u64(out, bits, big(var));
}

pub fn push_str_len(var: Variant, out: &mut Vec<u8>, n: usize)
    requires
        n <= max_str_len(var),
    ensures
        final(out)@ == old(out)@ + str_len_bytes(var, n as nat),
{
    if network(var) {
        push_var_u32(out, n as u32);
    } else {
        push_u16(out, n as u16, big(var));
    }
}

pub fn push_seq_len(var: Variant, out: &mut Vec<u8>, n: usize)
    requires
        n <= i32::MAX,
    ensures
        final(out)@ == old(out)@ + seq_len_bytes(var, n as nat),
{
    push_int(var, out, n as i32);
}

/// Every primitive reader consumes at least one byte of what it reads from, and
/// no more than there is.
pub proof fn lemma_primitives_within(var: Variant, s: Seq<u8>)
    ensures
        parse_int(var, s) is Ok ==> 1 <= parse_int(var, s)->Ok_0.1 <= s.len(),
        parse_long(var, s) is Ok ==> 1 <= parse_long(var, s)->Ok_0.1 <= s.len(),
        parse_str_len(var, s) is Ok ==> 1 <= parse_str_len(var, s)->Ok_0.1 <= s.len(),
        parse_seq_len(var, s) is Ok ==> 1 <= parse_seq_len(var, s)->Ok_0.1 <= s.len(),
{
    crate::varint::lemma_varint_within(s, 5);
    crate::varint::lemma_varint_within(s, 10);
}

pub proof fn lemma_u16_round_trip(big: bool, n: u16, rest: Seq<u8>)
    ensures
        u16_of(big, u16_bytes(big, n) + rest) == n,
        u16_bytes(big, n).len() == 2,
{
    let s = u16_bytes(big, n) + rest;
    let h = (n >> 8u16) as u8;
    let l = n as u8;
    assert(((h as u16) << 8u16) | (l as u16) == n) by (bit_vector)
        requires
            h == (n >> 8u16) as u8,
            l == n as u8,
    ;
    if big {
        assert(s[0] == h && s[1] == l);
    } else {
        assert(s[0] == l && s[1] == h);
    }
}

pub proof fn lemma_u32_round_trip(big: bool, n: u32, rest: Seq<u8>)
    ensures
        u32_of(big, u32_bytes(big, n) + rest) == n,
        u32_bytes(big, n).len() == 4,
{
    let s = u32_bytes(big, n) + rest;
    let b0 = (n >> 24u32) as u8;
    let b1 = (n >> 16u32) as u8;
    let b2 = (n >> 8u32) as u8;
    let b3 = n as u8;
    assert(((b0 as u32) << 24u32) | ((b1 as u32) << 16u32) | ((b2 as u32) << 8u32) | (b3 as u32)
        == n) by (bit_vector)
        requires
            b0 == (n >> 24u32) as u8,
            b1 == (n >> 16u32) as u8,
            b2 == (n >> 8u32) as u8,
            b3 == n as u8,
    ;
    if big {
        assert(s[0] == b0 && s[1] == b1 && s[2] == b2 && s[3] == b3);
    } else {
        assert(s[0] == b3 && s[1] == b2 && s[2] == b1 && s[3] == b0);
    }
}

pub proof fn lemma_u64_round_trip(big: bool, n: u64, rest: Seq<u8>)
    ensures
        u64_of(big, u64_bytes(big, n) + rest) == n,
        u64_bytes(big, n).len() == 8,
{
    let s = u64_bytes(big, n) + rest;
    let b0 = (n >> 56u64) as u8;
    let b1 = (n >> 48u64) as u8;
    let b2 = (n >> 40u64) as u8;
    let b3 = (n >> 32u64) as u8;
    let b4 = (n >> 24u64) as u8;
    let b5 = (n >> 16u64) as u8;
    let b6 = (n >> 8u64) as u8;
    let b7 = n as u8;
    assert(((b0 as u64) << 56u64) | ((b1 as u64) << 48u64) | ((b2 as u64) << 40u64) | ((
    b3 as u64) << 32u64) | ((b4 as u64) << 24u64) | ((b5 as u64) << 16u64) | ((b6 as u64)
        << 8u64) | (b7 as u64) == n) by (bit_vector)
        requires
            b0 == (n >> 56u64) as u8,
            b1 == (n >> 48u64) as u8,
            b2 == (n >> 40u64) as u8,
            b3 == (n >> 32u64) as u8,
            b4 == (n >> 24u64) as u8,
            b5 == (n >> 16u64) as u8,
            b6 == (n >> 8u64) as u8,
            b7 == n as u8,
    ;
    if big {
        assert(s[0] == b0 && s[1] == b1 && s[2] == b2 && s[3] == b3 && s[4] == b4 && s[5] == b5
            && s[6] == b6 && s[7] == b7);
    } else {
        assert(s[0] == b7 && s[1] == b6 && s[2] == b5 && s[3] == b4 && s[4] == b3 && s[5] == b2
            && s[6] == b1 && s[7] == b0);
    }
}

pub proof fn lemma_short_round_trip(var: Variant, x: i16, rest: Seq<u8>)
    ensures
        parse_short(var, short_bytes(var, x) + rest) == Ok::<(i16, nat), NbtError>(
            (x, short_bytes(var, x).len()),
        ),
{
    lemma_u16_round_trip(is_big(var), x as u16, rest);
    assert((x as u16) as i16 == x) by (bit_vector);
}

pub proof fn lemma_int_round_trip(var: Variant, x: i32, rest: Seq<u8>)
    ensures
        parse_int(var, int_bytes(var, x) + rest) == Ok::<(i32, nat), NbtError>(
            (x, int_bytes(var, x).len()),
        ),
{
    if var == Variant::NetworkEndian {
        lemma_zigzag_round_trip(x as int, 0x8000_0000);
        let z = zigzag_encode(x as int);
        lemma_varint_len_32(z);
        lemma_varint_round_trip(z, rest, 5);
        assert(z % 0x1_0000_0000 == z);
    } else {
        lemma_u32_round_trip(is_big(var), x as u32, rest);
        assert((x as u32) as i32 == x) by (bit_vector);
    }
}

pub proof fn lemma_long_round_trip(var: Variant, x: i64, rest: Seq<u8>)
    ensures
        parse_long(var, long_bytes(var, x) + rest) == Ok::<(i64, nat), NbtError>(
            (x, long_bytes(var, x).len()),
        ),
{
    if var == Variant::NetworkEndian {
        lemma_zigzag_round_trip(x as int, 0x8000_0000_0000_0000);
        let z = zigzag_encode(x as int);
        lemma_varint_len_64(z);
        lemma_varint_round_trip(z, rest, 10);
        assert(z % 0x1_0000_0000_0000_0000 == z);
    } else {
        lemma_u64_round_trip(is_big(var), x as u64, rest);
        assert((x as u64) as i64 == x) by (bit_vector);
    }
}

pub proof fn lemma_float_round_trip(var: Variant, bits: u32, rest: Seq<u8>)
    ensures
        parse_float(var, float_bytes(var, bits) + rest) == Ok::<(u32, nat), NbtError>(
            (bits, float_bytes(var, bits).len()),
        ),
{
    lemma_u32_round_trip(is_big(var), bits, rest);
}

pub proof fn lemma_double_round_trip(var: Variant, bits: u64, rest: Seq<u8>)
    ensures
        parse_double(var, double_bytes(var, bits) + rest) == Ok::<(u64, nat), NbtError>(
            (bits, double_bytes(var, bits).len()),
        ),
{
    lemma_u64_round_trip(is_big(var), bits, rest);
}

pub proof fn lemma_str_len_round_trip(var: Variant, n: nat, rest: Seq<u8>)
    requires
        n <= max_str_len(var),
    ensures
        parse_str_len(var, str_len_bytes(var, n) + rest) == Ok::<(u32, nat), NbtError>(
            (n as u32, str_len_bytes(var, n).len()),
        ),
{
    if var == Variant::NetworkEndian {
        lemma_varint_len_32(n);
        lemma_varint_round_trip(n, rest, 5);
    } else {
        lemma_u16_round_trip(is_big(var), n as u16, rest);
    }
}

pub proof fn lemma_seq_len_round_trip(var: Variant, n: nat, rest: Seq<u8>)
    requires
        n <= i32::MAX,
    ensures
        parse_seq_len(var, seq_len_bytes(var, n) + rest) == Ok::<(u32, nat), NbtError>(
            (n as u32, seq_len_bytes(var, n).len()),
        ),
{
    lemma_int_round_trip(var, n as i32, rest);
}

pub proof fn lemma_tag_round_trip(t: FieldType, rest: Seq<u8>)
    ensures
        parse_tag(seq![t.spec_byte()] + rest) == Ok::<(FieldType, nat), NbtError>((t, 1)),
{
    assert((seq![t.spec_byte()] + rest)[0] == t.spec_byte());
}

pub proof fn lemma_byte_round_trip(x: i8, rest: Seq<u8>)
    ensures
        parse_byte(seq![x as u8] + rest) == Ok::<(i8, nat), NbtError>((x, 1)),
{
    assert((seq![x as u8] + rest)[0] == x as u8);
    assert((x as u8) as i8 == x) by (bit_vector);
}

} // verus!
