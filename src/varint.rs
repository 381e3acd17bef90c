//! Variable-length integers: seven bits per byte, lowest group first, with the
//! high bit set on every byte but the last. Signed values are zigzag-mapped
//! first. The coding itself is done by the `varint_rs` crate.

use crate::error::NbtError;
use varint_rs::{VarintReader, VarintWriter};
use vstd::prelude::*;

verus! {

/// What reading a variable-length integer of at most `max` bytes finds.
pub enum VarintRead {
    /// The integer, before truncation to its width, and its length in bytes.
    Done { value: nat, len: nat },
    /// The input ends before a byte with a clear high bit.
    Eof,
    /// `max` bytes all have their high bit set.
    TooLong,
}

/// Reads a variable-length integer of at most `max` bytes from the front of `s`.
pub open spec fn parse_varint(s: Seq<u8>, max: nat) -> VarintRead
    decreases max,
{
    if max == 0 {
        VarintRead::TooLong
    } else if s.len() == 0 {
        VarintRead::Eof
    } else if s[0] < 128 {
        VarintRead::Done { value: s[0] as nat, len: 1 }
    } else {
        match parse_varint(s.drop_first(), (max - 1) as nat) {
            VarintRead::Done { value, len } => VarintRead::Done {
                value: ((s[0] - 128) + 128 * value) as nat,
                len: len + 1,
            },
            other => other,
        }
    }
}

/// The shortest variable-length encoding of `n`.
pub open spec fn varint_bytes(n: nat) -> Seq<u8>
    decreases n,
{
    if n < 128 {
        seq![n as u8]
    } else {
        seq![(n % 128 + 128) as u8] + varint_bytes(n / 128)
    }
}

/// The zigzag mapping from unsigned to signed: 0, 1, 2, 3, ... to 0, -1, 1, -2, ...
pub open spec fn zigzag_decode(n: nat) -> int {
    if n % 2 == 0 {
        (n / 2) as int
    } else {
        -(n / 2) - 1
    }
}

/// The zigzag mapping from signed to unsigned.
pub open spec fn zigzag_encode(x: int) -> nat {
    if x >= 0 {
        (2 * x) as nat
    } else {
        (-2 * x - 1) as nat
    }
}

pub open spec fn pow128(k: nat) -> nat
    decreases k,
{
    if k == 0 {
        1
    } else {
        128 * pow128((k - 1) as nat)
    }
}

/// Relies on `VarintReader::read_u32_varint` of varint_rs over a byte slice: it
/// ORs the low seven bits of each byte, shifted by seven more each time, into a
/// `u32` until a byte with a clear high bit. Within five bytes every shift stays
/// below 32, and the bits shifted out are lost, which is the value modulo 2^32.
#[verifier::external_body]
fn read_u32_varint(b: &[u8]) -> (r: Option<u32>)
    requires
        parse_varint(b@, 5) is Done,
    ensures
        r == Some((parse_varint(b@, 5)->value % 0x1_0000_0000) as u32),
{
    let mut reader: &[u8] = b;
    reader.read_u32_varint().ok()
}

/// Relies on `VarintReader::read_i32_varint` of varint_rs: `read_u32_varint`,
/// then the zigzag mapping of `u32` to `i32`.
#[verifier::external_body]
fn read_i32_varint(b: &[u8]) -> (r: Option<i32>)
    requires
        parse_varint(b@, 5) is Done,
    ensures
        r == Some(zigzag_decode(parse_varint(b@, 5)->value % 0x1_0000_0000) as i32),
{
    let mut reader: &[u8] = b;
    reader.read_i32_varint().ok()
}

/// Relies on `VarintReader::read_i64_varint` of varint_rs: as for `u32`, with
/// ten bytes and 64 bits, then the zigzag mapping of `u64` to `i64`.
#[verifier::external_body]
fn read_i64_varint(b: &[u8]) -> (r: Option<i64>)
    requires
        parse_varint(b@, 10) is Done,
    ensures
        r == Some(
            zigzag_decode(parse_varint(b@, 10)->value % 0x1_0000_0000_0000_0000) as i64,
        ),
{
    let mut reader: &[u8] = b;
    reader.read_i64_varint().ok()
}

/// Relies on `VarintWriter::write_u32_varint` of varint_rs into a `Vec<u8>`: seven
/// bits per byte, lowest first, high bit set while more follow, one zero byte
/// for zero. Writing into a `Vec` does not fail.
#[verifier::external_body]
fn u32_varint(n: u32) -> (r: Vec<u8>)
    ensures
        r@ == varint_bytes(n as nat),
{
    let mut out: Vec<u8> = Vec::new();
    let _ = out.write_u32_varint(n);
    out
}

/// Relies on `VarintWriter::write_i32_varint` of varint_rs: the zigzag mapping of
/// `i32` to `u32`, then `write_u32_varint`.
#[verifier::external_body]
fn i32_varint(n: i32) -> (r: Vec<u8>)
    ensures
        r@ == varint_bytes(zigzag_encode(n as int)),
{
    let mut out: Vec<u8> = Vec::new();
    let _ = out.write_i32_varint(n);
    out
}

/// Relies on `VarintWriter::write_i64_varint` of varint_rs: the zigzag mapping of
/// `i64` to `u64`, then `write_u64_varint`.
#[verifier::external_body]
fn i64_varint(n: i64) -> (r: Vec<u8>)
    ensures
        r@ == varint_bytes(zigzag_encode(n as int)),
{
    let mut out: Vec<u8> = Vec::new();
    let _ = out.write_i64_varint(n);
    out
}

/// Finds the length of the variable-length integer at `pos`, or why there is none.
fn scan_varint(input: &[u8], pos: usize, max: usize) -> (r: Result<usize, NbtError>)
    requires
        pos <= input@.len(),
    ensures
        match parse_varint(input@.skip(pos as int), max as nat) {
            VarintRead::Done { value, len } => r == Ok::<usize, NbtError>(len as usize)
                && len <= max,
            VarintRead::Eof => r == Err::<usize, NbtError>(NbtError::UnexpectedEof),
            VarintRead::TooLong => r == Err::<usize, NbtError>(NbtError::VarintTooLong),
        },
    decreases max,
{
    if max == 0 {
        return Err(NbtError::VarintTooLong);
    }
    if pos >= input.len() {
        return Err(NbtError::UnexpectedEof);
    }
    if input[pos] < 128 {
        return Ok(1);
    }
    assert(input@.skip(pos as int).drop_first() =~= input@.skip(pos + 1));
    match scan_varint(input, pos + 1, max - 1) {
        Ok(k) => Ok(k + 1),
        Err(e) => Err(e),
    }
}

/// Reads an unsigned 32-bit variable-length integer at `pos`: its value and length.
pub fn read_var_u32(input: &[u8], pos: usize) -> (r: Result<(u32, usize), NbtError>)
    requires
        pos <= input@.len(),
    ensures
        match parse_varint(input@.skip(pos as int), 5) {
            VarintRead::Done { value, len } => r == Ok::<(u32, usize), NbtError>(
                ((value % 0x1_0000_0000) as u32, len as usize),
            ),
            VarintRead::Eof => r == Err::<(u32, usize), NbtError>(NbtError::UnexpectedEof),
            VarintRead::TooLong => r == Err::<(u32, usize), NbtError>(NbtError::VarintTooLong),
        },
{
    match scan_varint(input, pos, 5) {
        Err(e) => Err(e),
        Ok(k) => {
            let rest = vstd::slice::slice_subrange(input, pos, input.len());
            match read_u32_varint(rest) {
                Some(v) => Ok((v, k)),
                None => Err(NbtError::UnexpectedEof),
            }
        },
    }
}

/// Reads a zigzag-mapped signed 32-bit variable-length integer at `pos`.
pub fn read_var_i32(input: &[u8], pos: usize) -> (r: Result<(i32, usize), NbtError>)
    requires
        pos <= input@.len(),
    ensures
        match parse_varint(input@.skip(pos as int), 5) {
            VarintRead::Done { value, len } => r == Ok::<(i32, usize), NbtError>(
                (zigzag_decode(value % 0x1_0000_0000) as i32, len as usize),
            ),
            VarintRead::Eof => r == Err::<(i32, usize), NbtError>(NbtError::UnexpectedEof),
            VarintRead::TooLong => r == Err::<(i32, usize), NbtError>(NbtError::VarintTooLong),
        },
{
    match scan_varint(input, pos, 5) {
        Err(e) => Err(e),
        Ok(k) => {
            let rest = vstd::slice::slice_subrange(input, pos, input.len());
            match read_i32_varint(rest) {
                Some(v) => Ok((v, k)),
                None => Err(NbtError::UnexpectedEof),
            }
        },
    }
}

/// Reads a zigzag-mapped signed 64-bit variable-length integer at `pos`.
pub fn read_var_i64(input: &[u8], pos: usize) -> (r: Result<(i64, usize), NbtError>)
    requires
        pos <= input@.len(),
    ensures
        match parse_varint(input@.skip(pos as int), 10) {
            VarintRead::Done { value, len } => r == Ok::<(i64, usize), NbtError>(
                (zigzag_decode(value % 0x1_0000_0000_0000_0000) as i64, len as usize),
            ),
            VarintRead::Eof => r == Err::<(i64, usize), NbtError>(NbtError::UnexpectedEof),
            VarintRead::TooLong => r == Err::<(i64, usize), NbtError>(NbtError::VarintTooLong),
        },
{
    match scan_varint(input, pos, 10) {
        Err(e) => Err(e),
        Ok(k) => {
            let rest = vstd::slice::slice_subrange(input, pos, input.len());
            match read_i64_varint(rest) {
                Some(v) => Ok((v, k)),
                None => Err(NbtError::UnexpectedEof),
            }
        },
    }
}

/// Appends the variable-length encoding of `n`.
pub fn push_var_u32(out: &mut Vec<u8>, n: u32)
    ensures
        final(out)@ == old(out)@ + varint_bytes(n as nat),
{
    let mut b = u32_varint(n);
    out.append(&mut b);
}

/// Appends the variable-length encoding of the zigzag mapping of `n`.
pub fn push_var_i32(out: &mut Vec<u8>, n: i32)
    ensures
        final(out)@ == old(out)@ + varint_bytes(zigzag_encode(n as int)),
{
    let mut b = i32_varint(n);
    out.append(&mut b);
}

/// Appends the variable-length encoding of the zigzag mapping of `n`.
pub fn push_var_i64(out: &mut Vec<u8>, n: i64)
    ensures
        final(out)@ == old(out)@ + varint_bytes(zigzag_encode(n as int)),
{
    let mut b = i64_varint(n);
    out.append(&mut b);
}

/// Reading back the encoding of `n` gives `n` and the encoding's length,
/// whatever follows it.
pub proof fn lemma_varint_round_trip(n: nat, rest: Seq<u8>, max: nat)
    requires
        varint_bytes(n).len() <= max,
    ensures
        parse_varint(varint_bytes(n) + rest, max) == (VarintRead::Done {
            value: n,
            len: varint_bytes(n).len(),
        }),
    decreases n,
{
    let s = varint_bytes(n) + rest;
    if n < 128 {
        assert(s[0] == n as u8);
    } else {
        lemma_varint_round_trip(n / 128, rest, (max - 1) as nat);
        assert(s.drop_first() =~= varint_bytes(n / 128) + rest);
        assert(s[0] == (n % 128 + 128) as u8);
    }
}

/// A variable-length integer read with a bound of `max` bytes is at most that long.
pub proof fn lemma_varint_len_le(s: Seq<u8>, max: nat)
    ensures
        parse_varint(s, max) is Done ==> parse_varint(s, max)->len <= max,
    decreases max,
{
    if max > 0 && s.len() > 0 && s[0] >= 128 {
        lemma_varint_len_le(s.drop_first(), (max - 1) as nat);
    }
}

/// A variable-length integer lies within the bytes it is read from.
pub proof fn lemma_varint_within(s: Seq<u8>, max: nat)
    ensures
        parse_varint(s, max) is Done ==> 1 <= parse_varint(s, max)->len <= s.len(),
    decreases max,
{
    if max > 0 && s.len() > 0 && s[0] >= 128 {
        lemma_varint_within(s.drop_first(), (max - 1) as nat);
    }
}

/// An integer below 128^k takes at most k bytes.
pub proof fn lemma_varint_len(n: nat, k: nat)
    requires
        k >= 1,
        n < pow128(k),
    ensures
        varint_bytes(n).len() <= k,
    decreases n,
{
    if n >= 128 {
        assert(k >= 2) by {
            if k == 1 {
                assert(pow128(1) == 128) by {
                    reveal_with_fuel(pow128, 2);
                }
            }
        }
        assert(n / 128 < pow128((k - 1) as nat)) by (nonlinear_arith)
            requires
                n < pow128(k),
                pow128(k) == 128 * pow128((k - 1) as nat),
        ;
        lemma_varint_len(n / 128, (k - 1) as nat);
    }
}

/// A 32-bit value takes at most five bytes.
pub proof fn lemma_varint_len_32(n: nat)
    requires
        n < 0x1_0000_0000,
    ensures
        varint_bytes(n).len() <= 5,
{
    assert(pow128(5) == 0x8_0000_0000) by {
        reveal_with_fuel(pow128, 6);
    }
    lemma_varint_len(n, 5);
}

/// A 64-bit value takes at most ten bytes.
pub proof fn lemma_varint_len_64(n: nat)
    requires
        n < 0x1_0000_0000_0000_0000,
    ensures
        varint_bytes(n).len() <= 10,
{
    assert(pow128(10) == 0x40_0000_0000_0000_0000) by {
        reveal_with_fuel(pow128, 11);
    }
    lemma_varint_len(n, 10);
}

/// The zigzag mapping of a value of `bits` bits fits in `bits` unsigned bits, and
/// maps back to the value.
pub proof fn lemma_zigzag_round_trip(x: int, m: int)
    requires
        m > 0,
        -m <= x < m,
    ensures
        zigzag_encode(x) < 2 * m,
        zigzag_decode(zigzag_encode(x)) == x,
{
}

} // verus!
