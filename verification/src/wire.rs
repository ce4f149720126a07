//! Byte-level building blocks of the wire format: big-endian encodings of the
//! fixed-width integers, the two's-complement correspondence between the
//! signed value types and their unsigned bit patterns, and the primitive
//! readers that every grammar rule is built from.

use vstd::prelude::*;

use crate::error::{loc_of, Error};

verus! {

// ---------------------------------------------------------------------------
// Big-endian byte strings of the unsigned fixed-width integers.
// ---------------------------------------------------------------------------

pub open spec fn enc_u16(x: u16) -> Seq<u8> {
    seq![((x >> 8) & 0xff) as u8, (x & 0xff) as u8]
}

pub open spec fn enc_u32(x: u32) -> Seq<u8> {
    seq![
        ((x >> 24) & 0xff) as u8,
        ((x >> 16) & 0xff) as u8,
        ((x >> 8) & 0xff) as u8,
        (x & 0xff) as u8,
    ]
}

pub open spec fn enc_u64(x: u64) -> Seq<u8> {
    seq![
        ((x >> 56) & 0xff) as u8,
        ((x >> 48) & 0xff) as u8,
        ((x >> 40) & 0xff) as u8,
        ((x >> 32) & 0xff) as u8,
        ((x >> 24) & 0xff) as u8,
        ((x >> 16) & 0xff) as u8,
        ((x >> 8) & 0xff) as u8,
        (x & 0xff) as u8,
    ]
}

pub open spec fn be16(b0: u8, b1: u8) -> u16 {
    ((b0 as u16) << 8) | (b1 as u16)
}

pub open spec fn be32(b0: u8, b1: u8, b2: u8, b3: u8) -> u32 {
    ((b0 as u32) << 24) | ((b1 as u32) << 16) | ((b2 as u32) << 8) | (b3 as u32)
}

pub open spec fn be64(b0: u8, b1: u8, b2: u8, b3: u8, b4: u8, b5: u8, b6: u8, b7: u8) -> u64 {
    ((b0 as u64) << 56) | ((b1 as u64) << 48) | ((b2 as u64) << 40) | ((b3 as u64) << 32) | ((b4
        as u64) << 24) | ((b5 as u64) << 16) | ((b6 as u64) << 8) | (b7 as u64)
}

/// Reading back the two bytes of a big-endian `u16` restores it.
pub proof fn lemma_be16_enc(x: u16)
    ensures
        be16(enc_u16(x)[0], enc_u16(x)[1]) == x,
{
    let b0 = ((x >> 8) & 0xff) as u8;
    let b1 = (x & 0xff) as u8;
    assert((((b0 as u16) << 8) | (b1 as u16)) == x) by (bit_vector)
        requires
            b0 == ((x >> 8) & 0xff) as u8,
            b1 == (x & 0xff) as u8,
    ;
}

/// Reading back the four bytes of a big-endian `u32` restores it.
pub proof fn lemma_be32_enc(x: u32)
    ensures
        be32(enc_u32(x)[0], enc_u32(x)[1], enc_u32(x)[2], enc_u32(x)[3]) == x,
{
    let b0 = ((x >> 24) & 0xff) as u8;
    let b1 = ((x >> 16) & 0xff) as u8;
    let b2 = ((x >> 8) & 0xff) as u8;
    let b3 = (x & 0xff) as u8;
    assert((((b0 as u32) << 24) | ((b1 as u32) << 16) | ((b2 as u32) << 8) | (b3 as u32))
        == x) by (bit_vector)
        requires
            b0 == ((x >> 24) & 0xff) as u8,
            b1 == ((x >> 16) & 0xff) as u8,
            b2 == ((x >> 8) & 0xff) as u8,
            b3 == (x & 0xff) as u8,
    ;
}

/// Reading back the eight bytes of a big-endian `u64` restores it.
pub proof fn lemma_be64_enc(x: u64)
    ensures
        be64(
            enc_u64(x)[0],
            enc_u64(x)[1],
            enc_u64(x)[2],
            enc_u64(x)[3],
            enc_u64(x)[4],
            enc_u64(x)[5],
            enc_u64(x)[6],
            enc_u64(x)[7],
        ) == x,
{
    let b0 = ((x >> 56) & 0xff) as u8;
    let b1 = ((x >> 48) & 0xff) as u8;
    let b2 = ((x >> 40) & 0xff) as u8;
    let b3 = ((x >> 32) & 0xff) as u8;
    let b4 = ((x >> 24) & 0xff) as u8;
    let b5 = ((x >> 16) & 0xff) as u8;
    let b6 = ((x >> 8) & 0xff) as u8;
    let b7 = (x & 0xff) as u8;
    assert((((b0 as u64) << 56) | ((b1 as u64) << 48) | ((b2 as u64) << 40) | ((b3 as u64) << 32)
        | ((b4 as u64) << 24) | ((b5 as u64) << 16) | ((b6 as u64) << 8) | (b7 as u64))
        == x) by (bit_vector)
        requires
            b0 == ((x >> 56) & 0xff) as u8,
            b1 == ((x >> 48) & 0xff) as u8,
            b2 == ((x >> 40) & 0xff) as u8,
            b3 == ((x >> 32) & 0xff) as u8,
            b4 == ((x >> 24) & 0xff) as u8,
            b5 == ((x >> 16) & 0xff) as u8,
            b6 == ((x >> 8) & 0xff) as u8,
            b7 == (x & 0xff) as u8,
    ;
}

// ---------------------------------------------------------------------------
// Two's-complement correspondence between signed values and bit patterns.
// ---------------------------------------------------------------------------

pub open spec fn u8_of_i8(x: i8) -> u8 {
    (((x as int) + 0x100) % 0x100) as u8
}

pub open spec fn i8_of_u8(x: u8) -> i8 {
    if x < 0x80 {
        x as i8
    } else {
        ((x as int) - 0x100) as i8
    }
}

pub open spec fn u16_of_i16(x: i16) -> u16 {
    (((x as int) + 0x1_0000) % 0x1_0000) as u16
}

pub open spec fn i16_of_u16(x: u16) -> i16 {
    if x < 0x8000 {
        x as i16
    } else {
        ((x as int) - 0x1_0000) as i16
    }
}

pub open spec fn u32_of_i32(x: i32) -> u32 {
    (((x as int) + 0x1_0000_0000) % 0x1_0000_0000) as u32
}

pub open spec fn i32_of_u32(x: u32) -> i32 {
    if x < 0x8000_0000 {
        x as i32
    } else {
        ((x as int) - 0x1_0000_0000) as i32
    }
}

pub open spec fn u64_of_i64(x: i64) -> u64 {
    (((x as int) + 0x1_0000_0000_0000_0000) % 0x1_0000_0000_0000_0000) as u64
}

pub open spec fn i64_of_u64(x: u64) -> i64 {
    if x < 0x8000_0000_0000_0000 {
        x as i64
    } else {
        ((x as int) - 0x1_0000_0000_0000_0000) as i64
    }
}

/// The signed-to-unsigned maps are inverted by their unsigned-to-signed mates.
pub proof fn lemma_signed_round(x8: i8, x16: i16, x32: i32, x64: i64)
    ensures
        i8_of_u8(u8_of_i8(x8)) == x8,
        i16_of_u16(u16_of_i16(x16)) == x16,
        i32_of_u32(u32_of_i32(x32)) == x32,
        i64_of_u64(u64_of_i64(x64)) == x64,
{
}

// ---------------------------------------------------------------------------
// Primitive readers over a byte string and a cursor position. Each returns
// the value read and the position after it, or nothing when the input ends
// before the value does.
// ---------------------------------------------------------------------------

pub open spec fn r_u8(b: Seq<u8>, p: int) -> Option<(u8, int)> {
    if 0 <= p && p + 1 <= b.len() {
        Some((b[p], p + 1))
    } else {
        None
    }
}

pub open spec fn r_u16(b: Seq<u8>, p: int) -> Option<(u16, int)> {
    if 0 <= p && p + 2 <= b.len() {
        Some((be16(b[p], b[p + 1]), p + 2))
    } else {
        None
    }
}

pub open spec fn r_u32(b: Seq<u8>, p: int) -> Option<(u32, int)> {
    if 0 <= p && p + 4 <= b.len() {
        Some((be32(b[p], b[p + 1], b[p + 2], b[p + 3]), p + 4))
    } else {
        None
    }
}

pub open spec fn r_u64(b: Seq<u8>, p: int) -> Option<(u64, int)> {
    if 0 <= p && p + 8 <= b.len() {
        Some((
            be64(b[p], b[p + 1], b[p + 2], b[p + 3], b[p + 4], b[p + 5], b[p + 6], b[p + 7]),
            p + 8,
        ))
    } else {
        None
    }
}

pub open spec fn r_i8(b: Seq<u8>, p: int) -> Option<(i8, int)> {
    match r_u8(b, p) {
        Some((x, q)) => Some((i8_of_u8(x), q)),
        None => None,
    }
}

pub open spec fn r_i16(b: Seq<u8>, p: int) -> Option<(i16, int)> {
    match r_u16(b, p) {
        Some((x, q)) => Some((i16_of_u16(x), q)),
        None => None,
    }
}

pub open spec fn r_i32(b: Seq<u8>, p: int) -> Option<(i32, int)> {
    match r_u32(b, p) {
        Some((x, q)) => Some((i32_of_u32(x), q)),
        None => None,
    }
}

pub open spec fn r_i64(b: Seq<u8>, p: int) -> Option<(i64, int)> {
    match r_u64(b, p) {
        Some((x, q)) => Some((i64_of_u64(x), q)),
        None => None,
    }
}

// ---------------------------------------------------------------------------
// Executable writers, each appending the spec-level byte string.
// ---------------------------------------------------------------------------

pub(crate) fn push_u16(out: &mut Vec<u8>, x: u16)
    ensures
        final(out)@ == old(out)@ + enc_u16(x),
{
    proof {
        assert((x >> 8) & 0xff < 0x100 && x & 0xff < 0x100) by (bit_vector);
    }
    out.push(((x >> 8) & 0xff) as u8);
    out.push((x & 0xff) as u8);
    assert(out@ =~= old(out)@ + enc_u16(x));
}

pub(crate) fn push_u32(out: &mut Vec<u8>, x: u32)
    ensures
        final(out)@ == old(out)@ + enc_u32(x),
{
    proof {
        assert((x >> 24) & 0xff < 0x100 && (x >> 16) & 0xff < 0x100 && (x >> 8) & 0xff < 0x100 && x
            & 0xff < 0x100) by (bit_vector);
    }
    out.push(((x >> 24) & 0xff) as u8);
    out.push(((x >> 16) & 0xff) as u8);
    out.push(((x >> 8) & 0xff) as u8);
    out.push((x & 0xff) as u8);
    assert(out@ =~= old(out)@ + enc_u32(x));
}

pub(crate) fn push_u64(out: &mut Vec<u8>, x: u64)
    ensures
        final(out)@ == old(out)@ + enc_u64(x),
{
    proof {
        assert((x >> 56) & 0xff < 0x100 && (x >> 48) & 0xff < 0x100 && (x >> 40) & 0xff < 0x100 && (
        x >> 32) & 0xff < 0x100 && (x >> 24) & 0xff < 0x100 && (x >> 16) & 0xff < 0x100 && (x >> 8)
            & 0xff < 0x100 && x & 0xff < 0x100) by (bit_vector);
    }
    out.push(((x >> 56) & 0xff) as u8);
    out.push(((x >> 48) & 0xff) as u8);
    out.push(((x >> 40) & 0xff) as u8);
    out.push(((x >> 32) & 0xff) as u8);
    out.push(((x >> 24) & 0xff) as u8);
    out.push(((x >> 16) & 0xff) as u8);
    out.push(((x >> 8) & 0xff) as u8);
    out.push((x & 0xff) as u8);
    assert(out@ =~= old(out)@ + enc_u64(x));
}

// ---------------------------------------------------------------------------
// Executable sign conversions, matching the spec-level maps exactly.
// ---------------------------------------------------------------------------

pub(crate) fn u8_from_i8(x: i8) -> (r: u8)
    ensures
        r == u8_of_i8(x),
{
    if x >= 0 {
        x as u8
    } else {
        ((x as i16) + 0x100) as u8
    }
}

pub(crate) fn i8_from_u8(x: u8) -> (r: i8)
    ensures
        r == i8_of_u8(x),
{
    if x < 0x80 {
        x as i8
    } else {
        ((x as i16) - 0x100) as i8
    }
}

pub(crate) fn u16_from_i16(x: i16) -> (r: u16)
    ensures
        r == u16_of_i16(x),
{
    if x >= 0 {
        x as u16
    } else {
        ((x as i32) + 0x1_0000) as u16
    }
}

pub(crate) fn i16_from_u16(x: u16) -> (r: i16)
    ensures
        r == i16_of_u16(x),
{
    if x < 0x8000 {
        x as i16
    } else {
        ((x as i32) - 0x1_0000) as i16
    }
}

pub(crate) fn u32_from_i32(x: i32) -> (r: u32)
    ensures
        r == u32_of_i32(x),
{
    if x >= 0 {
        x as u32
    } else {
        ((x as i64) + 0x1_0000_0000) as u32
    }
}

pub(crate) fn i32_from_u32(x: u32) -> (r: i32)
    ensures
        r == i32_of_u32(x),
{
    if x < 0x8000_0000 {
        x as i32
    } else {
        ((x as i64) - 0x1_0000_0000) as i32
    }
}

pub(crate) fn u64_from_i64(x: i64) -> (r: u64)
    ensures
        r == u64_of_i64(x),
{
    if x >= 0 {
        x as u64
    } else {
        ((x as i128) + 0x1_0000_0000_0000_0000) as u64
    }
}

pub(crate) fn i64_from_u64(x: u64) -> (r: i64)
    ensures
        r == i64_of_u64(x),
{
    if x < 0x8000_0000_0000_0000 {
        x as i64
    } else {
        ((x as i128) - 0x1_0000_0000_0000_0000) as i64
    }
}

// ---------------------------------------------------------------------------
// Executable readers, each deciding the matching spec-level reader.
// ---------------------------------------------------------------------------

pub(crate) fn read_u8(b: &[u8], p: usize) -> (r: Result<(u8, usize), Error>)
    requires
        p <= b@.len(),
    ensures
        match r {
            Ok((x, q)) => r_u8(b@, p as int) == Some((x, q as int)) && p < q <= b@.len(),
            Err(e) => r_u8(b@, p as int) is None && e is Malformed,
        },
{
    if b.len() - p >= 1 {
        Ok((b[p], p + 1))
    } else {
        Err(Error::Malformed(loc_of(p)))
    }
}

pub(crate) fn read_u16(b: &[u8], p: usize) -> (r: Result<(u16, usize), Error>)
    requires
        p <= b@.len(),
    ensures
        match r {
            Ok((x, q)) => r_u16(b@, p as int) == Some((x, q as int)) && p < q <= b@.len(),
            Err(e) => r_u16(b@, p as int) is None && e is Malformed,
        },
{
    if b.len() - p >= 2 {
        let hi = b[p];
        let lo = b[p + 1];
        let x = ((hi as u16) << 8) | (lo as u16);
        Ok((x, p + 2))
    } else {
        Err(Error::Malformed(loc_of(p)))
    }
}

pub(crate) fn read_u32(b: &[u8], p: usize) -> (r: Result<(u32, usize), Error>)
    requires
        p <= b@.len(),
    ensures
        match r {
            Ok((x, q)) => r_u32(b@, p as int) == Some((x, q as int)) && p < q <= b@.len(),
            Err(e) => r_u32(b@, p as int) is None && e is Malformed,
        },
{
    if b.len() - p >= 4 {
        let x = ((b[p] as u32) << 24) | ((b[p + 1] as u32) << 16) | ((b[p + 2] as u32) << 8) | (b[p
            + 3] as u32);
        Ok((x, p + 4))
    } else {
        Err(Error::Malformed(loc_of(p)))
    }
}

pub(crate) fn read_u64(b: &[u8], p: usize) -> (r: Result<(u64, usize), Error>)
    requires
        p <= b@.len(),
    ensures
        match r {
            Ok((x, q)) => r_u64(b@, p as int) == Some((x, q as int)) && p < q <= b@.len(),
            Err(e) => r_u64(b@, p as int) is None && e is Malformed,
        },
{
    if b.len() - p >= 8 {
        let x = ((b[p] as u64) << 56) | ((b[p + 1] as u64) << 48) | ((b[p + 2] as u64) << 40) | ((
        b[p + 3] as u64) << 32) | ((b[p + 4] as u64) << 24) | ((b[p + 5] as u64) << 16) | ((b[p + 6]
            as u64) << 8) | (b[p + 7] as u64);
        Ok((x, p + 8))
    } else {
        Err(Error::Malformed(loc_of(p)))
    }
}

} // verus!
