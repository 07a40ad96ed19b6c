//! What the scalar field types mean on the wire.
use vstd::prelude::*;

use crate::cursor::Step;
use crate::error::Error;
use crate::little_endian;
use crate::varint;

verus! {

/// The signed number that has the same 32 bits as `v`.
pub open spec fn signed32(v: u32) -> i32 {
    if v < 0x8000_0000 {
        v as i32
    } else {
        (v - 0x1_0000_0000) as i32
    }
}

/// The signed number that has the same 64 bits as `v`.
pub open spec fn signed64(v: u64) -> i64 {
    if v < 0x8000_0000_0000_0000 {
        v as i64
    } else {
        (v - 0x1_0000_0000_0000_0000) as i64
    }
}

/// The zigzag order `0, -1, 1, -2, 2, ...` at position `n`.
pub open spec fn zigzag(n: int) -> int {
    if n % 2 == 0 {
        n / 2
    } else {
        -(n / 2) - 1
    }
}

/// Decodes an `int32`.
pub open spec fn int32(s: Seq<u8>) -> Step<i32> {
    varint::varint32(s).map(|v: u32| signed32(v))
}

/// Decodes an `int64`.
pub open spec fn int64(s: Seq<u8>) -> Step<i64> {
    varint::varint64(s).map(|v: u64| signed64(v))
}

/// Decodes a `sint32`.
pub open spec fn sint32(s: Seq<u8>) -> Step<i32> {
    varint::varint32(s).map(|v: u32| zigzag(v as int) as i32)
}

/// Decodes a `sint64`.
pub open spec fn sint64(s: Seq<u8>) -> Step<i64> {
    varint::varint64(s).map(|v: u64| zigzag(v as int) as i64)
}

/// Decodes a `bool`: anything but zero is true.
pub open spec fn boolean(s: Seq<u8>) -> Step<bool> {
    varint::varint32(s).map(|v: u32| v != 0)
}

/// Decodes a little-endian number of `n` bytes.
pub open spec fn fixed(s: Seq<u8>, n: nat) -> Step<nat> {
    if s.len() < n {
        Step::err(Error::UnexpectedEndOfBuffer, 0)
    } else {
        Step::ok(little_endian::le_value(s.take(n as int)), n)
    }
}

/// Decodes a `fixed32`.
pub open spec fn fixed32(s: Seq<u8>) -> Step<u32> {
    fixed(s, 4).map(|v: nat| v as u32)
}

/// Decodes a `fixed64`.
pub open spec fn fixed64(s: Seq<u8>) -> Step<u64> {
    fixed(s, 8).map(|v: nat| v as u64)
}

/// Decodes an `sfixed32`.
pub open spec fn sfixed32(s: Seq<u8>) -> Step<i32> {
    fixed32(s).map(|v: u32| signed32(v))
}

/// Decodes an `sfixed64`.
pub open spec fn sfixed64(s: Seq<u8>) -> Step<i64> {
    fixed64(s).map(|v: u64| signed64(v))
}

/// Takes the bits of `v` for a signed number.
pub fn cast32(v: u32) -> (out: i32)
    ensures
        out == signed32(v),
{
    assert(v as i32 == if v < 0x8000_0000 {
        v as int
    } else {
        v - 0x1_0000_0000
    }) by (bit_vector);
    v as i32
}

/// Takes the bits of `v` for a signed number.
pub fn cast64(v: u64) -> (out: i64)
    ensures
        out == signed64(v),
{
    assert(v as i64 == if v < 0x8000_0000_0000_0000 {
        v as int
    } else {
        v - 0x1_0000_0000_0000_0000
    }) by (bit_vector);
    v as i64
}

/// The number at position `n` of the zigzag order.
pub fn unzigzag32(n: u32) -> (out: i32)
    ensures
        out == zigzag(n as int),
{
    assert(n & 1 <= 1 && n >> 1 <= 0x7fff_ffff) by (bit_vector);
    let half: i32 = (n >> 1) as i32;
    let sign: i32 = -((n & 1) as i32);
    assert(half ^ sign == if n % 2 == 0 {
        (n / 2) as int
    } else {
        -(n / 2) - 1
    }) by (bit_vector)
        requires
            half == (n >> 1) as i32,
            sign == -((n & 1) as i32),
    ;
    half ^ sign
}

/// The number at position `n` of the zigzag order.
pub fn unzigzag64(n: u64) -> (out: i64)
    ensures
        out == zigzag(n as int),
{
    assert(n & 1 <= 1 && n >> 1 <= 0x7fff_ffff_ffff_ffff) by (bit_vector);
    let half: i64 = (n >> 1) as i64;
    let sign: i64 = -((n & 1) as i64);
    assert(half ^ sign == if n % 2 == 0 {
        (n / 2) as int
    } else {
        -(n / 2) - 1
    }) by (bit_vector)
        requires
            half == (n >> 1) as i64,
            sign == -((n & 1) as i64),
    ;
    half ^ sign
}

} // verus!
