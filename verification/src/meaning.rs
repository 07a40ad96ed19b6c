//! What the reads of numbers mean, in bytes and results alone.
//!
//! The laws here speak of calls: of what a call gives for the bytes it finds, or of
//! how the results of two calls hang together. They name no specification function
//! between the bytes and the results, so that each can be read on its own.
use vstd::prelude::*;

use crate::branchless::{
    decode_varint32_branchless, decode_varint64_branchless, gather32, gather64,
};
use crate::error::{Error, Result};
use crate::laws;
use crate::little_endian;
use crate::reader::BytesReader;
use crate::scalar;
use crate::varint;

verus! {

/// A byte with the continuation bit in front of a varint puts seven bits below it.
proof fn lemma_varint_cons(s: Seq<u8>)
    requires
        s.len() > 0,
        s[0] >= 0x80,
    ensures
        ({
            let t = varint::varint(s.skip(1));
            let a = varint::varint(s);
            match t.out {
                Ok(w) => t.used > 0 && if t.used < 10 {
                    a.out == Ok::<nat, Error>((s[0] - 128 + 128 * w) as nat) && a.used == t.used + 1
                } else {
                    a.out == Err::<nat, Error>(Error::Varint) && a.used == 10
                },
                Err(error) => {
                    &&& a.out is Err
                    &&& error == Error::Varint ==> a.out == Err::<nat, Error>(Error::Varint)
                        && a.used == 10
                    &&& error == Error::UnexpectedEndOfBuffer ==> t.used == s.len() - 1
                        && if s.len() < 10 {
                        a.out == Err::<nat, Error>(Error::UnexpectedEndOfBuffer) && a.used
                            == s.len()
                    } else {
                        a.out == Err::<nat, Error>(Error::Varint) && a.used == 10
                    }
                    &&& error == Error::Varint || error == Error::UnexpectedEndOfBuffer
                },
            }
        }),
{
    let t = s.skip(1);
    varint::lemma_run(s);
    varint::lemma_run(t);
    let run = varint::continuation_run(t);
    if run < t.len() {
        varint::lemma_groups_front(s, run + 2);
    }
}

/// Reading a 64-bit varint where nothing is left fails and moves nothing; where the
/// next byte is below 128, that byte is the number.
pub proof fn law_varint64_starts(bytes: &[u8])
    ensures
        forall|r: &mut BytesReader, out: Result<u64>|
            r@.start >= r@.end && #[trigger] call_ensures(
                BytesReader::read_varint64,
                (r, bytes),
                out,
            ) ==> {
                &&& out == Err::<u64, Error>(Error::UnexpectedEndOfBuffer)
                &&& final(r)@.start == r@.start && final(r)@.end == r@.end
            },
        forall|r: &mut BytesReader, out: Result<u64>|
            {
                &&& r@.start < r@.end <= bytes@.len()
                &&& bytes@[r@.start as int] < 128
                &&& #[trigger] call_ensures(BytesReader::read_varint64, (r, bytes), out)
            } ==> {
                &&& out == Ok::<u64, Error>(bytes@[r@.start as int] as u64)
                &&& final(r)@.start == r@.start + 1 && final(r)@.end == r@.end
            },
{
    varint::lemma_runs();
    assert forall|r: &mut BytesReader, out: Result<u64>|
        {
            &&& r@.start < r@.end <= bytes@.len()
            &&& bytes@[r@.start as int] < 128
            &&& #[trigger] call_ensures(BytesReader::read_varint64, (r, bytes), out)
        } implies {
        &&& out == Ok::<u64, Error>(bytes@[r@.start as int] as u64)
        &&& final(r)@.start == r@.start + 1 && final(r)@.end == r@.end
    } by {
        let w = r@.window(bytes@);
        assert(w[0] == bytes@[r@.start as int]);
        varint::lemma_ends(w, 0);
        varint::lemma_groups_front(w, 1);
        assert(varint::groups(w.skip(1), 0) == 0);
    }
}

/// Reading a 64-bit varint where the next byte is 128 or more gives what is read one
/// byte further on, times 128, plus that byte less 128, as far as 64 bits hold it;
/// and it ends where that read ends. A varint of more than ten bytes is malformed; one
/// that is cut short before is that.
///
/// `r` and `q` stand for two readers, `q` one byte behind `r`.
pub proof fn law_varint64_goes_on(bytes: &[u8])
    ensures
        forall|r: &mut BytesReader, q: &mut BytesReader, a: Result<u64>, b: Result<u64>|
            {
                &&& r@.start < r@.end <= bytes@.len()
                &&& bytes@[r@.start as int] >= 128
                &&& q@.start == r@.start + 1 && q@.end == r@.end
                &&& #[trigger] call_ensures(BytesReader::read_varint64, (r, bytes), a)
                &&& #[trigger] call_ensures(BytesReader::read_varint64, (q, bytes), b)
            } ==> {
                let taken = final(q)@.start - q@.start;
                let too_long = a == Err::<u64, Error>(Error::Varint) && final(r)@.start == r@.start
                    + 10;
                &&& final(r)@.end == r@.end
                &&& match b {
                    Ok(w) => if taken < 10 {
                        &&& a == Ok::<u64, Error>(
                            ((bytes@[r@.start as int] - 128 + 128 * w)
                                % 0x1_0000_0000_0000_0000) as u64,
                        )
                        &&& final(r)@.start == final(q)@.start
                    } else {
                        too_long
                    },
                    Err(Error::Varint) => too_long,
                    Err(Error::UnexpectedEndOfBuffer) => if r@.end - r@.start < 10 {
                        &&& a == Err::<u64, Error>(Error::UnexpectedEndOfBuffer)
                        &&& final(r)@.start == r@.end
                    } else {
                        too_long
                    },
                    Err(_) => false,
                }
            },
{
    assert forall|r: &mut BytesReader, q: &mut BytesReader, a: Result<u64>, b: Result<u64>|
        {
            &&& r@.start < r@.end <= bytes@.len()
            &&& bytes@[r@.start as int] >= 128
            &&& q@.start == r@.start + 1 && q@.end == r@.end
            &&& #[trigger] call_ensures(BytesReader::read_varint64, (r, bytes), a)
            &&& #[trigger] call_ensures(BytesReader::read_varint64, (q, bytes), b)
        } implies {
        let taken = final(q)@.start - q@.start;
        let too_long = a == Err::<u64, Error>(Error::Varint) && final(r)@.start == r@.start + 10;
        &&& final(r)@.end == r@.end
        &&& match b {
            Ok(w) => if taken < 10 {
                &&& a == Ok::<u64, Error>(
                    ((bytes@[r@.start as int] - 128 + 128 * w) % 0x1_0000_0000_0000_0000) as u64,
                )
                &&& final(r)@.start == final(q)@.start
            } else {
                too_long
            },
            Err(Error::Varint) => too_long,
            Err(Error::UnexpectedEndOfBuffer) => if r@.end - r@.start < 10 {
                &&& a == Err::<u64, Error>(Error::UnexpectedEndOfBuffer)
                &&& final(r)@.start == r@.end
            } else {
                too_long
            },
            Err(_) => false,
        }
    } by {
        let w = r@.window(bytes@);
        assert(w[0] == bytes@[r@.start as int]);
        assert(q@.window(bytes@) =~= w.skip(1));
        lemma_varint_cons(w);
        match varint::varint(w.skip(1)).out {
            Ok(v) => {
                let d = (w[0] - 128) as int;
                assert((d + 128 * v) % 0x1_0000_0000_0000_0000 == (d + 128 * (v
                    % 0x1_0000_0000_0000_0000)) % 0x1_0000_0000_0000_0000);
            },
            Err(_) => {},
        }
    }
}

/// Reading a 32-bit varint where nothing is left fails and moves nothing; where the
/// next byte is below 128, that byte is the number.
pub proof fn law_varint32_starts(bytes: &[u8])
    ensures
        forall|r: &mut BytesReader, out: Result<u32>|
            r@.start >= r@.end && #[trigger] call_ensures(
                BytesReader::read_varint32,
                (r, bytes),
                out,
            ) ==> {
                &&& out == Err::<u32, Error>(Error::UnexpectedEndOfBuffer)
                &&& final(r)@.start == r@.start && final(r)@.end == r@.end
            },
        forall|r: &mut BytesReader, out: Result<u32>|
            {
                &&& r@.start < r@.end <= bytes@.len()
                &&& bytes@[r@.start as int] < 128
                &&& #[trigger] call_ensures(BytesReader::read_varint32, (r, bytes), out)
            } ==> {
                &&& out == Ok::<u32, Error>(bytes@[r@.start as int] as u32)
                &&& final(r)@.start == r@.start + 1 && final(r)@.end == r@.end
            },
{
    varint::lemma_runs();
    assert forall|r: &mut BytesReader, out: Result<u32>|
        {
            &&& r@.start < r@.end <= bytes@.len()
            &&& bytes@[r@.start as int] < 128
            &&& #[trigger] call_ensures(BytesReader::read_varint32, (r, bytes), out)
        } implies {
        &&& out == Ok::<u32, Error>(bytes@[r@.start as int] as u32)
        &&& final(r)@.start == r@.start + 1 && final(r)@.end == r@.end
    } by {
        let w = r@.window(bytes@);
        assert(w[0] == bytes@[r@.start as int]);
        varint::lemma_ends(w, 0);
        varint::lemma_groups_front(w, 1);
        assert(varint::groups(w.skip(1), 0) == 0);
    }
}

/// Reading a 32-bit varint where the next byte is 128 or more gives what is read one
/// byte further on, times 128, plus that byte less 128, as far as 32 bits hold it;
/// and it ends where that read ends. A varint of more than ten bytes is malformed; one
/// that is cut short before is that.
///
/// `r` and `q` stand for two readers, `q` one byte behind `r`.
pub proof fn law_varint32_goes_on(bytes: &[u8])
    ensures
        forall|r: &mut BytesReader, q: &mut BytesReader, a: Result<u32>, b: Result<u32>|
            {
                &&& r@.start < r@.end <= bytes@.len()
                &&& bytes@[r@.start as int] >= 128
                &&& q@.start == r@.start + 1 && q@.end == r@.end
                &&& #[trigger] call_ensures(BytesReader::read_varint32, (r, bytes), a)
                &&& #[trigger] call_ensures(BytesReader::read_varint32, (q, bytes), b)
            } ==> {
                let taken = final(q)@.start - q@.start;
                let too_long = a == Err::<u32, Error>(Error::Varint) && final(r)@.start == r@.start
                    + 10;
                &&& final(r)@.end == r@.end
                &&& match b {
                    Ok(w) => if taken < 10 {
                        &&& a == Ok::<u32, Error>(
                            ((bytes@[r@.start as int] - 128 + 128 * w) % 0x1_0000_0000) as u32,
                        )
                        &&& final(r)@.start == final(q)@.start
                    } else {
                        too_long
                    },
                    Err(Error::Varint) => too_long,
                    Err(Error::UnexpectedEndOfBuffer) => if r@.end - r@.start < 10 {
                        &&& a == Err::<u32, Error>(Error::UnexpectedEndOfBuffer)
                        &&& final(r)@.start == r@.end
                    } else {
                        too_long
                    },
                    Err(_) => false,
                }
            },
{
    assert forall|r: &mut BytesReader, q: &mut BytesReader, a: Result<u32>, b: Result<u32>|
        {
            &&& r@.start < r@.end <= bytes@.len()
            &&& bytes@[r@.start as int] >= 128
            &&& q@.start == r@.start + 1 && q@.end == r@.end
            &&& #[trigger] call_ensures(BytesReader::read_varint32, (r, bytes), a)
            &&& #[trigger] call_ensures(BytesReader::read_varint32, (q, bytes), b)
        } implies {
        let taken = final(q)@.start - q@.start;
        let too_long = a == Err::<u32, Error>(Error::Varint) && final(r)@.start == r@.start + 10;
        &&& final(r)@.end == r@.end
        &&& match b {
            Ok(w) => if taken < 10 {
                &&& a == Ok::<u32, Error>(
                    ((bytes@[r@.start as int] - 128 + 128 * w) % 0x1_0000_0000) as u32,
                )
                &&& final(r)@.start == final(q)@.start
            } else {
                too_long
            },
            Err(Error::Varint) => too_long,
            Err(Error::UnexpectedEndOfBuffer) => if r@.end - r@.start < 10 {
                &&& a == Err::<u32, Error>(Error::UnexpectedEndOfBuffer)
                &&& final(r)@.start == r@.end
            } else {
                too_long
            },
            Err(_) => false,
        }
    } by {
        let w = r@.window(bytes@);
        assert(w[0] == bytes@[r@.start as int]);
        assert(q@.window(bytes@) =~= w.skip(1));
        lemma_varint_cons(w);
        match varint::varint(w.skip(1)).out {
            Ok(v) => {
                let d = (w[0] - 128) as int;
                assert((d + 128 * v) % 0x1_0000_0000 == (d + 128 * (v % 0x1_0000_0000))
                    % 0x1_0000_0000);
            },
            Err(_) => {},
        }
    }
}

/// A `uint32` is the varint as it is.
pub proof fn law_uint32_is_varint32(bytes: &[u8])
    ensures
        forall|r: &mut BytesReader, q: &mut BytesReader, a: Result<u32>, b: Result<u32>|
            {
                &&& r@ == q@
                &&& #[trigger] call_ensures(BytesReader::read_varint32, (r, bytes), a)
                &&& #[trigger] call_ensures(BytesReader::read_uint32, (q, bytes), b)
            } ==> {
                &&& final(r)@ == final(q)@
                &&& match a {
                    Ok(v) => b matches Ok(n) && n == v,
                    Err(error) => b == Err::<u32, Error>(error),
                }
            },
{
}

/// A `uint64` is the varint as it is.
pub proof fn law_uint64_is_varint64(bytes: &[u8])
    ensures
        forall|r: &mut BytesReader, q: &mut BytesReader, a: Result<u64>, b: Result<u64>|
            {
                &&& r@ == q@
                &&& #[trigger] call_ensures(BytesReader::read_varint64, (r, bytes), a)
                &&& #[trigger] call_ensures(BytesReader::read_uint64, (q, bytes), b)
            } ==> {
                &&& final(r)@ == final(q)@
                &&& match a {
                    Ok(v) => b matches Ok(n) && n == v,
                    Err(error) => b == Err::<u64, Error>(error),
                }
            },
{
}

/// A tag is the varint as it is.
pub proof fn law_tag_is_varint32(bytes: &[u8])
    ensures
        forall|r: &mut BytesReader, q: &mut BytesReader, a: Result<u32>, b: Result<u32>|
            {
                &&& r@ == q@
                &&& #[trigger] call_ensures(BytesReader::read_varint32, (r, bytes), a)
                &&& #[trigger] call_ensures(BytesReader::next_tag, (q, bytes), b)
            } ==> {
                &&& final(r)@ == final(q)@
                &&& match a {
                    Ok(v) => b matches Ok(n) && n == v,
                    Err(error) => b == Err::<u32, Error>(error),
                }
            },
{
}

/// An `int32` is the number with the 32 bits of the varint in two's complement: the
/// one that differs from it by nothing or by `2^32`.
pub proof fn law_int32_is_twos_complement(bytes: &[u8])
    ensures
        forall|r: &mut BytesReader, q: &mut BytesReader, a: Result<u32>, b: Result<i32>|
            {
                &&& r@ == q@
                &&& #[trigger] call_ensures(BytesReader::read_varint32, (r, bytes), a)
                &&& #[trigger] call_ensures(BytesReader::read_int32, (q, bytes), b)
            } ==> {
                &&& final(r)@ == final(q)@
                &&& match a {
                    Ok(v) => b matches Ok(n) && (n == v || n == v - 0x1_0000_0000),
                    Err(error) => b == Err::<i32, Error>(error),
                }
            },
{
}

/// An `int64` is the number with the 64 bits of the varint in two's complement: the
/// one that differs from it by nothing or by `2^64`.
pub proof fn law_int64_is_twos_complement(bytes: &[u8])
    ensures
        forall|r: &mut BytesReader, q: &mut BytesReader, a: Result<u64>, b: Result<i64>|
            {
                &&& r@ == q@
                &&& #[trigger] call_ensures(BytesReader::read_varint64, (r, bytes), a)
                &&& #[trigger] call_ensures(BytesReader::read_int64, (q, bytes), b)
            } ==> {
                &&& final(r)@ == final(q)@
                &&& match a {
                    Ok(v) => b matches Ok(n) && (n == v || n == v - 0x1_0000_0000_0000_0000),
                    Err(error) => b == Err::<i64, Error>(error),
                }
            },
{
}

/// A `sint32` is half of an even varint; an odd one is one less than twice what it
/// stands for below zero.
pub proof fn law_sint32_is_zigzag(bytes: &[u8])
    ensures
        forall|r: &mut BytesReader, q: &mut BytesReader, a: Result<u32>, b: Result<i32>|
            {
                &&& r@ == q@
                &&& #[trigger] call_ensures(BytesReader::read_varint32, (r, bytes), a)
                &&& #[trigger] call_ensures(BytesReader::read_sint32, (q, bytes), b)
            } ==> {
                &&& final(r)@ == final(q)@
                &&& match a {
                    Ok(v) => b matches Ok(n) && v == (if n >= 0 { 2 * n } else { -2 * n - 1 }),
                    Err(error) => b == Err::<i32, Error>(error),
                }
            },
{
}

/// A `sint64` is half of an even varint; an odd one is one less than twice what it
/// stands for below zero.
pub proof fn law_sint64_is_zigzag(bytes: &[u8])
    ensures
        forall|r: &mut BytesReader, q: &mut BytesReader, a: Result<u64>, b: Result<i64>|
            {
                &&& r@ == q@
                &&& #[trigger] call_ensures(BytesReader::read_varint64, (r, bytes), a)
                &&& #[trigger] call_ensures(BytesReader::read_sint64, (q, bytes), b)
            } ==> {
                &&& final(r)@ == final(q)@
                &&& match a {
                    Ok(v) => b matches Ok(n) && v == (if n >= 0 { 2 * n } else { -2 * n - 1 }),
                    Err(error) => b == Err::<i64, Error>(error),
                }
            },
{
}

/// A `bool` is false exactly if the varint is zero.
pub proof fn law_bool_is_not_zero(bytes: &[u8])
    ensures
        forall|r: &mut BytesReader, q: &mut BytesReader, a: Result<u32>, b: Result<bool>|
            {
                &&& r@ == q@
                &&& #[trigger] call_ensures(BytesReader::read_varint32, (r, bytes), a)
                &&& #[trigger] call_ensures(BytesReader::read_bool, (q, bytes), b)
            } ==> {
                &&& final(r)@ == final(q)@
                &&& match a {
                    Ok(v) => b matches Ok(n) && n == (v != 0),
                    Err(error) => b == Err::<bool, Error>(error),
                }
            },
{
}

/// An `sfixed32` differs from the `fixed32` in its place by nothing or by `2^32`.
pub proof fn law_sfixed32_is_twos_complement(bytes: &[u8])
    ensures
        forall|r: &mut BytesReader, q: &mut BytesReader, a: Result<u32>, b: Result<i32>|
            {
                &&& r@ == q@
                &&& #[trigger] call_ensures(BytesReader::read_fixed32, (r, bytes), a)
                &&& #[trigger] call_ensures(BytesReader::read_sfixed32, (q, bytes), b)
            } ==> {
                &&& final(r)@ == final(q)@
                &&& match a {
                    Ok(v) => b matches Ok(n) && (n == v || n == v - 0x1_0000_0000),
                    Err(error) => b == Err::<i32, Error>(error),
                }
            },
{
}

/// An `sfixed64` differs from the `fixed64` in its place by nothing or by `2^64`.
pub proof fn law_sfixed64_is_twos_complement(bytes: &[u8])
    ensures
        forall|r: &mut BytesReader, q: &mut BytesReader, a: Result<u64>, b: Result<i64>|
            {
                &&& r@ == q@
                &&& #[trigger] call_ensures(BytesReader::read_fixed64, (r, bytes), a)
                &&& #[trigger] call_ensures(BytesReader::read_sfixed64, (q, bytes), b)
            } ==> {
                &&& final(r)@ == final(q)@
                &&& match a {
                    Ok(v) => b matches Ok(n) && (n == v || n == v - 0x1_0000_0000_0000_0000),
                    Err(error) => b == Err::<i64, Error>(error),
                }
            },
{
}

/// The 32-bit read of a varint keeps the low 32 bits of the 64-bit read.
pub proof fn law_varint32_is_low_bits(bytes: &[u8])
    ensures
        forall|r: &mut BytesReader, q: &mut BytesReader, a: Result<u64>, b: Result<u32>|
            {
                &&& r@ == q@
                &&& #[trigger] call_ensures(BytesReader::read_varint64, (r, bytes), a)
                &&& #[trigger] call_ensures(BytesReader::read_varint32, (q, bytes), b)
            } ==> {
                &&& final(r)@ == final(q)@
                &&& match a {
                    Ok(v) => b matches Ok(n) && n == v % 0x1_0000_0000,
                    Err(error) => b == Err::<u32, Error>(error),
                }
            },
{
}

/// An `int32` is the `int64` in its place wherever that fits 32 bits.
pub proof fn law_int32_is_int64_where_it_fits(bytes: &[u8])
    ensures
        forall|r: &mut BytesReader, q: &mut BytesReader, a: Result<i64>, b: Result<i32>|
            {
                &&& r@ == q@
                &&& #[trigger] call_ensures(BytesReader::read_int64, (r, bytes), a)
                &&& #[trigger] call_ensures(BytesReader::read_int32, (q, bytes), b)
            } ==> {
                &&& final(r)@ == final(q)@
                &&& match a {
                    Ok(v) => b matches Ok(n) && (i32::MIN <= v <= i32::MAX ==> n == v),
                    Err(error) => b == Err::<i32, Error>(error),
                }
            },
{
}

/// An enum is made from the `int32` in its place.
pub proof fn law_enum_is_made_from_int32<E: From<i32>>(bytes: &[u8])
    ensures
        forall|r: &mut BytesReader, q: &mut BytesReader, a: Result<i32>, b: Result<E>|
            {
                &&& r@ == q@
                &&& #[trigger] call_ensures(BytesReader::read_int32, (r, bytes), a)
                &&& #[trigger] call_ensures(BytesReader::read_enum::<E>, (q, bytes), b)
            } ==> {
                &&& final(r)@ == final(q)@
                &&& match a {
                    Ok(i) => b matches Ok(e) && call_ensures(E::from, (i,), e),
                    Err(error) => b == Err::<E, Error>(error),
                }
            },
{
}

/// The next byte is the one at the position, and the position moves behind it; where
/// nothing is left there is none.
pub proof fn law_byte_is_at_the_position(bytes: &[u8])
    ensures
        forall|r: &mut BytesReader, out: Result<u8>|
            r@.end <= bytes@.len() && #[trigger] call_ensures(
                BytesReader::read_u8,
                (r, bytes),
                out,
            ) ==> {
                &&& final(r)@.end == r@.end
                &&& if r@.start < r@.end {
                    out == Ok::<u8, Error>(bytes@[r@.start as int]) && final(r)@.start == r@.start
                        + 1
                } else {
                    out == Err::<u8, Error>(Error::UnexpectedEndOfBuffer) && final(r)@.start
                        == r@.start
                }
            },
{
}

/// A `fixed32` is spelled by the next four bytes in base 256, least significant first, and
/// is read exactly if these lie before the end of the reader and of the slice.
pub proof fn law_fixed32_is_little_endian(bytes: &[u8])
    ensures
        forall|r: &mut BytesReader, out: Result<u32>| #[trigger]
            call_ensures(BytesReader::read_fixed32, (r, bytes), out) ==> {
                let p = r@.start as int;
                let fits = r@.start + 4 <= r@.end && r@.start + 4 <= bytes@.len();
                &&& final(r)@.end == r@.end
                &&& if fits {
                    &&& out matches Ok(v) && v == bytes@[p]
                        + 0x100 * bytes@[p + 1]
                        + 0x10000 * bytes@[p + 2]
                        + 0x1000000 * bytes@[p + 3]
                    &&& final(r)@.start == r@.start + 4
                } else {
                    &&& out == Err::<u32, Error>(Error::UnexpectedEndOfBuffer)
                    &&& final(r)@.start == r@.start
                }
            },
{
    assert forall|r: &mut BytesReader, out: Result<u32>| #[trigger]
        call_ensures(BytesReader::read_fixed32, (r, bytes), out) implies {
        let p = r@.start as int;
        let fits = r@.start + 4 <= r@.end && r@.start + 4 <= bytes@.len();
        &&& final(r)@.end == r@.end
        &&& if fits {
            &&& out matches Ok(v) && v == bytes@[p]
                + 0x100 * bytes@[p + 1]
                + 0x10000 * bytes@[p + 2]
                + 0x1000000 * bytes@[p + 3]
            &&& final(r)@.start == r@.start + 4
        } else {
            &&& out == Err::<u32, Error>(Error::UnexpectedEndOfBuffer)
            &&& final(r)@.start == r@.start
        }
    } by {
        if r@.start + 4 <= r@.end && r@.start + 4 <= bytes@.len() {
            let s = r@.reach(bytes@).take(4);
            lemma_le_value_4(s);
        }
    }
}

/// The number that 4 bytes spell, written out.
pub(crate) proof fn lemma_le_value_4(s: Seq<u8>)
    requires
        s.len() == 4,
    ensures
        little_endian::le_value(s) == s[0]
            + 0x100 * s[1]
            + 0x10000 * s[2]
            + 0x1000000 * s[3],
        little_endian::le_value(s) < 0x100000000,
{
    reveal_with_fuel(little_endian::le_value, 5);
}

/// A `fixed64` is spelled by the next eight bytes in base 256, least significant first, and
/// is read exactly if these lie before the end of the reader and of the slice.
pub proof fn law_fixed64_is_little_endian(bytes: &[u8])
    ensures
        forall|r: &mut BytesReader, out: Result<u64>| #[trigger]
            call_ensures(BytesReader::read_fixed64, (r, bytes), out) ==> {
                let p = r@.start as int;
                let fits = r@.start + 8 <= r@.end && r@.start + 8 <= bytes@.len();
                &&& final(r)@.end == r@.end
                &&& if fits {
                    &&& out matches Ok(v) && v == bytes@[p]
                        + 0x100 * bytes@[p + 1]
                        + 0x10000 * bytes@[p + 2]
                        + 0x1000000 * bytes@[p + 3]
                        + 0x100000000 * bytes@[p + 4]
                        + 0x10000000000 * bytes@[p + 5]
                        + 0x1000000000000 * bytes@[p + 6]
                        + 0x100000000000000 * bytes@[p + 7]
                    &&& final(r)@.start == r@.start + 8
                } else {
                    &&& out == Err::<u64, Error>(Error::UnexpectedEndOfBuffer)
                    &&& final(r)@.start == r@.start
                }
            },
{
    assert forall|r: &mut BytesReader, out: Result<u64>| #[trigger]
        call_ensures(BytesReader::read_fixed64, (r, bytes), out) implies {
        let p = r@.start as int;
        let fits = r@.start + 8 <= r@.end && r@.start + 8 <= bytes@.len();
        &&& final(r)@.end == r@.end
        &&& if fits {
            &&& out matches Ok(v) && v == bytes@[p]
                + 0x100 * bytes@[p + 1]
                + 0x10000 * bytes@[p + 2]
                + 0x1000000 * bytes@[p + 3]
                + 0x100000000 * bytes@[p + 4]
                + 0x10000000000 * bytes@[p + 5]
                + 0x1000000000000 * bytes@[p + 6]
                + 0x100000000000000 * bytes@[p + 7]
            &&& final(r)@.start == r@.start + 8
        } else {
            &&& out == Err::<u64, Error>(Error::UnexpectedEndOfBuffer)
            &&& final(r)@.start == r@.start
        }
    } by {
        if r@.start + 8 <= r@.end && r@.start + 8 <= bytes@.len() {
            let s = r@.reach(bytes@).take(8);
            lemma_le_value_8(s);
        }
    }
}

/// The number that 8 bytes spell, written out.
pub(crate) proof fn lemma_le_value_8(s: Seq<u8>)
    requires
        s.len() == 8,
    ensures
        little_endian::le_value(s) == s[0]
            + 0x100 * s[1]
            + 0x10000 * s[2]
            + 0x1000000 * s[3]
            + 0x100000000 * s[4]
            + 0x10000000000 * s[5]
            + 0x1000000000000 * s[6]
            + 0x100000000000000 * s[7],
        little_endian::le_value(s) < 0x10000000000000000,
{
    reveal_with_fuel(little_endian::le_value, 9);
}

/// Gathering takes the low seven bits of each byte, of the first five or of all eight,
/// and puts them next to each other.
pub proof fn law_gather_puts_groups_together(b: Seq<u8>, m: u64)
    requires
        b.len() == 8,
        m == b[0] + 0x100 * b[1] + 0x10000 * b[2] + 0x1000000 * b[3] + 0x100000000 * b[4]
            + 0x10000000000 * b[5] + 0x1000000000000 * b[6] + 0x100000000000000 * b[7],
    ensures
        forall|out: u32| #[trigger]
            call_ensures(gather32, (m,), out) ==> out == (b[0] % 128 + 0x80 * (b[1] % 128) + 0x4000
                * (b[2] % 128) + 0x200000 * (b[3] % 128) + 0x10000000 * (b[4] % 128))
                % 0x1_0000_0000,
        forall|out: u64| #[trigger]
            call_ensures(gather64, (m,), out) ==> out == b[0] % 128 + 0x80 * (b[1] % 128) + 0x4000
                * (b[2] % 128) + 0x200000 * (b[3] % 128) + 0x10000000 * (b[4] % 128) + 0x800000000
                * (b[5] % 128) + 0x40000000000 * (b[6] % 128) + 0x2000000000000 * (b[7] % 128),
{
    lemma_le_value_8(b);
    little_endian::lemma_le_bytes_of_value(b);
    reveal_with_fuel(varint::groups, 9);
    varint::lemma_weights((b[0] % 128) as int);
    varint::lemma_weights((b[1] % 128) as int);
    varint::lemma_weights((b[2] % 128) as int);
    varint::lemma_weights((b[3] % 128) as int);
    varint::lemma_weights((b[4] % 128) as int);
    varint::lemma_weights((b[5] % 128) as int);
    varint::lemma_weights((b[6] % 128) as int);
    varint::lemma_weights((b[7] % 128) as int);
}

/// Decoding eight bytes at once gives what `read_varint32` gives on them, and the number
/// of bytes it takes, if it takes at most five; and nothing otherwise.
pub proof fn law_branchless32_is_read_varint32(bytes: &[u8])
    ensures
        forall|r: &mut BytesReader, raw: u64, o: Option<(u32, usize)>, out: Result<u32>|
            {
                let p = r@.start as int;
                &&& p + 8 <= r@.end <= bytes@.len()
                &&& raw == bytes@[p]
                    + 0x100 * bytes@[p + 1]
                    + 0x10000 * bytes@[p + 2]
                    + 0x1000000 * bytes@[p + 3]
                    + 0x100000000 * bytes@[p + 4]
                    + 0x10000000000 * bytes@[p + 5]
                    + 0x1000000000000 * bytes@[p + 6]
                    + 0x100000000000000 * bytes@[p + 7]
                &&& #[trigger] call_ensures(decode_varint32_branchless, (raw,), o)
                &&& #[trigger] call_ensures(BytesReader::read_varint32, (r, bytes), out)
            } ==> {
                let taken = final(r)@.start - r@.start;
                match out {
                    Ok(v) => if taken <= 5 {
                        o == Some((v, taken as usize))
                    } else {
                        o is None
                    },
                    Err(_) => o is None,
                }
            },
{
    assert forall|r: &mut BytesReader, raw: u64, o: Option<(u32, usize)>, out: Result<u32>|
        {
            let p = r@.start as int;
            &&& p + 8 <= r@.end <= bytes@.len()
            &&& raw == bytes@[p]
                + 0x100 * bytes@[p + 1]
                + 0x10000 * bytes@[p + 2]
                + 0x1000000 * bytes@[p + 3]
                + 0x100000000 * bytes@[p + 4]
                + 0x10000000000 * bytes@[p + 5]
                + 0x1000000000000 * bytes@[p + 6]
                + 0x100000000000000 * bytes@[p + 7]
            &&& #[trigger] call_ensures(decode_varint32_branchless, (raw,), o)
            &&& #[trigger] call_ensures(BytesReader::read_varint32, (r, bytes), out)
        } implies {
        let taken = final(r)@.start - r@.start;
        match out {
            Ok(v) => if taken <= 5 {
                o == Some((v, taken as usize))
            } else {
                o is None
            },
            Err(_) => o is None,
        }
    } by {
        let w = r@.window(bytes@);
        let s = w.take(8);
        lemma_le_value_8(s);
        little_endian::lemma_le_bytes_of_value(s);
        laws::law_branchless_agrees(w);
    }
}

/// Decoding eight bytes at once gives what `read_varint64` gives on them, and the number
/// of bytes it takes, if it takes at most eight; and nothing otherwise.
pub proof fn law_branchless64_is_read_varint64(bytes: &[u8])
    ensures
        forall|r: &mut BytesReader, raw: u64, o: Option<(u64, usize)>, out: Result<u64>|
            {
                let p = r@.start as int;
                &&& p + 8 <= r@.end <= bytes@.len()
                &&& raw == bytes@[p]
                    + 0x100 * bytes@[p + 1]
                    + 0x10000 * bytes@[p + 2]
                    + 0x1000000 * bytes@[p + 3]
                    + 0x100000000 * bytes@[p + 4]
                    + 0x10000000000 * bytes@[p + 5]
                    + 0x1000000000000 * bytes@[p + 6]
                    + 0x100000000000000 * bytes@[p + 7]
                &&& #[trigger] call_ensures(decode_varint64_branchless, (raw,), o)
                &&& #[trigger] call_ensures(BytesReader::read_varint64, (r, bytes), out)
            } ==> {
                let taken = final(r)@.start - r@.start;
                match out {
                    Ok(v) => if taken <= 8 {
                        o == Some((v, taken as usize))
                    } else {
                        o is None
                    },
                    Err(_) => o is None,
                }
            },
{
    assert forall|r: &mut BytesReader, raw: u64, o: Option<(u64, usize)>, out: Result<u64>|
        {
            let p = r@.start as int;
            &&& p + 8 <= r@.end <= bytes@.len()
            &&& raw == bytes@[p]
                + 0x100 * bytes@[p + 1]
                + 0x10000 * bytes@[p + 2]
                + 0x1000000 * bytes@[p + 3]
                + 0x100000000 * bytes@[p + 4]
                + 0x10000000000 * bytes@[p + 5]
                + 0x1000000000000 * bytes@[p + 6]
                + 0x100000000000000 * bytes@[p + 7]
            &&& #[trigger] call_ensures(decode_varint64_branchless, (raw,), o)
            &&& #[trigger] call_ensures(BytesReader::read_varint64, (r, bytes), out)
        } implies {
        let taken = final(r)@.start - r@.start;
        match out {
            Ok(v) => if taken <= 8 {
                o == Some((v, taken as usize))
            } else {
                o is None
            },
            Err(_) => o is None,
        }
    } by {
        let w = r@.window(bytes@);
        let s = w.take(8);
        lemma_le_value_8(s);
        little_endian::lemma_le_bytes_of_value(s);
        laws::law_branchless_agrees(w);
    }
}

/// A reader that is made from bytes starts at their front and ends at their end, and has
/// nothing left exactly if there are none.
pub proof fn law_all_of_the_bytes_are_left_at_first(bytes: &[u8])
    ensures
        forall|r: BytesReader, pos: usize|
            #[trigger] call_ensures(BytesReader::from_bytes, (bytes,), r)
                && #[trigger] call_ensures(BytesReader::start, (&r,), pos) ==> pos == 0,
        forall|r: BytesReader, end: usize|
            #[trigger] call_ensures(BytesReader::from_bytes, (bytes,), r)
                && #[trigger] call_ensures(BytesReader::end, (&r,), end) ==> end == bytes@.len(),
        forall|r: BytesReader, n: usize|
            #[trigger] call_ensures(BytesReader::from_bytes, (bytes,), r)
                && #[trigger] call_ensures(BytesReader::len, (&r,), n) ==> n == bytes@.len(),
        forall|r: BytesReader, eof: bool|
            #[trigger] call_ensures(BytesReader::from_bytes, (bytes,), r)
                && #[trigger] call_ensures(BytesReader::is_eof, (&r,), eof) ==> eof == (
            bytes@.len() == 0),
{
}

/// What is left is what lies between the position and the end; nothing is left exactly
/// if the position is the end; and these are the positions that the reads go by.
pub proof fn law_what_is_left_lies_before_the_end(r: &BytesReader, pos: usize, end: usize)
    requires
        call_ensures(BytesReader::start, (r,), pos),
        call_ensures(BytesReader::end, (r,), end),
    ensures
        r@.start == pos,
        r@.end == end,
        forall|n: usize|
            pos <= end && #[trigger] call_ensures(BytesReader::len, (r,), n) ==> pos + n == end,
        forall|eof: bool| #[trigger]
            call_ensures(BytesReader::is_eof, (r,), eof) ==> eof == (pos == end),
{
}

/// Setting a position leaves the other as it was, and moving to the end leaves nothing.
pub proof fn law_positions_are_as_they_were_set(at: usize)
    ensures
        forall|r: &mut BytesReader| #[trigger]
            call_ensures(BytesReader::set_start, (r, at), ()) ==> final(r)@.start == at
                && final(r)@.end == r@.end,
        forall|r: &mut BytesReader| #[trigger]
            call_ensures(BytesReader::set_end, (r, at), ()) ==> final(r)@.start == r@.start
                && final(r)@.end == at,
        forall|r: &mut BytesReader| #[trigger]
            call_ensures(BytesReader::read_to_end, (r,), ()) ==> final(r)@.start == r@.end
                && final(r)@.end == r@.end,
{
}

/// The bits of an unsigned number, taken for a signed one, are the number itself or the
/// number less two to the number of bits.
pub proof fn law_bits_are_twos_complement(v: u32, w: u64)
    ensures
        forall|out: i32| #[trigger]
            call_ensures(scalar::cast32, (v,), out) ==> out == v || out == v - 0x1_0000_0000,
        forall|out: i64| #[trigger]
            call_ensures(scalar::cast64, (w,), out) ==> out == w || out == w
                - 0x1_0000_0000_0000_0000,
{
}

/// The zigzag order puts the numbers that are not negative at twice themselves, and the
/// others in between.
pub proof fn law_zigzag_goes_back_and_forth(n: u32, m: u64)
    ensures
        forall|out: i32| #[trigger]
            call_ensures(scalar::unzigzag32, (n,), out) ==> n == if out >= 0 {
                2 * out
            } else {
                -2 * out - 1
            },
        forall|out: i64| #[trigger]
            call_ensures(scalar::unzigzag64, (m,), out) ==> m == if out >= 0 {
                2 * out
            } else {
                -2 * out - 1
            },
{
}

/// No bytes spell zero; and `n` bytes spell the first of them and 256 times what the
/// others spell.
pub proof fn law_load_is_little_endian(bytes: &[u8], at: usize, n: usize)
    requires
        n <= 8,
        at + n <= bytes@.len(),
    ensures
        forall|v: u64| #[trigger]
            call_ensures(little_endian::load, (bytes, at, 0), v) ==> v == 0,
        n > 0 ==> forall|v: u64, w: u64|
            #[trigger] call_ensures(little_endian::load, (bytes, at, n), v)
                && #[trigger] call_ensures(
                little_endian::load,
                (bytes, (at + 1) as usize, (n - 1) as usize),
                w,
            ) ==> v == bytes@[at as int] + 0x100 * w,
        at + 16 <= bytes@.len() ==> forall|v: u128, a: u64, b: u64|
            #[trigger] call_ensures(little_endian::load128, (bytes, at), v)
                && #[trigger] call_ensures(little_endian::load, (bytes, at, 8), a)
                && #[trigger] call_ensures(little_endian::load, (bytes, (at + 8) as usize, 8), b)
                ==> v == a + 0x1_0000_0000_0000_0000 * b,
{
    assert(bytes@.len() == bytes.len());
    assert(bytes@.subrange(at as int, at + 0) =~= Seq::<u8>::empty());
    if n > 0 {
        let s = bytes@.subrange(at as int, at + n);
        assert(s.skip(1) =~= bytes@.subrange(at + 1, at + n));
    }
    if at + 16 <= bytes@.len() {
        let a = bytes@.subrange(at as int, at + 8);
        let b = bytes@.subrange(at + 8, at + 16);
        vstd::arithmetic::power2::lemma2_to64_rest();
        little_endian::lemma_le_value_concat(a, b);
        assert(a + b =~= bytes@.subrange(at as int, at + 16));
        let p = vstd::arithmetic::power2::pow2(64);
        let v = little_endian::le_value(b);
        assert(p * v == 0x1_0000_0000_0000_0000 * v) by (nonlinear_arith)
            requires
                p == 0x1_0000_0000_0000_0000,
        ;
    }
}

} // verus!
