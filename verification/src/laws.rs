//! What holds of the library as a whole.
use vstd::prelude::*;
use vstd::std_specs::cmp::PartialEqSpec;

use crate::branchless;
use crate::cursor;
use crate::cursor::{Cursor, Step};
use crate::encode;
use crate::entry;
use crate::entry::{EntryTrace, Part};
use crate::error::{Error, Result};
use crate::field;
use crate::little_endian;
use crate::fixed_width::FixedWidth;
use crate::message::MessageRead;
use crate::packed;
use crate::packed::PackedFixed;
use crate::reader::BytesReader;
use crate::repeated;
use crate::repeated::Trace;
use crate::scalar;
use crate::varint;

verus! {

/// The position of `v` in the zigzag order `0, -1, 1, -2, 2, ...`.
pub open spec fn zigzag_position(v: int) -> nat {
    if v >= 0 {
        (2 * v) as nat
    } else {
        (-2 * v - 1) as nat
    }
}

/// The varint of a number below `2^(7 k)` takes at most `k` bytes, the last of
/// which alone lacks the continuation bit, and its groups spell the number.
pub(crate) proof fn lemma_encoded(v: nat, k: nat)
    requires
        k > 0,
        v < vstd::arithmetic::power2::pow2(7 * k),
    ensures
        0 < encode::encoded(v).len() <= k,
        forall|i: int|
            0 <= i < encode::encoded(v).len() - 1 ==> encode::encoded(v)[i] >= 0x80,
        encode::encoded(v).last() < 0x80,
        varint::groups(encode::encoded(v), encode::encoded(v).len()) == v,
    decreases k,
{
    vstd::arithmetic::power2::lemma2_to64();
    let s = encode::encoded(v);
    if v < 128 {
        varint::lemma_groups_front(s, 1);
        assert(varint::groups(s.skip(1), 0) == 0);
    } else {
        let t = encode::encoded(v / 128);
        if k == 1 {
            assert(false);
        }
        vstd::arithmetic::power2::lemma_pow2_adds(7, (7 * (k - 1)) as nat);
        lemma_encoded(v / 128, (k - 1) as nat);
        assert(s.skip(1) =~= t);
        assert forall|i: int| 0 <= i < s.len() - 1 implies s[i] >= 0x80 by {
            if i > 0 {
                assert(s[i] == t[i - 1]);
            }
        }
        assert(s.last() == t.last());
        varint::lemma_groups_front(s, s.len());
    }
}

/// Reading a varint gives back the number that was written, takes the bytes that
/// were written, and is not disturbed by what follows.
pub proof fn law_varint_round_trip(v: nat, tail: Seq<u8>)
    requires
        v < vstd::arithmetic::power2::pow2(70),
    ensures
        varint::varint(encode::encoded(v) + tail) == Step::ok(v, encode::encoded(v).len()),
{
    lemma_encoded(v, 10);
    let s = encode::encoded(v);
    let k = (s.len() - 1) as nat;
    varint::lemma_ends(s, k);
    varint::lemma_varint_prefix(s, tail);
}

/// A `u32` is read back as it was written.
pub proof fn law_uint32_round_trip(v: u32, tail: Seq<u8>)
    ensures
        varint::varint32(encode::encoded(v as nat) + tail) == Step::ok(
            v,
            encode::encoded(v as nat).len(),
        ),
{
    lemma_fits_varint(v as nat);
    law_varint_round_trip(v as nat, tail);
}

/// A `u64` is read back as it was written.
pub proof fn law_uint64_round_trip(v: u64, tail: Seq<u8>)
    ensures
        varint::varint64(encode::encoded(v as nat) + tail) == Step::ok(
            v,
            encode::encoded(v as nat).len(),
        ),
{
    lemma_fits_varint(v as nat);
    law_varint_round_trip(v as nat, tail);
}

/// 64 bits fit ten groups.
pub(crate) proof fn lemma_fits_varint(v: nat)
    requires
        v < 0x1_0000_0000_0000_0000,
    ensures
        v < vstd::arithmetic::power2::pow2(70),
{
    vstd::arithmetic::power2::lemma2_to64_rest();
    vstd::arithmetic::power2::lemma_pow2_strictly_increases(64, 70);
}

/// An `int32` is read back as it was written, though a negative one is written
/// in 64 bits.
pub proof fn law_int32_round_trip(v: i32, tail: Seq<u8>)
    ensures
        scalar::int32(encode::encoded_i32(v) + tail) == Step::ok(v, encode::encoded_i32(v).len()),
{
    law_int32_wide_round_trip(v, tail);
}

/// Every `int32` is read back from the varint of its two's complement in 64 bits: the
/// number itself, or the number and two to the 64 if it is negative.
pub proof fn law_int32_wide_round_trip(v: i32, tail: Seq<u8>)
    ensures
        ({
            let wide: nat = if v >= 0 {
                v as nat
            } else {
                (v + 0x1_0000_0000_0000_0000) as nat
            };
            scalar::int32(encode::encoded(wide) + tail) == Step::ok(
                v,
                encode::encoded(wide).len(),
            )
        }),
{
    let wide: nat = if v >= 0 {
        v as nat
    } else {
        (v + 0x1_0000_0000_0000_0000) as nat
    };
    let low: int = if v >= 0 {
        v as int
    } else {
        v + 0x1_0000_0000
    };
    assert(wide % 0x1_0000_0000 == low);
    assert(scalar::signed32(low as u32) == v);
    lemma_fits_varint(wide);
    law_varint_round_trip(wide, tail);
}

/// An `int64` is read back as it was written.
pub proof fn law_int64_round_trip(v: i64, tail: Seq<u8>)
    ensures
        ({
            let wide: nat = if v >= 0 {
                v as nat
            } else {
                (v + 0x1_0000_0000_0000_0000) as nat
            };
            scalar::int64(encode::encoded(wide) + tail) == Step::ok(
                v,
                encode::encoded(wide).len(),
            )
        }),
{
    let wide: nat = if v >= 0 {
        v as nat
    } else {
        (v + 0x1_0000_0000_0000_0000) as nat
    };
    lemma_fits_varint(wide);
    law_varint_round_trip(wide, tail);
}

/// A `sint32` is read back as it was written.
pub proof fn law_sint32_round_trip(v: i32, tail: Seq<u8>)
    ensures
        ({
            let written = encode::encoded(zigzag_position(v as int));
            scalar::sint32(written + tail) == Step::ok(v, written.len())
        }),
{
    lemma_fits_varint(zigzag_position(v as int));
    law_varint_round_trip(zigzag_position(v as int), tail);
}

/// A `sint64` is read back as it was written.
pub proof fn law_sint64_round_trip(v: i64, tail: Seq<u8>)
    ensures
        ({
            let written = encode::encoded(zigzag_position(v as int));
            scalar::sint64(written + tail) == Step::ok(v, written.len())
        }),
{
    lemma_fits_varint(zigzag_position(v as int));
    law_varint_round_trip(zigzag_position(v as int), tail);
}

/// A `bool` is read back as it was written, and any number but zero is true.
pub proof fn law_bool_round_trip(v: u32, tail: Seq<u8>)
    ensures
        scalar::boolean(encode::encoded(v as nat) + tail) == Step::ok(
            v != 0,
            encode::encoded(v as nat).len(),
        ),
{
    law_uint32_round_trip(v, tail);
}

/// What a number of `n` bytes is read as, in front of anything.
proof fn lemma_fixed(s: Seq<u8>, n: nat, tail: Seq<u8>)
    requires
        s.len() == n,
    ensures
        scalar::fixed(s + tail, n) == Step::ok(little_endian::le_value(s), n),
{
    assert((s + tail).take(n as int) =~= s);
}

/// A `fixed32` is read back as it was written.
pub proof fn law_fixed32_round_trip(v: u32, tail: Seq<u8>)
    ensures
        scalar::fixed32(v.encode() + tail) == Step::ok(v, 4),
{
    v.lemma_round_trip();
    lemma_fixed(v.encode(), 4, tail);
}

/// A `fixed64` is read back as it was written.
pub proof fn law_fixed64_round_trip(v: u64, tail: Seq<u8>)
    ensures
        scalar::fixed64(v.encode() + tail) == Step::ok(v, 8),
{
    v.lemma_round_trip();
    lemma_fixed(v.encode(), 8, tail);
}

/// An `sfixed32` is read back as it was written.
pub proof fn law_sfixed32_round_trip(v: i32, tail: Seq<u8>)
    ensures
        scalar::sfixed32(v.encode() + tail) == Step::ok(v, 4),
{
    v.lemma_round_trip();
    vstd::arithmetic::power2::lemma2_to64();
    little_endian::lemma_le_value_bound(v.encode());
    lemma_fixed(v.encode(), 4, tail);
}

/// An `sfixed64` is read back as it was written.
pub proof fn law_sfixed64_round_trip(v: i64, tail: Seq<u8>)
    ensures
        scalar::sfixed64(v.encode() + tail) == Step::ok(v, 8),
{
    v.lemma_round_trip();
    vstd::arithmetic::power2::lemma2_to64_rest();
    little_endian::lemma_le_value_bound(v.encode());
    lemma_fixed(v.encode(), 8, tail);
}

/// The 32-bit read is the 64-bit read with the upper half dropped: same errors,
/// same bytes taken.
pub proof fn law_varint32_is_low_half(s: Seq<u8>)
    ensures
        varint::varint32(s) == varint::varint64(s).map(|v: u64| (v % 0x1_0000_0000) as u32),
{
    match varint::varint(s).out {
        Ok(v) => {
            assert(v % 0x1_0000_0000 == (v % 0x1_0000_0000_0000_0000) % 0x1_0000_0000);
        },
        Err(_) => {},
    }
}

/// Decoding eight bytes at once agrees with reading them one by one, wherever
/// the varint is short enough for it.
pub proof fn law_branchless_agrees(s: Seq<u8>)
    requires
        s.len() >= 8,
    ensures
        branchless::short_varint32(s.take(8)) == match varint::varint32(s).out {
            Ok(v) => if varint::varint32(s).used <= 5 {
                Some((v, varint::varint32(s).used as usize))
            } else {
                None
            },
            Err(_) => None,
        },
        branchless::short_varint64(s.take(8)) == match varint::varint64(s).out {
            Ok(v) => if varint::varint64(s).used <= 8 {
                Some((v, varint::varint64(s).used as usize))
            } else {
                None
            },
            Err(_) => None,
        },
{
    let t = s.take(8);
    let run = varint::continuation_run(t);
    varint::lemma_run(t);
    assert forall|i: int| 0 <= i < run implies s[i] >= 0x80 by {
        assert(s[i] == t[i]);
    }
    if run < 8 {
        assert(s[run as int] == t[run as int]);
        varint::lemma_ends(s, run);
        varint::lemma_groups_eq(s, t, run + 1);
        varint::lemma_groups_small(s, run + 1);
    } else {
        varint::lemma_run_reaches(s, 8);
    }
}

/// Reading a 32-bit varint one byte at a time gives what `read_varint32` gives on
/// the same bytes, and leaves an equal reader.
pub proof fn law_varint32_slow_agrees(bytes: &[u8])
    ensures
        forall|fast: &mut BytesReader, slow: &mut BytesReader, a: Result<u32>, b: Result<u32>|
            {
                &&& *fast == *slow
                &&& #[trigger] call_ensures(BytesReader::read_varint32, (fast, bytes), a)
                &&& #[trigger] call_ensures(BytesReader::read_varint32_slow, (slow, bytes), b)
            } ==> a == b && *final(fast) == *final(slow),
{
    assert forall|fast: &mut BytesReader, slow: &mut BytesReader, a: Result<u32>, b: Result<u32>|
        {
            &&& *fast == *slow
            &&& #[trigger] call_ensures(BytesReader::read_varint32, (fast, bytes), a)
            &&& #[trigger] call_ensures(BytesReader::read_varint32_slow, (slow, bytes), b)
        } implies a == b && *final(fast) == *final(slow) by {
        final(fast).law_same_cursor(*final(slow));
    }
}

/// Reading a 64-bit varint one byte at a time gives what `read_varint64` gives on
/// the same bytes, and leaves an equal reader.
pub proof fn law_varint64_slow_agrees(bytes: &[u8])
    ensures
        forall|fast: &mut BytesReader, slow: &mut BytesReader, a: Result<u64>, b: Result<u64>|
            {
                &&& *fast == *slow
                &&& #[trigger] call_ensures(BytesReader::read_varint64, (fast, bytes), a)
                &&& #[trigger] call_ensures(BytesReader::read_varint64_slow, (slow, bytes), b)
            } ==> a == b && *final(fast) == *final(slow),
{
    assert forall|fast: &mut BytesReader, slow: &mut BytesReader, a: Result<u64>, b: Result<u64>|
        {
            &&& *fast == *slow
            &&& #[trigger] call_ensures(BytesReader::read_varint64, (fast, bytes), a)
            &&& #[trigger] call_ensures(BytesReader::read_varint64_slow, (slow, bytes), b)
        } implies a == b && *final(fast) == *final(slow) by {
        final(fast).law_same_cursor(*final(slow));
    }
}

/// A number that does not fit `k` groups takes more than `k` bytes.
pub(crate) proof fn lemma_encoded_long(v: nat, k: nat)
    requires
        v >= vstd::arithmetic::power2::pow2(7 * k),
    ensures
        encode::encoded(v).len() > k,
    decreases k,
{
    if k > 0 {
        vstd::arithmetic::power2::lemma2_to64();
        vstd::arithmetic::power2::lemma_pow2_adds(7, (7 * (k - 1)) as nat);
        vstd::arithmetic::power2::lemma_pow2_pos((7 * (k - 1)) as nat);
        lemma_encoded_long(v / 128, (k - 1) as nat);
    }
}

/// A negative `int32` takes ten bytes, and is too long to be decoded eight bytes
/// at once.
pub proof fn law_negative_int32_is_long(v: i32)
    requires
        v < 0,
    ensures
        encode::encoded_i32(v).len() == 10,
        branchless::short_varint32(encode::encoded_i32(v).take(8)) is None,
        branchless::short_varint64(encode::encoded_i32(v).take(8)) is None,
{
    let wide = (v + 0x1_0000_0000_0000_0000) as nat;
    let s = encode::encoded(wide);
    vstd::arithmetic::power2::lemma2_to64_rest();
    lemma_fits_varint(wide);
    lemma_encoded(wide, 10);
    lemma_encoded_long(wide, 9);
    assert forall|i: int| 0 <= i < 8 implies s.take(8)[i] >= 0x80 by {
        assert(s.take(8)[i] == s[i]);
    }
    varint::lemma_run_reaches(s.take(8), 8);
}

/// No read goes beyond the bytes it may read, so that a position that does not
/// lie behind the end never gets there.
pub proof fn law_reads_stay_inside(c: Cursor, bytes: Seq<u8>, tag: u32)
    requires
        c.start <= c.end <= bytes.len(),
    ensures
        ({
            let w = c.window(bytes);
            let room = c.end - c.start;
            &&& cursor::byte(w).used <= room
            &&& varint::varint32(w).used <= room
            &&& varint::varint64(w).used <= room
            &&& scalar::fixed32(w).used <= room
            &&& scalar::fixed64(w).used <= room
            &&& field::unknown(w, tag).used <= room
            &&& field::body(c, bytes).used <= room
            &&& field::body(c, bytes).out matches Ok(b) ==> c.start < b.start <= b.end <= c.end
        }),
{
    varint::lemma_run(c.window(bytes));
}

/// Whether the steps of the reads stay within the window, and the window is all
/// that is within reach.
spec fn steps_move(c: Cursor, bytes: Seq<u8>) -> bool {
    &&& c.reach(bytes) == c.window(bytes)
    &&& c.window(bytes).len() == c.end - c.start
    &&& varint::varint(c.window(bytes)).used <= c.end - c.start
    &&& field::body(c, bytes).used <= c.end - c.start
    &&& field::body(c, bytes).out matches Ok(b) ==> c.start < b.start <= b.end <= c.end
}

/// So it is of every cursor within the bytes.
proof fn lemma_steps_move(c: Cursor, bytes: Seq<u8>)
    requires
        c.within(bytes),
    ensures
        steps_move(c, bytes),
{
    varint::lemma_run(c.window(bytes));
}

/// No read of a number, failed or not, moves the end, or moves the position back
/// or beyond the end.
pub proof fn law_number_reads_move_on(bytes: &[u8])
    ensures
        forall|r: &mut BytesReader, out: Result<u32>|
            r@.within(bytes@) && #[trigger] call_ensures(
                BytesReader::next_tag,
                (r, bytes),
                out,
            ) ==> r@.moves_to(final(r)@),
        forall|r: &mut BytesReader, out: Result<u8>|
            r@.within(bytes@) && #[trigger] call_ensures(
                BytesReader::read_u8,
                (r, bytes),
                out,
            ) ==> r@.moves_to(final(r)@),
        forall|r: &mut BytesReader, out: Result<u32>|
            r@.within(bytes@) && #[trigger] call_ensures(
                BytesReader::read_varint32,
                (r, bytes),
                out,
            ) ==> r@.moves_to(final(r)@),
        forall|r: &mut BytesReader, out: Result<u32>|
            r@.within(bytes@) && #[trigger] call_ensures(
                BytesReader::read_varint32_slow,
                (r, bytes),
                out,
            ) ==> r@.moves_to(final(r)@),
        forall|r: &mut BytesReader, out: Result<u64>|
            r@.within(bytes@) && #[trigger] call_ensures(
                BytesReader::read_varint64,
                (r, bytes),
                out,
            ) ==> r@.moves_to(final(r)@),
        forall|r: &mut BytesReader, out: Result<u64>|
            r@.within(bytes@) && #[trigger] call_ensures(
                BytesReader::read_varint64_slow,
                (r, bytes),
                out,
            ) ==> r@.moves_to(final(r)@),
        forall|r: &mut BytesReader, out: Result<i32>|
            r@.within(bytes@) && #[trigger] call_ensures(
                BytesReader::read_int32,
                (r, bytes),
                out,
            ) ==> r@.moves_to(final(r)@),
        forall|r: &mut BytesReader, out: Result<i64>|
            r@.within(bytes@) && #[trigger] call_ensures(
                BytesReader::read_int64,
                (r, bytes),
                out,
            ) ==> r@.moves_to(final(r)@),
        forall|r: &mut BytesReader, out: Result<u32>|
            r@.within(bytes@) && #[trigger] call_ensures(
                BytesReader::read_uint32,
                (r, bytes),
                out,
            ) ==> r@.moves_to(final(r)@),
        forall|r: &mut BytesReader, out: Result<u64>|
            r@.within(bytes@) && #[trigger] call_ensures(
                BytesReader::read_uint64,
                (r, bytes),
                out,
            ) ==> r@.moves_to(final(r)@),
        forall|r: &mut BytesReader, out: Result<i32>|
            r@.within(bytes@) && #[trigger] call_ensures(
                BytesReader::read_sint32,
                (r, bytes),
                out,
            ) ==> r@.moves_to(final(r)@),
        forall|r: &mut BytesReader, out: Result<i64>|
            r@.within(bytes@) && #[trigger] call_ensures(
                BytesReader::read_sint64,
                (r, bytes),
                out,
            ) ==> r@.moves_to(final(r)@),
        forall|r: &mut BytesReader, out: Result<u32>|
            r@.within(bytes@) && #[trigger] call_ensures(
                BytesReader::read_fixed32,
                (r, bytes),
                out,
            ) ==> r@.moves_to(final(r)@),
        forall|r: &mut BytesReader, out: Result<u64>|
            r@.within(bytes@) && #[trigger] call_ensures(
                BytesReader::read_fixed64,
                (r, bytes),
                out,
            ) ==> r@.moves_to(final(r)@),
        forall|r: &mut BytesReader, out: Result<i32>|
            r@.within(bytes@) && #[trigger] call_ensures(
                BytesReader::read_sfixed32,
                (r, bytes),
                out,
            ) ==> r@.moves_to(final(r)@),
        forall|r: &mut BytesReader, out: Result<i64>|
            r@.within(bytes@) && #[trigger] call_ensures(
                BytesReader::read_sfixed64,
                (r, bytes),
                out,
            ) ==> r@.moves_to(final(r)@),
        forall|r: &mut BytesReader, out: Result<bool>|
            r@.within(bytes@) && #[trigger] call_ensures(
                BytesReader::read_bool,
                (r, bytes),
                out,
            ) ==> r@.moves_to(final(r)@),
{
    assert forall|c: Cursor| #[trigger] c.within(bytes@) implies steps_move(c, bytes@) by {
        lemma_steps_move(c, bytes@);
    }
}

/// No read of a field without a callback, failed or not, moves the end, or moves
/// the position back or beyond the end; nor does skipping a field.
pub proof fn law_field_reads_move_on<'a, E: From<i32>, T: FixedWidth>(bytes: &'a [u8])
    ensures
        forall|r: &mut BytesReader, out: Result<E>|
            r@.within(bytes@) && #[trigger] call_ensures(
                BytesReader::read_enum::<E>,
                (r, bytes),
                out,
            ) ==> r@.moves_to(final(r)@),
        forall|r: &mut BytesReader, out: Result<&'a [u8]>|
            r@.within(bytes@) && #[trigger] call_ensures(
                BytesReader::read_bytes,
                (r, bytes),
                out,
            ) ==> r@.moves_to(final(r)@),
        forall|r: &mut BytesReader, out: Result<&'a str>|
            r@.within(bytes@) && #[trigger] call_ensures(
                BytesReader::read_string,
                (r, bytes),
                out,
            ) ==> r@.moves_to(final(r)@),
        forall|r: &mut BytesReader, out: Result<Vec<i32>>|
            r@.within(bytes@) && #[trigger] call_ensures(
                BytesReader::read_packed_int32,
                (r, bytes),
                out,
            ) ==> r@.moves_to(final(r)@),
        forall|r: &mut BytesReader, out: Result<PackedFixed<'a, T>>|
            r@.within(bytes@) && #[trigger] call_ensures(
                BytesReader::read_packed_fixed::<T>,
                (r, bytes),
                out,
            ) ==> r@.moves_to(final(r)@),
        forall|r: &mut BytesReader, out: Result<()>, tag: u32|
            r@.within(bytes@) && #[trigger] call_ensures(
                BytesReader::read_unknown,
                (r, bytes, tag),
                out,
            ) ==> r@.moves_to(final(r)@),
{
    assert forall|c: Cursor| #[trigger] c.within(bytes@) implies steps_move(c, bytes@) by {
        lemma_steps_move(c, bytes@);
    }
}

/// Moving to the end moves the position to the end, and the end nowhere.
pub proof fn law_read_to_end_moves_on(bytes: Seq<u8>)
    ensures
        forall|r: &mut BytesReader|
            r@.within(bytes) && #[trigger] call_ensures(BytesReader::read_to_end, (r,), ())
                ==> r@.moves_to(final(r)@) && final(r)@.start == r@.end,
{
}

/// A read of an object with `read`, failed or not, moves the end nowhere, and the
/// position neither back nor beyond the end, if `read` moves its own reader no
/// other way.
pub proof fn law_read_len_varint_moves_on<'a, M, F>(bytes: &'a [u8], read: F) where
    F: FnOnce(&mut BytesReader, &'a [u8]) -> Result<M>,

    requires
        forall|r: &mut BytesReader, m: Result<M>|
            r@.within(bytes@) && #[trigger] call_ensures(read, (r, bytes), m) ==> r@.moves_to(
                final(r)@,
            ),
    ensures
        forall|r: &mut BytesReader, out: Result<M>|
            r@.within(bytes@) && #[trigger] call_ensures(
                BytesReader::read_len_varint::<M, F>,
                (r, bytes, read),
                out,
            ) ==> r@.moves_to(final(r)@),
{
    assert forall|r: &mut BytesReader, out: Result<M>|
        r@.within(bytes@) && #[trigger] call_ensures(
            BytesReader::read_len_varint::<M, F>,
            (r, bytes, read),
            out,
        ) implies r@.moves_to(final(r)@) by {
        lemma_steps_move(r@, bytes@);
    }
}

/// A read of a message, with its length in front or not, moves the end nowhere, and
/// the position neither back nor beyond the end, if the message moves its own
/// reader no other way.
pub proof fn law_message_reads_move_on<'a, M: MessageRead<'a>>(bytes: &'a [u8])
    requires
        forall|r: &mut BytesReader, m: Result<M>|
            r@.within(bytes@) && #[trigger] call_ensures(M::from_reader, (r, bytes), m)
                ==> r@.moves_to(final(r)@),
    ensures
        forall|r: &mut BytesReader, out: Result<M>|
            r@.within(bytes@) && #[trigger] call_ensures(
                BytesReader::read_message::<M>,
                (r, bytes),
                out,
            ) ==> r@.moves_to(final(r)@),
        forall|r: &mut BytesReader, len: usize, out: Result<M>|
            r@.within(bytes@) && #[trigger] call_ensures(
                BytesReader::read_message_by_len::<M>,
                (r, bytes, len),
                out,
            ) ==> r@.moves_to(final(r)@),
{
    assert forall|r: &mut BytesReader, out: Result<M>|
        r@.within(bytes@) && #[trigger] call_ensures(
            BytesReader::read_message::<M>,
            (r, bytes),
            out,
        ) implies r@.moves_to(final(r)@) by {
        lemma_steps_move(r@, bytes@);
    }
}

/// Steps that each move on from within the bytes move on as a whole.
proof fn lemma_chain_moves(at: Seq<Cursor>, bytes: Seq<u8>, i: int, j: int)
    requires
        0 <= i <= j < at.len(),
        at[i].within(bytes),
        forall|k: int|
            0 <= k < at.len() - 1 && (#[trigger] at[k]).within(bytes) ==> at[k].moves_to(
                at[k + 1],
            ),
    ensures
        at[i].moves_to(at[j]),
        at[j].within(bytes),
    decreases j - i,
{
    if i < j {
        lemma_chain_moves(at, bytes, i, j - 1);
        assert(at[j - 1].moves_to(at[j - 1 + 1]));
    }
}

/// A trace of reads that each move on moves on as a whole.
proof fn lemma_traces_move<M>(bytes: Seq<u8>)
    ensures
        forall|t: Trace<M>, body: Cursor, out: Result<Vec<M>>|
            {
                &&& #[trigger] t.collects(body, out)
                &&& body.within(bytes)
                &&& forall|i: int| #[trigger]
                    t.has(i) && t.at[i].within(bytes) ==> t.at[i].moves_to(t.at[i + 1])
            } ==> body.moves_to(t.at.last()),
{
    assert forall|t: Trace<M>, body: Cursor, out: Result<Vec<M>>|
        {
            &&& #[trigger] t.collects(body, out)
            &&& body.within(bytes)
            &&& forall|i: int| #[trigger]
                t.has(i) && t.at[i].within(bytes) ==> t.at[i].moves_to(t.at[i + 1])
        } implies body.moves_to(t.at.last()) by {
        assert forall|k: int|
            0 <= k < t.at.len() - 1 && (#[trigger] t.at[k]).within(
                bytes,
            ) implies t.at[k].moves_to(t.at[k + 1]) by {
            assert(t.has(k));
        }
        lemma_chain_moves(t.at, bytes, 0, t.at.len() - 1);
    }
}

/// The reading of a map entry whose rounds each move on moves on as a whole.
proof fn lemma_entries_move<K, V>(bytes: Seq<u8>)
    ensures
        forall|t: EntryTrace<K, V>, body: Cursor|
            {
                &&& #[trigger] t.covers(body, bytes)
                &&& body.within(bytes)
                &&& forall|i: int| #[trigger]
                    t.has(i) && t.parts[i] !is Other ==> t.at[i].advance(1).moves_to(t.at[i + 1])
            } ==> body.moves_to(t.at.last()),
{
    assert forall|t: EntryTrace<K, V>, body: Cursor|
        {
            &&& #[trigger] t.covers(body, bytes)
            &&& body.within(bytes)
            &&& forall|i: int| #[trigger]
                t.has(i) && t.parts[i] !is Other ==> t.at[i].advance(1).moves_to(t.at[i + 1])
        } implies body.moves_to(t.at.last()) by {
        assert forall|k: int|
            0 <= k < t.at.len() - 1 && (#[trigger] t.at[k]).within(
                bytes,
            ) implies t.at[k].moves_to(t.at[k + 1]) by {
            assert(t.has(k));
        }
        lemma_chain_moves(t.at, bytes, 0, t.at.len() - 1);
    }
}

/// A read of a packed field with `read`, failed or not, moves the end nowhere, and
/// the position neither back nor beyond the end, if `read` moves its own reader no
/// other way.
pub proof fn law_read_packed_moves_on<'a, M, F>(bytes: &'a [u8], read: F) where
    F: FnMut(&mut BytesReader, &'a [u8]) -> Result<M>,

    requires
        forall|r: &mut BytesReader, m: Result<M>|
            r@.within(bytes@) && #[trigger] call_ensures(read, (r, bytes), m) ==> r@.moves_to(
                final(r)@,
            ),
    ensures
        forall|r: &mut BytesReader, out: Result<Vec<M>>|
            r@.within(bytes@) && #[trigger] call_ensures(
                BytesReader::read_packed::<M, F>,
                (r, bytes, read),
                out,
            ) ==> r@.moves_to(final(r)@),
{
    lemma_traces_move::<M>(bytes@);
    assert forall|r: &mut BytesReader, out: Result<Vec<M>>|
        r@.within(bytes@) && #[trigger] call_ensures(
            BytesReader::read_packed::<M, F>,
            (r, bytes, read),
            out,
        ) implies r@.moves_to(final(r)@) by {
        lemma_steps_move(r@, bytes@);
    }
}

/// A read of a map entry with `read_key` and `read_val`, failed or not, moves the
/// end nowhere, and the position neither back nor beyond the end, if the two move
/// their own reader no other way.
pub proof fn law_read_map_moves_on<'a, K: Default, V: Default, F, G>(
    bytes: &'a [u8],
    read_key: F,
    read_val: G,
) where
    F: FnMut(&mut BytesReader, &'a [u8]) -> Result<K>,
    G: FnMut(&mut BytesReader, &'a [u8]) -> Result<V>,

    requires
        forall|r: &mut BytesReader, k: Result<K>|
            r@.within(bytes@) && #[trigger] call_ensures(read_key, (r, bytes), k) ==> r@.moves_to(
                final(r)@,
            ),
        forall|r: &mut BytesReader, v: Result<V>|
            r@.within(bytes@) && #[trigger] call_ensures(read_val, (r, bytes), v) ==> r@.moves_to(
                final(r)@,
            ),
    ensures
        forall|r: &mut BytesReader, out: Result<(K, V)>|
            r@.within(bytes@) && #[trigger] call_ensures(
                BytesReader::read_map::<K, V, F, G>,
                (r, bytes, read_key, read_val),
                out,
            ) ==> r@.moves_to(final(r)@),
{
    lemma_entries_move::<K, V>(bytes@);
    assert forall|r: &mut BytesReader, out: Result<(K, V)>|
        r@.within(bytes@) && #[trigger] call_ensures(
            BytesReader::read_map::<K, V, F, G>,
            (r, bytes, read_key, read_val),
            out,
        ) implies r@.moves_to(final(r)@) by {
        lemma_steps_move(r@, bytes@);
    }
}

/// Over any sequence of calls on a reader of all of `bytes`, each of which moves on
/// where it finds the reader within `bytes`, failed or not: the end stays the end of
/// `bytes`, the position never goes down and never passes the end, and what is left
/// is counted by the position alone.
///
/// `at` holds the cursor before each call and behind the last. That a call moves on
/// is what the laws on the single reads state. A callback that only makes such calls
/// moves on, too, since its calls are a sequence of this kind.
pub proof fn law_call_sequences_keep_the_end(at: Seq<Cursor>, bytes: Seq<u8>)
    requires
        at.len() > 0,
        at[0] == (Cursor { start: 0, end: bytes.len() }),
        forall|k: int|
            0 <= k < at.len() - 1 && (#[trigger] at[k]).within(bytes) ==> at[k].moves_to(
                at[k + 1],
            ),
    ensures
        forall|j: int|
            0 <= j < at.len() ==> {
                &&& (#[trigger] at[j]).end == bytes.len()
                &&& at[j].start <= at[j].end
                &&& at[j].window(bytes).len() == bytes.len() - at[j].start
                &&& at[j].start == at[j].end <==> at[j].window(bytes).len() == 0
            },
        forall|i: int, j: int|
            0 <= i <= j < at.len() ==> (#[trigger] at[i]).start <= (#[trigger] at[j]).start,
{
    assert forall|j: int| 0 <= j < at.len() implies (#[trigger] at[j]).within(bytes) && at[j].end
        == bytes.len() by {
        lemma_chain_moves(at, bytes, 0, j);
    }
    assert forall|i: int, j: int| 0 <= i <= j < at.len() implies (#[trigger] at[i]).start <= (
    #[trigger] at[j]).start by {
        lemma_chain_moves(at, bytes, i, j);
    }
}

/// The same of any sequence of calls on a reader that a callback is handed: from
/// wherever it stands in `bytes`, the calls move it on as a whole.
pub proof fn law_call_sequences_move_on(at: Seq<Cursor>, bytes: Seq<u8>)
    requires
        at.len() > 0,
        at[0].within(bytes),
        forall|k: int|
            0 <= k < at.len() - 1 && (#[trigger] at[k]).within(bytes) ==> at[k].moves_to(
                at[k + 1],
            ),
    ensures
        at[0].moves_to(at.last()),
        at.last().within(bytes),
{
    lemma_chain_moves(at, bytes, 0, at.len() - 1);
}

/// A varint that is read takes between one byte and ten.
pub proof fn law_varint_progress(s: Seq<u8>)
    ensures
        varint::varint(s).out is Ok ==> 1 <= varint::varint(s).used <= varint::MAX_VARINT_LEN,
        varint::varint(s).out is Err ==> varint::varint(s).used <= varint::MAX_VARINT_LEN,
{
}

/// Where nothing is left there is no tag, no number and no field, and looking
/// for one takes nothing.
pub proof fn law_nothing_at_eof(c: Cursor, bytes: Seq<u8>)
    requires
        c.start == c.end,
    ensures
        c.window(bytes).len() == 0,
        cursor::byte(c.window(bytes)) == Step::<u8>::err(Error::UnexpectedEndOfBuffer, 0),
        varint::varint32(c.window(bytes)) == Step::<u32>::err(Error::UnexpectedEndOfBuffer, 0),
        varint::varint64(c.window(bytes)) == Step::<u64>::err(Error::UnexpectedEndOfBuffer, 0),
        scalar::fixed32(c.reach(bytes)) == Step::<u32>::err(Error::UnexpectedEndOfBuffer, 0),
        scalar::fixed64(c.reach(bytes)) == Step::<u64>::err(Error::UnexpectedEndOfBuffer, 0),
        field::body(c, bytes) == Step::<Cursor>::err(Error::UnexpectedEndOfBuffer, 0),
{
    varint::lemma_cut_short(c.window(bytes));
}

/// Skipping a field of a scalar wire type takes exactly the bytes that reading
/// it takes, and goes through exactly if reading it does.
pub proof fn law_unknown_skips_scalars(s: Seq<u8>, tag: u32)
    ensures
        tag % 8 == field::WIRE_TYPE_VARINT ==> {
            &&& field::unknown(s, tag).used == varint::varint64(s).used
            &&& field::unknown(s, tag).used == varint::varint32(s).used
            &&& field::unknown(s, tag).out is Ok <==> varint::varint64(s).out is Ok
        },
        tag % 8 == field::WIRE_TYPE_FIXED64 ==> {
            &&& field::unknown(s, tag).used == scalar::fixed64(s).used
            &&& field::unknown(s, tag).out is Ok <==> scalar::fixed64(s).out is Ok
        },
        tag % 8 == field::WIRE_TYPE_FIXED32 ==> {
            &&& field::unknown(s, tag).used == scalar::fixed32(s).used
            &&& field::unknown(s, tag).out is Ok <==> scalar::fixed32(s).out is Ok
        },
{
}

/// Skipping a length-delimited field leads to where reading it leads, and goes
/// through exactly if reading it does, for lengths of at most 32 bits.
pub proof fn law_unknown_skips_delimited(c: Cursor, bytes: Seq<u8>, tag: u32)
    requires
        c.start <= c.end <= bytes.len(),
        tag % 8 == field::WIRE_TYPE_LENGTH_DELIMITED,
        varint::varint64(c.window(bytes)).out matches Ok(len) ==> len <= u32::MAX,
    ensures
        ({
            let skipped = field::unknown(c.window(bytes), tag);
            let read = field::body(c, bytes);
            &&& skipped.out is Ok <==> read.out is Ok
            &&& match read.out {
                Ok(body) => c.advance(skipped.used) == field::behind(c, body),
                Err(_) => skipped.used == read.used,
            }
        }),
{
    law_varint32_is_low_half(c.window(bytes));
}

/// A field that is read moves the position on, so that a stream of fields comes
/// to its end.
pub proof fn law_fields_progress(c: Cursor, bytes: Seq<u8>)
    ensures
        field::body(c, bytes).out matches Ok(body) ==> c.start < field::behind(c, body).start
            <= c.end,
{
    field::lemma_body(c, bytes);
}

/// What was written as a run of `int32`s is read back as that run.
pub proof fn law_int32s_round_trip(values: Seq<i32>)
    ensures
        repeated::int32s(encode::encoded_i32s(values)) == Ok::<Seq<i32>, Error>(values),
    decreases values.len(),
{
    if values.len() == 0 {
        assert(values =~= Seq::empty());
    } else {
        let a = encode::encoded_i32s(values.drop_last());
        let b = encode::encoded_i32(values.last());
        law_int32s_round_trip(values.drop_last());
        law_int32_round_trip(values.last(), Seq::empty());
        assert(b + Seq::<u8>::empty() =~= b);
        repeated::lemma_int32s_push(a, b);
        assert(values.drop_last().push(values.last()) =~= values);
    }
}

/// A length-delimited field that was written with its length in front is read
/// back as its content, and the position afterwards is behind it. The length has
/// to fit 32 bits.
pub proof fn law_delimited_round_trip(
    c: Cursor,
    bytes: Seq<u8>,
    content: Seq<u8>,
    tail: Seq<u8>,
)
    requires
        content.len() <= u32::MAX,
        c.start <= c.end <= bytes.len(),
        c.window(bytes) == encode::encoded(content.len()) + content + tail,
    ensures
        field::body(c, bytes).out matches Ok(body) && {
            &&& body.window(bytes) == content
            &&& field::behind(c, body) == c.advance(
                encode::encoded(content.len()).len() + content.len(),
            )
        },
{
    let prefix = encode::encoded(content.len());
    let w = c.window(bytes);
    assert(w =~= prefix + (content + tail));
    law_uint32_round_trip(content.len() as u32, content + tail);
    let body = field::body(c, bytes).out->Ok_0;
    assert(body.window(bytes) =~= w.subrange(
        prefix.len() as int,
        (prefix.len() + content.len()) as int,
    ));
    assert(body.window(bytes) =~= content);
}

/// A string that was written with its length in front is read back as it was.
pub proof fn law_string_round_trip(c: Cursor, bytes: Seq<u8>, text: Seq<char>, tail: Seq<u8>)
    requires
        vstd::utf8::encode_utf8(text).len() <= u32::MAX,
        c.start <= c.end <= bytes.len(),
        ({
            let content = vstd::utf8::encode_utf8(text);
            c.window(bytes) == encode::encoded(content.len()) + content + tail
        }),
    ensures
        field::body(c, bytes).out matches Ok(body) && {
            &&& vstd::utf8::valid_utf8(body.window(bytes))
            &&& vstd::utf8::decode_utf8(body.window(bytes)) == text
        },
{
    law_delimited_round_trip(c, bytes, vstd::utf8::encode_utf8(text), tail);
    vstd::utf8::encode_utf8_valid_utf8(text);
    vstd::utf8::encode_utf8_decode_utf8(text);
}

/// A packed `int32` field that was built from `values` holds `values`, and ends
/// where it was built to end. Its payload has to fit a 32-bit length.
pub proof fn law_packed_int32_round_trip(
    c: Cursor,
    bytes: Seq<u8>,
    values: Seq<i32>,
    tail: Seq<u8>,
)
    requires
        encode::encoded_i32s(values).len() <= u32::MAX,
        c.start <= c.end <= bytes.len(),
        c.window(bytes) == encode::built_packed_int32(values) + tail,
    ensures
        field::body(c, bytes).out matches Ok(body) && {
            &&& repeated::int32s(body.window(bytes)) == Ok::<Seq<i32>, Error>(values)
            &&& field::behind(c, body) == c.advance(encode::built_packed_int32(values).len())
        },
{
    law_delimited_round_trip(c, bytes, encode::encoded_i32s(values), tail);
    law_int32s_round_trip(values);
}

/// Reads of `int32`s never leave the body they started in.
proof fn lemma_trace_inside(bytes: Seq<u8>, body: Cursor, t: Trace<i32>, j: nat)
    requires
        body.start <= body.end <= bytes.len(),
        t.at.len() == t.outs.len() + 1,
        t.at[0] == body,
        forall|i: int| #[trigger]
            t.has(i) ==> scalar::int32(t.at[i].window(bytes)).done(
                t.at[i],
                t.at[i + 1],
                t.outs[i],
            ),
        j <= t.outs.len(),
    ensures
        t.at[j as int].end == body.end,
        t.at[j as int].start <= body.end,
    decreases j,
{
    if j > 0 {
        lemma_trace_inside(bytes, body, t, (j - 1) as nat);
        assert(t.has(j - 1));
        varint::lemma_run(t.at[j - 1].window(bytes));
    }
}

/// From read number `j` on, the reads give the `int32`s that are left.
proof fn lemma_trace_tail(
    bytes: Seq<u8>,
    body: Cursor,
    t: Trace<i32>,
    out: Result<Vec<i32>>,
    j: nat,
)
    requires
        body.start <= body.end <= bytes.len(),
        t.collects(body, out),
        forall|i: int| #[trigger]
            t.has(i) ==> scalar::int32(t.at[i].window(bytes)).done(
                t.at[i],
                t.at[i + 1],
                t.outs[i],
            ),
        j <= t.outs.len(),
        out is Err ==> j < t.outs.len(),
    ensures
        match out {
            Ok(v) => repeated::int32s(t.at[j as int].window(bytes)) == Ok::<Seq<i32>, Error>(
                v@.skip(j as int),
            ),
            Err(error) => repeated::int32s(t.at[j as int].window(bytes)) == Err::<Seq<i32>, Error>(
                error,
            ),
        },
    decreases t.outs.len() - j,
{
    let w = t.at[j as int].window(bytes);
    lemma_trace_inside(bytes, body, t, j);
    if j < t.outs.len() {
        assert(t.has(j as int));
        let used = scalar::int32(w).used;
        varint::lemma_run(w);
        cursor::lemma_window_advance(t.at[j as int], bytes, used);
        if t.outs[j as int] is Ok {
            lemma_trace_tail(bytes, body, t, out, j + 1);
            match out {
                Ok(v) => {
                    assert(seq![v@[j as int]] + v@.skip((j + 1) as int) =~= v@.skip(j as int));
                },
                Err(_) => {},
            }
        }
    } else {
        match out {
            Ok(v) => {
                assert(v@.skip(j as int) =~= Seq::empty());
            },
            Err(_) => {},
        }
    }
}

/// Reading a packed field with `read_int32` gives what `read_packed_int32` gives
/// for it, and both end where the field ends.
pub proof fn law_packed_int32_is_packed_read_int32(
    bytes: &[u8],
    body: Cursor,
    t: Trace<i32>,
    out: Result<Vec<i32>>,
)
    requires
        body.start <= body.end <= bytes@.len(),
        t.collects(body, out),
        forall|i: int| #[trigger]
            t.has(i) ==> exists|r: &mut BytesReader|
                r@ == t.at[i] && final(r)@ == t.at[i + 1] && #[trigger] call_ensures(
                    BytesReader::read_int32,
                    (r, bytes),
                    t.outs[i],
                ),
    ensures
        t.at.last().end == body.end,
        match repeated::int32s(body.window(bytes@)) {
            Ok(values) => out matches Ok(v) && v@ == values,
            Err(error) => out == Err::<Vec<i32>, Error>(error),
        },
{
    assert forall|i: int| #[trigger] t.has(i) implies scalar::int32(t.at[i].window(bytes@)).done(
        t.at[i],
        t.at[i + 1],
        t.outs[i],
    ) by {}
    lemma_trace_inside(bytes@, body, t, t.outs.len());
    lemma_trace_tail(bytes@, body, t, out, 0);
    match out {
        Ok(v) => {
            assert(v@.skip(0) =~= v@);
        },
        Err(_) => {},
    }
}

/// Sequences of bytes, one after the other.
pub open spec fn joined(chunks: Seq<Seq<u8>>) -> Seq<u8>
    decreases chunks.len(),
{
    if chunks.len() == 0 {
        Seq::empty()
    } else {
        chunks[0] + joined(chunks.skip(1))
    }
}

/// After `j` reads the first `j` chunks have given their values, and the others
/// are left.
proof fn lemma_packed_chunks<M>(
    t: Trace<M>,
    body: Cursor,
    bytes: Seq<u8>,
    out: Result<Vec<M>>,
    read: spec_fn(Seq<u8>) -> Step<M>,
    chunks: Seq<Seq<u8>>,
    values: Seq<M>,
    j: nat,
)
    requires
        body.start <= body.end <= bytes.len(),
        t.collects(body, out),
        forall|i: int| #[trigger]
            t.has(i) ==> read(t.at[i].window(bytes)).done(t.at[i], t.at[i + 1], t.outs[i]),
        chunks.len() == values.len(),
        forall|i: int, tail: Seq<u8>|
            0 <= i < chunks.len() ==> #[trigger] read(chunks[i] + tail) == Step::ok(
                values[i],
                chunks[i].len(),
            ),
        forall|i: int| 0 <= i < chunks.len() ==> (#[trigger] chunks[i]).len() > 0,
        body.window(bytes) == joined(chunks),
        j <= chunks.len(),
    ensures
        j <= t.outs.len(),
        t.at[j as int].start <= t.at[j as int].end == body.end,
        t.at[j as int].window(bytes) == joined(chunks.skip(j as int)),
        forall|i: int| 0 <= i < j ==> #[trigger] t.outs[i] == Ok::<M, Error>(values[i]),
    decreases j,
{
    if j == 0 {
        assert(chunks.skip(0) =~= chunks);
    } else {
        let h = (j - 1) as nat;
        lemma_packed_chunks(t, body, bytes, out, read, chunks, values, h);
        let at = t.at[h as int];
        let left = chunks.skip(h as int);
        assert(left[0] == chunks[h as int]);
        assert(left.skip(1) =~= chunks.skip(j as int));
        assert(at.window(bytes) == chunks[h as int] + joined(chunks.skip(j as int)));
        assert(t.outs.len() == h ==> t.at.last() == at);
        assert(t.has(h as int));
        cursor::lemma_window_advance(at, bytes, chunks[h as int].len());
        assert(at.window(bytes).skip(chunks[h as int].len() as int) =~= joined(
            chunks.skip(j as int),
        ));
    }
}

/// A packed field whose elements were written back to back is read back as these
/// elements.
///
/// `read` stands for what the element read does on the bytes that are left, and
/// `values` for what it gives for each of `chunks`.
pub proof fn law_packed_round_trip<M>(
    t: Trace<M>,
    body: Cursor,
    bytes: Seq<u8>,
    out: Result<Vec<M>>,
    read: spec_fn(Seq<u8>) -> Step<M>,
    chunks: Seq<Seq<u8>>,
    values: Seq<M>,
)
    requires
        body.start <= body.end <= bytes.len(),
        t.collects(body, out),
        forall|i: int| #[trigger]
            t.has(i) ==> read(t.at[i].window(bytes)).done(t.at[i], t.at[i + 1], t.outs[i]),
        chunks.len() == values.len(),
        forall|i: int, tail: Seq<u8>|
            0 <= i < chunks.len() ==> #[trigger] read(chunks[i] + tail) == Step::ok(
                values[i],
                chunks[i].len(),
            ),
        forall|i: int| 0 <= i < chunks.len() ==> (#[trigger] chunks[i]).len() > 0,
        body.window(bytes) == joined(chunks),
    ensures
        out matches Ok(v) && v@ == values,
        t.at.last().end == body.end,
{
    let n = chunks.len();
    lemma_packed_chunks(t, body, bytes, out, read, chunks, values, n);
    assert(chunks.skip(n as int) =~= Seq::empty());
    assert(t.at[n as int].window(bytes).len() == 0);
    if t.outs.len() > n {
        assert(t.has(n as int));
        assert(t.at[n as int].start < t.at[n as int].end);
    }
    match out {
        Ok(v) => {
            assert forall|i: int| 0 <= i < n implies v@[i] == values[i] by {
                assert(t.outs[i] == Ok::<M, Error>(v@[i]));
            }
            assert(v@ =~= values);
        },
        Err(_) => {},
    }
}

/// Two buffers that agree between the position and the end are read alike,
/// whatever else they hold: nothing outside a message leaks into it.
pub proof fn law_only_the_window_counts(c: Cursor, a: Seq<u8>, b: Seq<u8>)
    requires
        c.start <= c.end <= a.len(),
        c.end <= b.len(),
        forall|i: int| c.start <= i < c.end ==> a[i] == b[i],
    ensures
        c.window(a) == c.window(b),
        c.reach(a) == c.reach(b),
        field::body(c, a) == field::body(c, b),
        field::body(c, a).out matches Ok(body) ==> body.window(a) == body.window(b),
{
    assert(c.window(a) =~= c.window(b));
    field::lemma_body(c, a);
    match field::body(c, a).out {
        Ok(body) => {
            assert(body.window(a) =~= body.window(b));
        },
        Err(_) => {},
    }
}

/// A map entry without content is the default key with the default value.
pub proof fn law_empty_map_entry<K, V>(
    t: EntryTrace<K, V>,
    body: Cursor,
    bytes: Seq<u8>,
    key: K,
    value: V,
    out: Result<(K, V)>,
)
    requires
        body.start == body.end,
        t.covers(body, bytes),
        t.gives(key, value, out),
    ensures
        out == Ok::<(K, V), Error>((key, value)),
{
    if t.parts.len() > 0 {
        assert(t.has(0));
    }
}

/// A map entry that was written, as a tag and a key and a tag and a value, is read
/// back as that key and that value.
///
/// `read_key` and `read_val` stand for what the two reads do on the bytes that
/// are left, and `k` and `v` for what they give for `key_bytes` and `val_bytes`.
pub proof fn law_map_entry_round_trip<K, V>(
    t: EntryTrace<K, V>,
    body: Cursor,
    bytes: Seq<u8>,
    key: K,
    value: V,
    out: Result<(K, V)>,
    read_key: spec_fn(Seq<u8>) -> Step<K>,
    read_val: spec_fn(Seq<u8>) -> Step<V>,
    key_tag: u8,
    key_bytes: Seq<u8>,
    k: K,
    val_tag: u8,
    val_bytes: Seq<u8>,
    v: V,
)
    requires
        body.start <= body.end <= bytes.len(),
        t.covers(body, bytes),
        t.gives(key, value, out),
        forall|i: int| #[trigger]
            t.has(i) ==> {
                let from = t.at[i].advance(1);
                match t.parts[i] {
                    Part::Key(got) => read_key(from.window(bytes)).done(from, t.at[i + 1], got),
                    Part::Value(got) => read_val(from.window(bytes)).done(from, t.at[i + 1], got),
                    Part::Other(_) => true,
                }
            },
        key_tag / 8 == 1,
        val_tag / 8 == 2,
        forall|tail: Seq<u8>| #[trigger]
            read_key(key_bytes + tail) == Step::ok(k, key_bytes.len()),
        read_val(val_bytes) == Step::ok(v, val_bytes.len()),
        body.window(bytes) == seq![key_tag] + key_bytes + seq![val_tag] + val_bytes,
    ensures
        out == Ok::<(K, V), Error>((k, v)),
        t.at.last().end == body.end,
{
    let w = body.window(bytes);
    let behind_key = seq![val_tag] + val_bytes;
    assert(w.len() == 2 + key_bytes.len() + val_bytes.len());
    assert(t.parts.len() == 0 ==> t.at.last() == body);
    assert(t.has(0));
    assert(w[0] == key_tag);
    cursor::lemma_window_advance(body, bytes, 1);
    assert(w.skip(1) =~= key_bytes + behind_key);
    assert(t.at[1] == body.advance(1 + key_bytes.len()));
    cursor::lemma_window_advance(body, bytes, 1 + key_bytes.len());
    assert(w.skip((1 + key_bytes.len()) as int) =~= behind_key);
    assert(t.has(1));
    assert(behind_key[0] == val_tag);
    cursor::lemma_window_advance(t.at[1], bytes, 1);
    assert(behind_key.skip(1) =~= val_bytes);
    assert(t.at[2] == t.at[1].advance(1 + val_bytes.len()));
    if t.parts.len() > 2 {
        assert(t.has(2));
    }
    assert(t.parts =~= seq![Part::Key(Ok(k)), Part::Value(Ok(v))]);
    assert(t.parts.drop_last() =~= seq![Part::Key(Ok(k))]);
    assert(entry::last_key(t.parts.drop_last(), key) == k);
}

/// Of several keys in a map entry the last counts, and so it is with values;
/// neither gets in the way of the other.
pub proof fn law_last_part_counts<K, V>(parts: Seq<Part<K, V>>, key: K, value: V, k: K, v: V)
    ensures
        entry::last_key(parts.push(Part::Key(Ok(k))), key) == k,
        entry::last_value(parts.push(Part::Key(Ok(k))), value) == entry::last_value(parts, value),
        entry::last_value(parts.push(Part::Value(Ok(v))), value) == v,
        entry::last_key(parts.push(Part::Value(Ok(v))), key) == entry::last_key(parts, key),
{
    assert(parts.push(Part::Key(Ok(k))).drop_last() =~= parts);
    assert(parts.push(Part::Value(Ok(v))).drop_last() =~= parts);
}

/// Nothing is left exactly if the position has reached the end.
pub proof fn law_eof_is_nothing_left(c: Cursor, bytes: Seq<u8>)
    requires
        c.start <= c.end <= bytes.len(),
    ensures
        c.start == c.end <==> c.window(bytes).len() == 0,
        c.window(bytes).len() == c.end - c.start,
{
}

/// Every number lies where its place among `values` says.
proof fn lemma_spelled_slots<T: FixedWidth>(values: Seq<T>)
    ensures
        packed::spelled(values).len() == values.len() * T::width(),
        forall|i: int|
            0 <= i < values.len() ==> #[trigger] packed::slot::<T>(packed::spelled(values), i)
                == values[i].encode(),
    decreases values.len(),
{
    T::lemma_fixed();
    let w = T::width();
    if values.len() == 0 {
        assert(0 * w == 0);
    } else {
        let front = values.drop_last();
        let last = values.last();
        let a = packed::spelled(front);
        let s = packed::spelled(values);
        lemma_spelled_slots(front);
        last.lemma_round_trip();
        assert(values.len() * w == front.len() * w + w) by (nonlinear_arith)
            requires
                values.len() == front.len() + 1,
        ;
        assert forall|i: int| 0 <= i < values.len() implies #[trigger] packed::slot::<T>(s, i)
            == values[i].encode() by {
            if i < front.len() {
                assert(i * w + w <= front.len() * w && 0 <= i * w) by (nonlinear_arith)
                    requires
                        0 <= i < front.len(),
                        w > 0,
                ;
                assert(packed::slot::<T>(s, i) =~= packed::slot::<T>(a, i));
                assert(values[i] == front[i]);
            } else {
                assert(packed::slot::<T>(s, i) =~= last.encode());
            }
        }
    }
}

/// Fixed-width numbers that were written back to back are read back as they
/// were.
pub proof fn law_packed_fixed_round_trip<T: FixedWidth>(values: Seq<T>)
    ensures
        packed::numbers::<T>(packed::spelled(values)) == values,
{
    T::lemma_fixed();
    let w = T::width();
    let s = packed::spelled(values);
    lemma_spelled_slots(values);
    assert(s.len() / w == values.len()) by (nonlinear_arith)
        requires
            s.len() == values.len() * w,
            w > 0,
    ;
    assert forall|i: int| 0 <= i < values.len() implies packed::numbers::<T>(s)[i] == values[i] by {
        assert(packed::slot::<T>(s, i) == values[i].encode());
        values[i].lemma_round_trip();
    }
    assert(packed::numbers::<T>(s) =~= values);
}

/// A fixed-width number that was read is written as the bytes it was read from.
pub proof fn law_fixed_bytes_round_trip<T: FixedWidth>(s: Seq<u8>)
    requires
        s.len() == T::width(),
    ensures
        T::decode(s).encode() == s,
{
    T::lemma_bytes_round_trip(s);
}

/// Raw bytes that make up whole numbers are kept bit by bit when they are taken
/// as numbers: the numbers spell out these bytes.
pub proof fn law_packed_bytes_round_trip<T: FixedWidth>(bytes: Seq<u8>)
    requires
        bytes.len() % T::width() == 0,
    ensures
        packed::spelled(packed::numbers::<T>(bytes)) == bytes,
{
    packed::lemma_numbers_spelled::<T>(bytes);
    assert(bytes.take(bytes.len() as int) =~= bytes);
}

/// A packed field of fixed-width numbers that was written with its length in
/// front is read back as these numbers.
pub proof fn law_packed_fixed_field_round_trip<T: FixedWidth>(
    c: Cursor,
    bytes: Seq<u8>,
    values: Seq<T>,
    tail: Seq<u8>,
)
    requires
        packed::spelled(values).len() <= u32::MAX,
        c.start <= c.end <= bytes.len(),
        ({
            let content = packed::spelled(values);
            c.window(bytes) == encode::encoded(content.len()) + content + tail
        }),
    ensures
        field::body(c, bytes).out matches Ok(body) && packed::numbers::<T>(body.window(bytes))
            == values,
{
    law_delimited_round_trip(c, bytes, packed::spelled(values), tail);
    law_packed_fixed_round_trip(values);
}

/// Two packed fields are equal exactly if their numbers are, in whichever form
/// they hold them.
pub proof fn law_packed_equality<'a, T: FixedWidth>(
    p: PackedFixed<'a, T>,
    q: PackedFixed<'a, T>,
)
    ensures
        p.eq_spec(&q) <==> p.elems() == q.elems(),
        p.eq_spec(&q) <==> q.eq_spec(&p),
{
}

/// There is no data exactly if there are no numbers, for bytes that make up
/// whole numbers.
pub proof fn law_no_data_is_no_numbers<'a, T: FixedWidth>(p: PackedFixed<'a, T>)
    requires
        p matches PackedFixed::Borrowed(bytes) ==> bytes@.len() % T::width() == 0,
    ensures
        p.without_data() <==> p.elems().len() == 0,
{
    T::lemma_fixed();
    match p {
        PackedFixed::Borrowed(bytes) => {
            let n = bytes@.len();
            let w = T::width();
            assert(n == 0 <==> n / w == 0) by (nonlinear_arith)
                requires
                    w > 0,
                    n % w == 0,
            ;
        },
        _ => {},
    }
}

/// Decodes a number of a fixed width.
pub open spec fn number<T: FixedWidth>(s: Seq<u8>) -> Step<T> {
    if s.len() < T::width() {
        Step::err(Error::UnexpectedEndOfBuffer, 0)
    } else {
        Step::ok(T::decode(s.take(T::width() as int)), T::width())
    }
}

/// The numbers in `s` are the first one and those behind it.
proof fn lemma_numbers_front<T: FixedWidth>(s: Seq<u8>)
    requires
        s.len() >= T::width(),
    ensures
        ({
            let w = T::width();
            let rest = s.skip(w as int);
            &&& packed::numbers::<T>(s) == seq![T::decode(s.take(w as int))] + packed::numbers::<T>(
                rest,
            )
            &&& s.len() % w == rest.len() % w
        }),
{
    T::lemma_fixed();
    let w = T::width();
    let rest = s.skip(w as int);
    let n = rest.len() / w;
    vstd::arithmetic::div_mod::lemma_div_plus_one(rest.len() as int, w as int);
    vstd::arithmetic::div_mod::lemma_mod_add_multiples_vanish(rest.len() as int, w as int);
    assert forall|i: int| 0 <= i < n + 1 implies packed::numbers::<T>(s)[i] == (seq![
        T::decode(s.take(w as int)),
    ] + packed::numbers::<T>(rest))[i] by {
        packed::lemma_slot::<T>(s.len(), i);
        if i == 0 {
            assert(0 * w == 0);
            assert(packed::slot::<T>(s, 0) =~= s.take(w as int));
        } else {
            assert((i - 1) * w + w == i * w) by (nonlinear_arith);
            packed::lemma_slot::<T>(rest.len(), i - 1);
            assert(packed::slot::<T>(s, i) =~= packed::slot::<T>(rest, i - 1));
        }
    }
    assert(packed::numbers::<T>(s) =~= seq![T::decode(s.take(w as int))] + packed::numbers::<T>(
        rest,
    ));
}

/// From read number `j` on, the reads give the numbers that are left, if they
/// are whole.
proof fn lemma_number_trace<T: FixedWidth>(
    bytes: Seq<u8>,
    body: Cursor,
    t: Trace<T>,
    out: Result<Vec<T>>,
    j: nat,
)
    requires
        t.collects(body, out),
        t.at[j as int].start <= t.at[j as int].end <= bytes.len(),
        forall|i: int| #[trigger]
            t.has(i) ==> number::<T>(t.at[i].window(bytes)).done(t.at[i], t.at[i + 1], t.outs[i]),
        j <= t.outs.len(),
        out is Err ==> j < t.outs.len(),
    ensures
        ({
            let w = t.at[j as int].window(bytes);
            &&& t.at.last().end == t.at[j as int].end
            &&& match out {
                Ok(v) => w.len() % T::width() == 0 && packed::numbers::<T>(w) == v@.skip(j as int),
                Err(error) => w.len() % T::width() != 0 && error == Error::UnexpectedEndOfBuffer,
            }
        }),
    decreases t.outs.len() - j,
{
    T::lemma_fixed();
    let at = t.at[j as int];
    let w = at.window(bytes);
    if j < t.outs.len() {
        assert(t.has(j as int));
        assert(at.start < at.end);
        if t.outs[j as int] is Ok {
            cursor::lemma_window_advance(at, bytes, T::width());
            lemma_numbers_front::<T>(w);
            lemma_number_trace(bytes, body, t, out, j + 1);
            match out {
                Ok(v) => {
                    assert(seq![v@[j as int]] + v@.skip((j + 1) as int) =~= v@.skip(j as int));
                },
                Err(_) => {},
            }
        } else {
            vstd::arithmetic::div_mod::lemma_small_mod(w.len(), T::width());
        }
    } else {
        match out {
            Ok(v) => {
                vstd::arithmetic::div_mod::lemma_small_mod(0, T::width());
                vstd::arithmetic::div_mod::lemma_basic_div(0, T::width() as int);
                assert(v@.skip(j as int) =~= packed::numbers::<T>(w));
            },
            Err(_) => {},
        }
    }
}

/// Reads of numbers leave the end alone.
proof fn lemma_number_ends<T: FixedWidth>(bytes: Seq<u8>, t: Trace<T>, j: nat)
    requires
        t.at.len() == t.outs.len() + 1,
        forall|i: int| #[trigger]
            t.has(i) ==> number::<T>(t.at[i].reach(bytes)).done(t.at[i], t.at[i + 1], t.outs[i]),
        j <= t.outs.len(),
    ensures
        t.at[j as int].end == t.at[0].end,
    decreases j,
{
    if j > 0 {
        lemma_number_ends(bytes, t, (j - 1) as nat);
        assert(t.has(j - 1));
    }
}

/// Reading a packed field number by number gives the numbers that
/// `read_packed_fixed` gives for it, if the field is made of whole numbers, and
/// otherwise fails at its end.
proof fn lemma_packed_numbers<T: FixedWidth>(
    bytes: Seq<u8>,
    body: Cursor,
    t: Trace<T>,
    out: Result<Vec<T>>,
)
    requires
        body.start <= body.end <= bytes.len(),
        t.collects(body, out),
        forall|i: int| #[trigger]
            t.has(i) ==> number::<T>(t.at[i].reach(bytes)).done(t.at[i], t.at[i + 1], t.outs[i]),
    ensures
        t.at.last().end == body.end,
        match out {
            Ok(v) => body.window(bytes).len() % T::width() == 0 && v@ == packed::numbers::<T>(
                body.window(bytes),
            ),
            Err(error) => body.window(bytes).len() % T::width() != 0 && error
                == Error::UnexpectedEndOfBuffer,
        },
{
    assert forall|i: int| #[trigger] t.has(i) implies number::<T>(t.at[i].window(bytes)).done(
        t.at[i],
        t.at[i + 1],
        t.outs[i],
    ) by {
        lemma_number_ends(bytes, t, i as nat);
    }
    lemma_number_trace(bytes, body, t, out, 0);
    match out {
        Ok(v) => {
            assert(v@.skip(0) =~= v@);
        },
        Err(_) => {},
    }
}

/// Reading a packed field with `read_fixed32` gives what `read_packed_fixed`
/// gives for it, if the field is made of whole numbers, and otherwise fails.
pub proof fn law_packed_fixed_is_packed_read_fixed32(
    bytes: &[u8],
    body: Cursor,
    t: Trace<u32>,
    out: Result<Vec<u32>>,
)
    requires
        body.start <= body.end <= bytes@.len(),
        t.collects(body, out),
        forall|i: int| #[trigger]
            t.has(i) ==> exists|r: &mut BytesReader|
                r@ == t.at[i] && final(r)@ == t.at[i + 1] && #[trigger] call_ensures(
                    BytesReader::read_fixed32,
                    (r, bytes),
                    t.outs[i],
                ),
    ensures
        t.at.last().end == body.end,
        match out {
            Ok(v) => body.window(bytes@).len() % 4 == 0 && v@ == packed::numbers::<u32>(
                body.window(bytes@),
            ),
            Err(error) => body.window(bytes@).len() % 4 != 0 && error
                == Error::UnexpectedEndOfBuffer,
        },
{
    assert forall|i: int| #[trigger] t.has(i) implies number::<u32>(t.at[i].reach(bytes@)).done(
        t.at[i],
        t.at[i + 1],
        t.outs[i],
    ) by {}
    lemma_packed_numbers::<u32>(bytes@, body, t, out);
}

/// Reading a packed field with `read_fixed64` gives what `read_packed_fixed`
/// gives for it, if the field is made of whole numbers, and otherwise fails.
pub proof fn law_packed_fixed_is_packed_read_fixed64(
    bytes: &[u8],
    body: Cursor,
    t: Trace<u64>,
    out: Result<Vec<u64>>,
)
    requires
        body.start <= body.end <= bytes@.len(),
        t.collects(body, out),
        forall|i: int| #[trigger]
            t.has(i) ==> exists|r: &mut BytesReader|
                r@ == t.at[i] && final(r)@ == t.at[i + 1] && #[trigger] call_ensures(
                    BytesReader::read_fixed64,
                    (r, bytes),
                    t.outs[i],
                ),
    ensures
        t.at.last().end == body.end,
        match out {
            Ok(v) => body.window(bytes@).len() % 8 == 0 && v@ == packed::numbers::<u64>(
                body.window(bytes@),
            ),
            Err(error) => body.window(bytes@).len() % 8 != 0 && error
                == Error::UnexpectedEndOfBuffer,
        },
{
    assert forall|i: int| #[trigger] t.has(i) implies number::<u64>(t.at[i].reach(bytes@)).done(
        t.at[i],
        t.at[i + 1],
        t.outs[i],
    ) by {}
    lemma_packed_numbers::<u64>(bytes@, body, t, out);
}

} // verus!
