//! What the writers append, told by the reads that give it back.
use vstd::prelude::*;

use crate::cursor::{Cursor, Step};
use crate::encode;
use crate::encode::{build_packed_int32, encode_varint_i32, encode_varint_u32};
use crate::error::{Error, Result};
use crate::laws;
use crate::reader::BytesReader;
use crate::scalar;

verus! {

/// Whether `w` stands in `bytes` from position `at` on.
pub open spec fn stands_at(bytes: Seq<u8>, at: int, w: Seq<u8>) -> bool {
    &&& 0 <= at
    &&& at + w.len() <= bytes.len()
    &&& bytes.subrange(at, at + w.len()) == w
}

/// Whether `w` is a varint in as few bytes as can be: each byte but the last has the
/// continuation bit, and the last has it not, and is zero only if it is alone.
pub open spec fn is_shortest_varint(w: Seq<u8>) -> bool {
    &&& w.len() > 0
    &&& forall|i: int| 0 <= i < w.len() - 1 ==> w[i] >= 0x80
    &&& w.last() < 0x80
    &&& w.last() == 0 ==> w.len() == 1
}

/// What stands from the position of a cursor on is the front of its window.
proof fn lemma_front(bytes: Seq<u8>, c: Cursor, w: Seq<u8>)
    requires
        c.start + w.len() <= c.end <= bytes.len(),
        stands_at(bytes, c.start as int, w),
    ensures
        c.window(bytes) == w + c.window(bytes).skip(w.len() as int),
{
    let a = c.window(bytes);
    assert(a.take(w.len() as int) =~= bytes.subrange(c.start as int, (c.start + w.len()) as int));
    assert(a =~= w + a.skip(w.len() as int));
}

/// The varint of a number is as short as can be.
proof fn lemma_encoded_shortest(v: nat, k: nat)
    requires
        k > 0,
        v < vstd::arithmetic::power2::pow2(7 * k),
    ensures
        is_shortest_varint(encode::encoded(v)),
        v > 0 ==> encode::encoded(v).last() > 0,
    decreases v,
{
    laws::lemma_encoded(v, k);
    if v >= 128 {
        assert(v / 128 > 0);
        vstd::arithmetic::power2::lemma2_to64();
        if k == 1 {
            assert(false);
        }
        vstd::arithmetic::power2::lemma_pow2_adds(7, (7 * (k - 1)) as nat);
        lemma_encoded_shortest(v / 128, (k - 1) as nat);
        assert(encode::encoded(v).last() == encode::encoded(v / 128).last());
    }
}

/// Writing a `u32` leaves what was there as it was and appends a varint in as few bytes
/// as can be; reading there gives the number back and stops behind what was written,
/// whatever follows.
pub proof fn law_written_u32_is_read_back(value: u32, bytes: &[u8])
    ensures
        forall|buf: &mut Vec<u8>| #[trigger]
            call_ensures(encode_varint_u32, (value, buf), ()) ==> {
                &&& buf@.len() < final(buf)@.len() <= buf@.len() + 5
                &&& final(buf)@.take(buf@.len() as int) == buf@
                &&& is_shortest_varint(final(buf)@.skip(buf@.len() as int))
            },
        forall|buf: &mut Vec<u8>, r: &mut BytesReader, out: Result<u32>|
            {
                let w = final(buf)@.skip(buf@.len() as int);
                &&& #[trigger] call_ensures(encode_varint_u32, (value, buf), ())
                &&& #[trigger] call_ensures(BytesReader::read_varint32, (r, bytes), out)
                &&& stands_at(bytes@, r@.start as int, w)
                &&& r@.start + w.len() <= r@.end <= bytes@.len()
            } ==> {
                &&& out == Ok::<u32, Error>(value)
                &&& final(r)@.start == r@.start + final(buf)@.len() - buf@.len()
                &&& final(r)@.end == r@.end
            },
{
    let w = encode::encoded(value as nat);
    vstd::arithmetic::power2::lemma2_to64();
    vstd::arithmetic::power2::lemma_pow2_strictly_increases(32, 35);
    laws::lemma_encoded(value as nat, 5);
    lemma_encoded_shortest(value as nat, 5);
    assert forall|buf: &mut Vec<u8>| #[trigger]
        call_ensures(encode_varint_u32, (value, buf), ()) implies {
        &&& buf@.len() < final(buf)@.len() <= buf@.len() + 5
        &&& final(buf)@.take(buf@.len() as int) == buf@
        &&& final(buf)@.skip(buf@.len() as int) == w
    } by {
        assert(final(buf)@.take(buf@.len() as int) =~= buf@);
        assert(final(buf)@.skip(buf@.len() as int) =~= w);
    }
    assert forall|buf: &mut Vec<u8>, r: &mut BytesReader, out: Result<u32>|
        {
            let w = final(buf)@.skip(buf@.len() as int);
            &&& #[trigger] call_ensures(encode_varint_u32, (value, buf), ())
            &&& #[trigger] call_ensures(BytesReader::read_varint32, (r, bytes), out)
            &&& stands_at(bytes@, r@.start as int, w)
            &&& r@.start + w.len() <= r@.end <= bytes@.len()
        } implies {
        &&& out == Ok::<u32, Error>(value)
        &&& final(r)@.start == r@.start + final(buf)@.len() - buf@.len()
        &&& final(r)@.end == r@.end
    } by {
        lemma_front(bytes@, r@, w);
        laws::law_uint32_round_trip(value, r@.window(bytes@).skip(w.len() as int));
    }
}

/// Writing an `i32` leaves what was there as it was and appends a varint in as few bytes
/// as can be, ten if the number is negative; reading there as an `int32` and as an
/// `int64` gives the number back and stops behind what was written, whatever follows.
pub proof fn law_written_i32_is_read_back(value: i32, bytes: &[u8])
    ensures
        forall|buf: &mut Vec<u8>| #[trigger]
            call_ensures(encode_varint_i32, (value, buf), ()) ==> {
                &&& buf@.len() < final(buf)@.len()
                &&& value >= 0 ==> final(buf)@.len() <= buf@.len() + 5
                &&& value < 0 ==> final(buf)@.len() == buf@.len() + 10
                &&& final(buf)@.take(buf@.len() as int) == buf@
                &&& is_shortest_varint(final(buf)@.skip(buf@.len() as int))
            },
        forall|buf: &mut Vec<u8>, r: &mut BytesReader, out: Result<i32>|
            {
                let w = final(buf)@.skip(buf@.len() as int);
                &&& #[trigger] call_ensures(encode_varint_i32, (value, buf), ())
                &&& #[trigger] call_ensures(BytesReader::read_int32, (r, bytes), out)
                &&& stands_at(bytes@, r@.start as int, w)
                &&& r@.start + w.len() <= r@.end <= bytes@.len()
            } ==> {
                &&& out == Ok::<i32, Error>(value)
                &&& final(r)@.start == r@.start + final(buf)@.len() - buf@.len()
                &&& final(r)@.end == r@.end
            },
        forall|buf: &mut Vec<u8>, r: &mut BytesReader, out: Result<i64>|
            {
                let w = final(buf)@.skip(buf@.len() as int);
                &&& #[trigger] call_ensures(encode_varint_i32, (value, buf), ())
                &&& #[trigger] call_ensures(BytesReader::read_int64, (r, bytes), out)
                &&& stands_at(bytes@, r@.start as int, w)
                &&& r@.start + w.len() <= r@.end <= bytes@.len()
            } ==> {
                &&& out matches Ok(v)
                &&& v == value
                &&& final(r)@.start == r@.start + final(buf)@.len() - buf@.len()
                &&& final(r)@.end == r@.end
            },
{
    let wide: nat = if value >= 0 {
        value as nat
    } else {
        (value + 0x1_0000_0000_0000_0000) as nat
    };
    let w = encode::encoded(wide);
    vstd::arithmetic::power2::lemma2_to64();
    vstd::arithmetic::power2::lemma2_to64_rest();
    vstd::arithmetic::power2::lemma_pow2_strictly_increases(32, 35);
    laws::lemma_fits_varint(wide);
    laws::lemma_encoded(wide, 10);
    lemma_encoded_shortest(wide, 10);
    if value >= 0 {
        laws::lemma_encoded(wide, 5);
    } else {
        laws::lemma_encoded_long(wide, 9);
    }
    assert forall|buf: &mut Vec<u8>| #[trigger]
        call_ensures(encode_varint_i32, (value, buf), ()) implies {
        &&& final(buf)@.len() == buf@.len() + w.len()
        &&& final(buf)@.take(buf@.len() as int) == buf@
        &&& final(buf)@.skip(buf@.len() as int) == w
    } by {
        assert(final(buf)@.take(buf@.len() as int) =~= buf@);
        assert(final(buf)@.skip(buf@.len() as int) =~= w);
    }
    assert forall|r: &mut BytesReader|
        {
            &&& #[trigger] stands_at(bytes@, r@.start as int, w)
            &&& r@.start + w.len() <= r@.end <= bytes@.len()
        } implies {
        let tail = r@.window(bytes@).skip(w.len() as int);
        &&& r@.window(bytes@) == w + tail
        &&& scalar::int32(w + tail) == Step::ok(value, w.len())
        &&& scalar::int64(w + tail) == Step::ok(value as i64, w.len())
    } by {
        let tail = r@.window(bytes@).skip(w.len() as int);
        lemma_front(bytes@, r@, w);
        laws::law_int32_wide_round_trip(value, tail);
        laws::law_int64_round_trip(value as i64, tail);
    }
}

/// A packed `int32` field that was built from numbers is read back as those numbers,
/// and reading stops behind what was built, whatever follows. The field has to fit a
/// 32-bit length.
pub proof fn law_built_packed_int32_is_read_back(values: &[i32], bytes: &[u8])
    ensures
        forall|w: Vec<u8>, r: &mut BytesReader, out: Result<Vec<i32>>|
            {
                &&& #[trigger] call_ensures(build_packed_int32, (values,), w)
                &&& #[trigger] call_ensures(BytesReader::read_packed_int32, (r, bytes), out)
                &&& w@.len() <= u32::MAX
                &&& stands_at(bytes@, r@.start as int, w@)
                &&& r@.start + w@.len() <= r@.end <= bytes@.len()
            } ==> {
                &&& out matches Ok(v)
                &&& v@ == values@
                &&& final(r)@.start == r@.start + w@.len()
                &&& final(r)@.end == r@.end
            },
{
    assert forall|w: Vec<u8>, r: &mut BytesReader, out: Result<Vec<i32>>|
        {
            &&& #[trigger] call_ensures(build_packed_int32, (values,), w)
            &&& #[trigger] call_ensures(BytesReader::read_packed_int32, (r, bytes), out)
            &&& w@.len() <= u32::MAX
            &&& stands_at(bytes@, r@.start as int, w@)
            &&& r@.start + w@.len() <= r@.end <= bytes@.len()
        } implies {
        &&& out matches Ok(v)
        &&& v@ == values@
        &&& final(r)@.start == r@.start + w@.len()
        &&& final(r)@.end == r@.end
    } by {
        lemma_front(bytes@, r@, w@);
        let tail = r@.window(bytes@).skip(w@.len() as int);
        laws::law_packed_int32_round_trip(r@, bytes@, values@, tail);
    }
}

} // verus!
