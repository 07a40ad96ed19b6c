//! Decoding packed varints sixteen bytes at a time.
use vstd::prelude::*;

use crate::branchless;
use crate::little_endian;
use crate::repeated;
use crate::scalar;
use crate::varint;

verus! {

/// The bytes that are looked at in one go.
pub const CHUNK_LEN: usize = 16;

/// The last position of a chunk at which eight bytes of it are left.
pub const LAST_LOAD: usize = 8;

/// How far decoding gets in a chunk, from position `p` on: up to the first varint
/// that starts behind `LAST_LOAD` or takes more than five bytes.
pub open spec fn chunk_end(chunk: Seq<u8>, p: nat) -> nat
    decreases chunk.len() - p,
{
    let run = varint::continuation_run(chunk.skip(p as int));
    if p > LAST_LOAD || run >= 5 || p + run >= chunk.len() {
        p
    } else {
        chunk_end(chunk, p + run + 1)
    }
}

/// Decoding stays inside its chunk.
pub proof fn lemma_chunk_end(chunk: Seq<u8>, p: nat)
    requires
        p <= chunk.len(),
    ensures
        p <= chunk_end(chunk, p) <= chunk.len(),
    decreases chunk.len() - p,
{
    let run = varint::continuation_run(chunk.skip(p as int));
    if !(p > LAST_LOAD || run >= 5 || p + run >= chunk.len()) {
        lemma_chunk_end(chunk, p + run + 1);
    }
}

/// How far decoding gets in `s`: chunk by chunk, for as long as a whole chunk is
/// left and something can be decoded in it.
pub open spec fn batch_end(s: Seq<u8>) -> nat
    decreases s.len(),
{
    if s.len() < CHUNK_LEN {
        0
    } else {
        let n = chunk_end(s.take(CHUNK_LEN as int), 0);
        if n == 0 {
            0
        } else {
            proof {
                lemma_chunk_end(s.take(CHUNK_LEN as int), 0);
            }
            n + batch_end(s.skip(n as int))
        }
    }
}

/// Collects the continuation bits of sixteen bytes, the first in the low bit.
fn continuation_mask(buf: &[u8], pos: usize) -> (mask: u16)
    requires
        pos + CHUNK_LEN <= buf.len(),
    ensures
        forall|j: u16|
            j < 16 ==> ((#[trigger] (mask >> j)) & 1 == 1 <==> buf@[pos + j] >= 0x80),
{
    let mut mask: u16 = 0;
    let mut i: u16 = 0;
    assert(0u16 >> 0u16 == 0) by (bit_vector);
    while i < 16
        invariant
            i <= 16,
            pos + CHUNK_LEN <= buf.len(),
            mask >> i == 0,
            forall|j: u16|
                j < i ==> ((#[trigger] (mask >> j)) & 1 == 1 <==> buf@[pos + j] >= 0x80),
        decreases 16 - i,
    {
        let b: u8 = buf[pos + i as usize];
        let bit: u16 = (b >> 7) as u16;
        let wider: u16 = mask | (bit << i);
        proof {
            assert(b >> 7 <= 1 && (b >> 7 == 1 <==> b >= 0x80)) by (bit_vector);
            assert(wider >> ((i + 1) as u16) == 0) by (bit_vector)
                requires
                    i < 16,
                    bit <= 1,
                    mask >> i == 0,
                    wider == mask | (bit << i),
            ;
            assert forall|j: u16| j < i + 1 implies ((#[trigger] (wider >> j)) & 1 == 1
                <==> buf@[pos + j] >= 0x80) by {
                assert((wider >> j) & 1 == if j == i {
                    bit
                } else {
                    (mask >> j) & 1
                }) by (bit_vector)
                    requires
                        j <= i,
                        i < 16,
                        bit <= 1,
                        mask >> i == 0,
                        wider == mask | (bit << i),
                ;
            }
        }
        mask = wider;
        i = i + 1;
    }
    mask
}

/// Decodes one chunk: the varints in `buf` from `pos` on that start within the
/// first nine bytes and take at most five, up to the first that does not.
///
/// Appends them to `out` and gives the number of bytes they take.
fn decode_chunk(buf: &[u8], pos: usize, out: &mut Vec<i32>) -> (taken: usize)
    requires
        pos + CHUNK_LEN <= buf.len(),
    ensures
        taken == chunk_end(buf@.subrange(pos as int, pos + CHUNK_LEN), 0),
        taken <= CHUNK_LEN,
        ({
            let values = repeated::int32s(buf@.subrange(pos as int, pos + taken));
            values is Ok && final(out)@ == old(out)@ + values->Ok_0
        }),
{
    let cont_mask: u16 = continuation_mask(buf, pos);
    let term_mask: u16 = !cont_mask;
    let ghost chunk = buf@.subrange(pos as int, pos + CHUNK_LEN);
    let mut taken: usize = 0;
    let mut remaining_term: u16 = term_mask;
    proof {
        assert(buf@.subrange(pos as int, pos as int) =~= Seq::empty());
        assert(out@ + Seq::<i32>::empty() =~= out@);
        assert forall|j: u16| j < 16 implies ((#[trigger] (remaining_term >> j)) & 1 == 1
            <==> chunk[j as int] < 0x80) by {
            assert((remaining_term >> j) & 1 == 1 <==> (cont_mask >> j) & 1 != 1) by (bit_vector)
                requires
                    j < 16,
                    remaining_term == !cont_mask,
            ;
        }
    }
    while remaining_term != 0
        invariant
            pos + CHUNK_LEN <= buf.len(),
            chunk == buf@.subrange(pos as int, pos + CHUNK_LEN),
            taken <= CHUNK_LEN,
            chunk_end(chunk, taken as nat) == chunk_end(chunk, 0),
            forall|j: u16|
                j < 16 ==> ((#[trigger] (remaining_term >> j)) & 1 == 1 <==> j >= taken
                    && chunk[j as int] < 0x80),
            ({
                let values = repeated::int32s(buf@.subrange(pos as int, pos + taken));
                values is Ok && out@ == old(out)@ + values->Ok_0
            }),
        decreases CHUNK_LEN - taken,
    {
        if taken > LAST_LOAD {
            return taken;
        }
        let term_bit: u32 = remaining_term.trailing_zeros();
        let ghost rest = chunk.skip(taken as int);
        proof {
            vstd::std_specs::bits::axiom_u16_trailing_zeros(remaining_term);
            let z: u16 = term_bit as u16;
            assert(z < 16);
            assert((remaining_term >> z) & 1 == 1);
            assert forall|j: int| 0 <= j < z - taken implies rest[j] >= 0x80 by {
                let at: u16 = (taken + j) as u16;
                assert((remaining_term >> at) & 1 == 0);
                assert(chunk[at as int] == rest[j]);
            }
            assert(rest[z - taken] == chunk[z as int]);
            varint::lemma_run_reaches(rest, (z - taken) as nat);
        }
        let varint_len: usize = term_bit as usize - taken + 1;
        if varint_len > 5 {
            return taken;
        }
        let raw: u64 = little_endian::load(buf, pos + taken, 8);
        let ghost s = buf@.subrange(pos + taken, pos + taken + 8);
        proof {
            little_endian::lemma_le_bytes_of_value(s);
            assert(forall|j: int| 0 <= j < 8 ==> s[j] == rest[j]);
            varint::lemma_run_reaches(s, (varint_len - 1) as nat);
        }
        match branchless::decode_varint32_branchless(raw) {
            Some((value, len)) => {
                out.push(scalar::cast32(value));
                proof {
                    let a = buf@.subrange(pos as int, pos + taken);
                    let b = buf@.subrange(pos + taken, pos + taken + len);
                    assert(forall|j: int| 0 <= j < len ==> b[j] == s[j]);
                    varint::lemma_ends(b, (len - 1) as nat);
                    varint::lemma_groups_eq(s, b, len as nat);
                    repeated::lemma_int32s_push(a, b);
                    assert(a + b =~= buf@.subrange(pos as int, pos + taken + len));
                    let v = scalar::int32(b).out->Ok_0;
                    assert(old(out)@ + repeated::int32s(a)->Ok_0.push(v) =~= (old(out)@
                        + repeated::int32s(a)->Ok_0).push(v));
                }
                taken += len;
            },
            None => {
                return taken;
            },
        }
        let cleared: u16 = if term_bit < 15 {
            assert((2u16 << term_bit) >= 1) by (bit_vector)
                requires
                    term_bit < 15,
            ;
            remaining_term & !((2u16 << term_bit) - 1)
        } else {
            0
        };
        proof {
            assert forall|j: u16| j < 16 implies ((#[trigger] (cleared >> j)) & 1 == 1
                <==> j >= taken && chunk[j as int] < 0x80) by {
                assert((cleared >> j) & 1 == if j <= term_bit {
                    0
                } else {
                    (remaining_term >> j) & 1
                }) by (bit_vector)
                    requires
                        j < 16,
                        term_bit < 16,
                        term_bit < 15 ==> cleared == remaining_term & !(((2u16 << term_bit) - 1)
                            as u16),
                        term_bit == 15 ==> cleared == 0,
                ;
            }
        }
        remaining_term = cleared;
    }
    proof {
        if taken < CHUNK_LEN {
            let rest = chunk.skip(taken as int);
            assert forall|j: int| 0 <= j < rest.len() implies rest[j] >= 0x80 by {
                let at: u16 = (taken + j) as u16;
                assert((0u16 >> at) & 1 == 0) by (bit_vector);
                assert((remaining_term >> at) & 1 == 0);
                assert(chunk[at as int] == rest[j]);
            }
            varint::lemma_run_reaches(rest, rest.len());
        }
    }
    taken
}

/// Decodes the varints of `buf[start..end]` for as long as whole chunks are left
/// and none of them takes more than five bytes.
///
/// Appends them to `out` and gives the position behind the last of them. What is
/// left has to be decoded one by one.
pub fn batch_decode_varint32(buf: &[u8], start: usize, end: usize, out: &mut Vec<i32>) -> (pos:
    usize)
    requires
        start <= end <= buf@.len(),
    ensures
        pos == start + batch_end(buf@.subrange(start as int, end as int)),
        pos <= end,
        ({
            let values = repeated::int32s(buf@.subrange(start as int, pos as int));
            values is Ok && final(out)@ == old(out)@ + values->Ok_0
        }),
{
    let mut pos: usize = start;
    proof {
        assert(buf@.subrange(start as int, start as int) =~= Seq::empty());
        assert(out@ + Seq::<i32>::empty() =~= out@);
    }
    while end - pos >= CHUNK_LEN
        invariant
            start <= pos <= end <= buf@.len(),
            batch_end(buf@.subrange(start as int, end as int)) == pos - start + batch_end(
                buf@.subrange(pos as int, end as int),
            ),
            ({
                let values = repeated::int32s(buf@.subrange(start as int, pos as int));
                values is Ok && out@ == old(out)@ + values->Ok_0
            }),
        decreases end - pos,
    {
        let ghost s = buf@.subrange(pos as int, end as int);
        let ghost before = out@;
        let taken: usize = decode_chunk(buf, pos, out);
        proof {
            let a = buf@.subrange(start as int, pos as int);
            let b = buf@.subrange(pos as int, pos + taken);
            assert(s.take(CHUNK_LEN as int) =~= buf@.subrange(pos as int, pos + CHUNK_LEN));
            assert(s.skip(taken as int) =~= buf@.subrange(pos + taken, end as int));
            assert(a + b =~= buf@.subrange(start as int, pos + taken));
            repeated::lemma_int32s_concat(a, b);
            assert((old(out)@ + repeated::int32s(a)->Ok_0) + repeated::int32s(b)->Ok_0 =~= old(out)@
                + (repeated::int32s(a)->Ok_0 + repeated::int32s(b)->Ok_0));
        }
        if taken == 0 {
            return pos;
        }
        pos += taken;
    }
    pos
}

} // verus!
