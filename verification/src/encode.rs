//! Writing the varints that the readers read.
use vstd::prelude::*;

verus! {

/// The varint of `v`, in as few bytes as possible.
pub open spec fn encoded(v: nat) -> Seq<u8>
    decreases v,
{
    if v < 128 {
        seq![v as u8]
    } else {
        seq![(128 + v % 128) as u8] + encoded(v / 128)
    }
}

/// The varint of an `int32`: a negative number is sign-extended to 64 bits.
pub open spec fn encoded_i32(v: i32) -> Seq<u8> {
    if v >= 0 {
        encoded(v as nat)
    } else {
        encoded((v + 0x1_0000_0000_0000_0000) as nat)
    }
}

/// The varints of `values`, back to back.
pub open spec fn encoded_i32s(values: Seq<i32>) -> Seq<u8>
    decreases values.len(),
{
    if values.len() == 0 {
        Seq::empty()
    } else {
        encoded_i32s(values.drop_last()) + encoded_i32(values.last())
    }
}

/// A packed `int32` field: the length of the payload in 32 bits, and then the
/// payload.
pub open spec fn built_packed_int32(values: Seq<i32>) -> Seq<u8> {
    let payload = encoded_i32s(values);
    encoded(payload.len() % 0x1_0000_0000) + payload
}

/// The low seven bits with the continuation bit set.
proof fn lemma_group(v: u64)
    ensures
        (v as u8) | 0x80 == 128 + v % 128,
        v >> 7 == v / 128,
        v < 128 ==> v as u8 == v,
{
    assert((v as u8) | 0x80 == 128 + v % 128) by (bit_vector);
    assert(v >> 7 == v / 128) by (bit_vector);
}

/// Appends the varint of `value` to `buf`.
pub fn encode_varint_u32(value: u32, buf: &mut Vec<u8>)
    ensures
        final(buf)@ == old(buf)@ + encoded(value as nat),
{
    let mut rest: u32 = value;
    while rest >= 0x80
        invariant
            buf@ + encoded(rest as nat) == old(buf)@ + encoded(value as nat),
        decreases rest,
    {
        let ghost before = buf@;
        let group: u8 = (rest as u8) | 0x80;
        let next: u32 = rest >> 7;
        assert(group == 128 + rest % 128 && next == rest / 128) by (bit_vector)
            requires
                group == (rest as u8) | 0x80,
                next == rest >> 7,
        ;
        buf.push(group);
        proof {
            assert(before.push(group) + encoded(next as nat) =~= before + (seq![group] + encoded(
                next as nat,
            )));
        }
        rest = next;
    }
    let ghost before = buf@;
    buf.push(rest as u8);
    proof {
        assert(before.push(rest as u8) =~= before + seq![rest as u8]);
    }
}

/// Appends the varint of `value` to `buf`, in ten bytes if it is negative.
pub fn encode_varint_i32(value: i32, buf: &mut Vec<u8>)
    ensures
        final(buf)@ == old(buf)@ + encoded_i32(value),
{
    if value >= 0 {
        encode_varint_u32(value as u32, buf);
        return;
    }
    let extended: u64 = value as u64;
    assert(extended == value + 0x1_0000_0000_0000_0000) by (bit_vector)
        requires
            value < 0,
            extended == value as u64,
    ;
    let mut rest: u64 = extended;
    let mut i: u32 = 0;
    proof {
        vstd::arithmetic::power2::lemma2_to64();
        vstd::arithmetic::power2::lemma2_to64_rest();
    }
    while i < 9
        invariant
            i <= 9,
            vstd::arithmetic::power2::pow2((63 - 7 * i) as nat) <= rest
                < vstd::arithmetic::power2::pow2((64 - 7 * i) as nat),
            buf@ + encoded(rest as nat) == old(buf)@ + encoded(extended as nat),
        decreases 9 - i,
    {
        let ghost before = buf@;
        let group: u8 = (rest as u8) | 0x80;
        let next: u64 = rest >> 7;
        proof {
            lemma_group(rest);
            vstd::arithmetic::power2::lemma2_to64();
            vstd::arithmetic::power2::lemma_pow2_adds(7, (63 - 7 * i - 7) as nat);
            vstd::arithmetic::power2::lemma_pow2_adds(7, (64 - 7 * i - 7) as nat);
            vstd::arithmetic::power2::lemma_pow2_pos((63 - 7 * i - 7) as nat);
        }
        buf.push(group);
        proof {
            assert(before.push(group) + encoded(next as nat) =~= before + (seq![group] + encoded(
                next as nat,
            )));
        }
        rest = next;
        i += 1;
    }
    let ghost before = buf@;
    proof {
        vstd::arithmetic::power2::lemma2_to64();
        lemma_group(rest);
    }
    buf.push(rest as u8);
    proof {
        assert(before.push(rest as u8) =~= before + seq![rest as u8]);
    }
}

/// Builds a packed `int32` field.
pub fn build_packed_int32(values: &[i32]) -> (out: Vec<u8>)
    ensures
        out@ == built_packed_int32(values@),
{
    let mut payload: Vec<u8> = Vec::new();
    let mut i: usize = 0;
    while i < values.len()
        invariant
            i <= values@.len(),
            payload@ == encoded_i32s(values@.take(i as int)),
        decreases values@.len() - i,
    {
        encode_varint_i32(values[i], &mut payload);
        i += 1;
        assert(values@.take(i as int).drop_last() =~= values@.take(i - 1));
    }
    assert(values@.take(i as int) =~= values@);
    let mut result: Vec<u8> = Vec::new();
    let len: u64 = payload.len() as u64;
    assert(len as u32 == len % 0x1_0000_0000) by (bit_vector);
    encode_varint_u32(len as u32, &mut result);
    result.extend_from_slice(payload.as_slice());
    assert(result@ =~= encoded(payload@.len() % 0x1_0000_0000) + payload@);
    result
}

} // verus!
