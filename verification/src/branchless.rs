//! Varint decoding on eight bytes at once, without a branch per byte.
//!
//! The eight bytes are held in a `u64`, the first in its low byte.
use vstd::prelude::*;

use crate::little_endian;
use crate::varint;

verus! {

/// The continuation bit of each of the eight bytes.
const MSB_MASK: u64 = 0x8080_8080_8080_8080;

/// The continuation bits of the first five bytes.
const FIRST_5_MSB: u64 = 0x0000_0080_8080_8080;

/// The low 32 bits and the length of the varint at the front of `s`, if it takes
/// at most five bytes.
pub open spec fn short_varint32(s: Seq<u8>) -> Option<(u32, usize)> {
    let run = varint::continuation_run(s);
    if run < 5 && run < s.len() {
        Some(((varint::groups(s, run + 1) % 0x1_0000_0000) as u32, (run + 1) as usize))
    } else {
        None
    }
}

/// The value and the length of the varint at the front of `s`, if it takes at
/// most eight bytes.
pub open spec fn short_varint64(s: Seq<u8>) -> Option<(u64, usize)> {
    let run = varint::continuation_run(s);
    if run < 8 && run < s.len() {
        Some((varint::groups(s, run + 1) as u64, (run + 1) as usize))
    } else {
        None
    }
}

/// Byte `i` of a `u64` is found by shifting it down.
pub proof fn lemma_byte(raw: u64, i: int)
    requires
        0 <= i < 8,
    ensures
        little_endian::le_bytes(raw as nat, 8).len() == 8,
        little_endian::le_bytes(raw as nat, 8)[i] == (raw >> (8 * i) as u64) & 0xff,
{
    reveal_with_fuel(little_endian::le_bytes, 9);
    let s: u64 = (8 * i) as u64;
    assert({
        let a1: u64 = raw / 0x100;
        let a2: u64 = a1 / 0x100;
        let a3: u64 = a2 / 0x100;
        let a4: u64 = a3 / 0x100;
        let a5: u64 = a4 / 0x100;
        let a6: u64 = a5 / 0x100;
        let a7: u64 = a6 / 0x100;
        &&& (s == 0 ==> raw % 0x100 == (raw >> s) & 0xff)
        &&& (s == 8 ==> a1 % 0x100 == (raw >> s) & 0xff)
        &&& (s == 16 ==> a2 % 0x100 == (raw >> s) & 0xff)
        &&& (s == 24 ==> a3 % 0x100 == (raw >> s) & 0xff)
        &&& (s == 32 ==> a4 % 0x100 == (raw >> s) & 0xff)
        &&& (s == 40 ==> a5 % 0x100 == (raw >> s) & 0xff)
        &&& (s == 48 ==> a6 % 0x100 == (raw >> s) & 0xff)
        &&& (s == 56 ==> a7 % 0x100 == (raw >> s) & 0xff)
    }) by (bit_vector);
    assert(s == 0 || s == 8 || s == 16 || s == 24 || s == 32 || s == 40 || s == 48 || s == 56);
}

/// The seven-bit groups of the first five bytes of `m`, as far as 32 bits hold
/// them.
pub fn gather32(m: u64) -> (out: u32)
    ensures
        out == varint::groups(little_endian::le_bytes(m as nat, 8), 5) % 0x1_0000_0000,
{
    let wide: u64 = (m & 0x0000_007F) | ((m >> 1) & 0x0000_3F80) | ((m >> 2) & 0x001F_C000) | ((m
        >> 3) & 0x0FE0_0000) | ((m >> 4) & 0xF000_0000);
    proof {
        lemma_spelled(m);
        assert(wide == (((m >> 0) & 0xff) % 128 + (((m >> 8) & 0xff) % 128) * 0x80 + (((m >> 16)
            & 0xff) % 128) * 0x4000 + (((m >> 24) & 0xff) % 128) * 0x20_0000 + (((m >> 32) & 0xff)
            % 128) * 0x1000_0000) % 0x1_0000_0000) by (bit_vector)
            requires
                wide == (m & 0x0000_007F) | ((m >> 1) & 0x0000_3F80) | ((m >> 2) & 0x001F_C000)
                    | ((m >> 3) & 0x0FE0_0000) | ((m >> 4) & 0xF000_0000),
        ;
    }
    wide as u32
}

/// The groups of the first five and of all eight bytes, written out.
proof fn lemma_spelled(m: u64)
    ensures
        ({
            let s = little_endian::le_bytes(m as nat, 8);
            &&& varint::groups(s, 5) == ((m >> 0) & 0xff) % 128 + (((m >> 8) & 0xff) % 128) * 0x80
                + (((m >> 16) & 0xff) % 128) * 0x4000 + (((m >> 24) & 0xff) % 128) * 0x20_0000 + (((
            m >> 32) & 0xff) % 128) * 0x1000_0000
            &&& varint::groups(s, 8) == varint::groups(s, 5) + (((m >> 40) & 0xff) % 128)
                * 0x8_0000_0000 + (((m >> 48) & 0xff) % 128) * 0x400_0000_0000 + (((m >> 56) & 0xff)
                % 128) * 0x2_0000_0000_0000
        }),
{
    let s = little_endian::le_bytes(m as nat, 8);
    reveal_with_fuel(varint::groups, 9);
    assert forall|i: int| 0 <= i < 8 implies #[trigger] s[i] == (m >> (8 * i) as u64) & 0xff by {
        lemma_byte(m, i);
    }
    varint::lemma_weights((s[0] % 128) as int);
    varint::lemma_weights((s[1] % 128) as int);
    varint::lemma_weights((s[2] % 128) as int);
    varint::lemma_weights((s[3] % 128) as int);
    varint::lemma_weights((s[4] % 128) as int);
    varint::lemma_weights((s[5] % 128) as int);
    varint::lemma_weights((s[6] % 128) as int);
    varint::lemma_weights((s[7] % 128) as int);
}

/// The seven-bit groups of all eight bytes of `m`.
pub fn gather64(m: u64) -> (out: u64)
    ensures
        out == varint::groups(little_endian::le_bytes(m as nat, 8), 8),
{
    let out: u64 = (m & 0x0000_0000_0000_007F) | ((m >> 1) & 0x0000_0000_0000_3F80) | ((m >> 2)
        & 0x0000_0000_001F_C000) | ((m >> 3) & 0x0000_0000_0FE0_0000) | ((m >> 4)
        & 0x0000_0007_F000_0000) | ((m >> 5) & 0x0000_03F8_0000_0000) | ((m >> 6)
        & 0x0001_FC00_0000_0000) | ((m >> 7) & 0x00FE_0000_0000_0000);
    proof {
        lemma_spelled(m);
        assert(out == ((m >> 0) & 0xff) % 128 + (((m >> 8) & 0xff) % 128) * 0x80 + (((m >> 16)
            & 0xff) % 128) * 0x4000 + (((m >> 24) & 0xff) % 128) * 0x20_0000 + (((m >> 32) & 0xff)
            % 128) * 0x1000_0000 + (((m >> 40) & 0xff) % 128) * 0x8_0000_0000 + (((m >> 48) & 0xff)
            % 128) * 0x400_0000_0000 + (((m >> 56) & 0xff) % 128) * 0x2_0000_0000_0000)
            by (bit_vector)
            requires
                out == (m & 0x0000_0000_0000_007F) | ((m >> 1) & 0x0000_0000_0000_3F80) | ((m >> 2)
                    & 0x0000_0000_001F_C000) | ((m >> 3) & 0x0000_0000_0FE0_0000) | ((m >> 4)
                    & 0x0000_0007_F000_0000) | ((m >> 5) & 0x0000_03F8_0000_0000) | ((m >> 6)
                    & 0x0001_FC00_0000_0000) | ((m >> 7) & 0x00FE_0000_0000_0000),
        ;
    }
    out
}

/// Cuts `raw` off behind its first byte without the continuation bit, and
/// counts the bytes that stay.
fn first_varint(raw: u64, term: u64) -> (out: (u64, usize))
    requires
        term == !raw & MSB_MASK,
        term != 0,
    ensures
        ({
            let s = little_endian::le_bytes(raw as nat, 8);
            let m = little_endian::le_bytes(out.0 as nat, 8);
            &&& out.1 == varint::continuation_run(s) + 1
            &&& out.1 <= 8
            &&& forall|i: int| 0 <= i < 8 ==> #[trigger] m[i] == (if i < out.1 { s[i] } else { 0 })
        }),
{
    assert(term != 0 ==> !term < u64::MAX) by (bit_vector);
    let first_term: u64 = term & (!term + 1);
    assert(first_term > 0) by (bit_vector)
        requires
            term != 0,
            first_term == term & ((!term + 1) as u64),
    ;
    let byte_mask: u64 = first_term | (first_term - 1);
    let masked: u64 = raw & byte_mask;
    let zeros: u32 = first_term.trailing_zeros();
    proof {
        vstd::std_specs::bits::axiom_u64_trailing_zeros(first_term);
        let z: u64 = zeros as u64;
        assert(z < 64);
        assert(z % 8 == 7 && first_term == 1u64 << z && term & ((first_term - 1) as u64) == 0)
            by (bit_vector)
            requires
                z < 64,
                term == !raw & 0x8080_8080_8080_8080,
                first_term == term & ((!term + 1) as u64),
                (first_term >> z) & 1 == 1,
        ;
        let s = little_endian::le_bytes(raw as nat, 8);
        let m = little_endian::le_bytes(masked as nat, 8);
        let k: int = (z / 8) as int;
        assert forall|i: int| 0 <= i < 8 implies #[trigger] m[i] == (if i < k + 1 {
            s[i]
        } else {
            0
        }) && (i < k ==> s[i] >= 0x80) && (i == k ==> s[i] < 0x80) by {
            lemma_byte(raw, i);
            lemma_byte(masked, i);
            let d: u64 = (8 * i) as u64;
            assert({
                &&& (masked >> d) & 0xff == (if d < z { (raw >> d) & 0xff } else { 0 })
                &&& (d + 7 < z ==> (raw >> d) & 0xff >= 0x80)
                &&& (d + 7 == z ==> (raw >> d) & 0xff < 0x80)
            }) by (bit_vector)
                requires
                    d % 8 == 0,
                    d < 64,
                    z < 64,
                    z % 8 == 7,
                    term == !raw & 0x8080_8080_8080_8080,
                    first_term == 1u64 << z,
                    first_term == term & ((!term + 1) as u64),
                    masked == raw & (first_term | ((first_term - 1) as u64)),
            ;
        }
        lemma_byte(raw, k);
        assert(m[k] == s[k]);
        assert forall|i: int| 0 <= i < k implies s[i] >= 0x80 by {
            assert(m[i] == s[i]);
        }
        varint::lemma_run_reaches(s, k as nat);
    }
    (masked, (zeros / 8 + 1) as usize)
}

/// Decodes a varint of at most 32 bits out of eight bytes.
///
/// Gives the value and the number of bytes it takes, or `None` if it does not
/// end within the first five bytes, as a negative number sign-extended to ten
/// bytes does not.
pub fn decode_varint32_branchless(raw: u64) -> (out: Option<(u32, usize)>)
    ensures
        out == short_varint32(little_endian::le_bytes(raw as nat, 8)),
{
    let term: u64 = !raw & MSB_MASK;
    let ghost s = little_endian::le_bytes(raw as nat, 8);
    if term & FIRST_5_MSB == 0 {
        proof {
            assert forall|i: int| 0 <= i < 5 implies s[i] >= 0x80 by {
                lemma_byte(raw, i);
                let d: u64 = (8 * i) as u64;
                assert((raw >> d) & 0xff >= 0x80) by (bit_vector)
                    requires
                        d % 8 == 0,
                        d < 40,
                        term == !raw & 0x8080_8080_8080_8080,
                        term & 0x0000_0080_8080_8080 == 0,
                ;
            }
            lemma_byte(raw, 0);
            varint::lemma_run_reaches(s, 5);
        }
        return None;
    }
    assert(term != 0) by (bit_vector)
        requires
            term & 0x0000_0080_8080_8080 != 0,
    ;
    let (masked, len): (u64, usize) = first_varint(raw, term);
    proof {
        let m = little_endian::le_bytes(masked as nat, 8);
        lemma_byte(raw, 0);
        lemma_byte(masked, 0);
        varint::lemma_run(s);
        if len > 5 {
            lemma_byte(raw, 1);
            lemma_byte(raw, 2);
            lemma_byte(raw, 3);
            lemma_byte(raw, 4);
            assert(term & 0x0000_0080_8080_8080 == 0) by (bit_vector)
                requires
                    term == !raw & 0x8080_8080_8080_8080,
                    (raw >> 0) & 0xff >= 0x80,
                    (raw >> 8) & 0xff >= 0x80,
                    (raw >> 16) & 0xff >= 0x80,
                    (raw >> 24) & 0xff >= 0x80,
                    (raw >> 32) & 0xff >= 0x80,
            ;
        }
        varint::lemma_groups_eq(s, m, len as nat);
        varint::lemma_groups_padded(m, len as nat, 5);
    }
    Some((gather32(masked), len))
}

/// Decodes a varint of at most 56 bits out of eight bytes.
///
/// Gives the value and the number of bytes it takes, or `None` if it does not
/// end within the eight bytes.
pub fn decode_varint64_branchless(raw: u64) -> (out: Option<(u64, usize)>)
    ensures
        out == short_varint64(little_endian::le_bytes(raw as nat, 8)),
{
    let term: u64 = !raw & MSB_MASK;
    let ghost s = little_endian::le_bytes(raw as nat, 8);
    if term == 0 {
        proof {
            assert forall|i: int| 0 <= i < 8 implies s[i] >= 0x80 by {
                lemma_byte(raw, i);
                let d: u64 = (8 * i) as u64;
                assert((raw >> d) & 0xff >= 0x80) by (bit_vector)
                    requires
                        d % 8 == 0,
                        d < 64,
                        term == !raw & 0x8080_8080_8080_8080,
                        term == 0,
                ;
            }
            lemma_byte(raw, 0);
            varint::lemma_run_reaches(s, 8);
        }
        return None;
    }
    let (masked, len): (u64, usize) = first_varint(raw, term);
    proof {
        let m = little_endian::le_bytes(masked as nat, 8);
        lemma_byte(raw, 0);
        lemma_byte(masked, 0);
        varint::lemma_groups_eq(s, m, len as nat);
        varint::lemma_groups_padded(m, len as nat, 8);
    }
    Some((gather64(masked), len))
}

} // verus!
