//! Numbers of a fixed width, and how they are laid out in bytes.
use vstd::prelude::*;
use vstd::std_specs::cmp::PartialEqSpec;

use crate::little_endian;

verus! {

/// The signed number that the low `bits` bits of `v` spell in two's complement.
pub open spec fn twos_complement(v: nat, bits: nat) -> int {
    if v < vstd::arithmetic::power2::pow2((bits - 1) as nat) {
        v as int
    } else {
        v - vstd::arithmetic::power2::pow2(bits)
    }
}

/// The number below `2^bits` that stands for `v` in two's complement.
pub open spec fn unsigned(v: int, bits: nat) -> nat {
    if v >= 0 {
        v as nat
    } else {
        (v + vstd::arithmetic::power2::pow2(bits)) as nat
    }
}

/// A number that takes a fixed number of bytes, least significant first.
pub trait FixedWidth: Copy + PartialEq {
    /// How many bytes the number takes.
    spec fn width() -> nat;

    /// The number that `width` bytes spell.
    spec fn decode(s: Seq<u8>) -> Self;

    /// The bytes that spell the number.
    spec fn encode(self) -> Seq<u8>;

    /// Bytes that were written are read back as the number.
    proof fn lemma_round_trip(self)
        ensures
            self.encode().len() == Self::width(),
            Self::decode(self.encode()) == self,
    ;

    /// A number that was read is written as the bytes it was read from.
    proof fn lemma_bytes_round_trip(s: Seq<u8>)
        requires
            s.len() == Self::width(),
        ensures
            Self::decode(s).encode() == s,
    ;

    /// A number takes between one and sixteen bytes, and `==` tells two numbers
    /// apart exactly if they differ.
    proof fn lemma_fixed()
        ensures
            0 < Self::width() <= 16,
            Self::obeys_eq_spec(),
            forall|a: Self, b: Self| #[trigger] a.eq_spec(&b) <==> a == b,
    ;

    /// How many bytes the number takes.
    fn size() -> (n: usize)
        ensures
            n == Self::width(),
    ;

    /// Loads the number that starts at `at`.
    fn load(bytes: &[u8], at: usize) -> (value: Self)
        requires
            at + Self::width() <= bytes@.len(),
        ensures
            value == Self::decode(bytes@.subrange(at as int, at + Self::width())),
    ;
}

impl FixedWidth for u8 {
    open spec fn width() -> nat {
        1
    }

    open spec fn decode(s: Seq<u8>) -> u8 {
        little_endian::le_value(s) as u8
    }

    open spec fn encode(self) -> Seq<u8> {
        little_endian::le_bytes(self as nat, 1)
    }

    proof fn lemma_round_trip(self) {
        vstd::arithmetic::power2::lemma2_to64();
        vstd::arithmetic::power2::lemma2_to64_rest();
        little_endian::lemma_le_value_of_bytes(self as nat, 1);
    }

    proof fn lemma_bytes_round_trip(s: Seq<u8>) {
        vstd::arithmetic::power2::lemma2_to64();
        vstd::arithmetic::power2::lemma2_to64_rest();
        little_endian::lemma_le_value_bound(s);
        little_endian::lemma_le_bytes_of_value(s);
    }

    proof fn lemma_fixed() {
    }

    fn size() -> (n: usize) {
        1
    }

    fn load(bytes: &[u8], at: usize) -> (value: u8) {
        proof {
            little_endian::lemma_le_value_bound(bytes@.subrange(at as int, at + 1));
            vstd::arithmetic::power2::lemma2_to64();
            vstd::arithmetic::power2::lemma2_to64_rest();
        }
        little_endian::load(bytes, at, 1) as u8
    }
}

impl FixedWidth for i8 {
    open spec fn width() -> nat {
        1
    }

    open spec fn decode(s: Seq<u8>) -> i8 {
        twos_complement(little_endian::le_value(s), 8) as i8
    }

    open spec fn encode(self) -> Seq<u8> {
        little_endian::le_bytes(unsigned(self as int, 8), 1)
    }

    proof fn lemma_round_trip(self) {
        vstd::arithmetic::power2::lemma2_to64();
        vstd::arithmetic::power2::lemma2_to64_rest();
        little_endian::lemma_le_value_of_bytes(unsigned(self as int, 8), 1);
    }

    proof fn lemma_bytes_round_trip(s: Seq<u8>) {
        vstd::arithmetic::power2::lemma2_to64();
        vstd::arithmetic::power2::lemma2_to64_rest();
        little_endian::lemma_le_value_bound(s);
        little_endian::lemma_le_bytes_of_value(s);
    }

    proof fn lemma_fixed() {
    }

    fn size() -> (n: usize) {
        1
    }

    fn load(bytes: &[u8], at: usize) -> (value: i8) {
        proof {
            little_endian::lemma_le_value_bound(bytes@.subrange(at as int, at + 1));
            vstd::arithmetic::power2::lemma2_to64();
            vstd::arithmetic::power2::lemma2_to64_rest();
        }
        let raw: u64 = little_endian::load(bytes, at, 1);
        assert(raw as i8 == if raw < 0x80 {
            raw as int
        } else {
            raw - 0x100
        }) by (bit_vector)
            requires
                raw <= 0xff,
        ;
        raw as i8
    }
}

impl FixedWidth for u16 {
    open spec fn width() -> nat {
        2
    }

    open spec fn decode(s: Seq<u8>) -> u16 {
        little_endian::le_value(s) as u16
    }

    open spec fn encode(self) -> Seq<u8> {
        little_endian::le_bytes(self as nat, 2)
    }

    proof fn lemma_round_trip(self) {
        vstd::arithmetic::power2::lemma2_to64();
        vstd::arithmetic::power2::lemma2_to64_rest();
        little_endian::lemma_le_value_of_bytes(self as nat, 2);
    }

    proof fn lemma_bytes_round_trip(s: Seq<u8>) {
        vstd::arithmetic::power2::lemma2_to64();
        vstd::arithmetic::power2::lemma2_to64_rest();
        little_endian::lemma_le_value_bound(s);
        little_endian::lemma_le_bytes_of_value(s);
    }

    proof fn lemma_fixed() {
    }

    fn size() -> (n: usize) {
        2
    }

    fn load(bytes: &[u8], at: usize) -> (value: u16) {
        proof {
            little_endian::lemma_le_value_bound(bytes@.subrange(at as int, at + 2));
            vstd::arithmetic::power2::lemma2_to64();
            vstd::arithmetic::power2::lemma2_to64_rest();
        }
        little_endian::load(bytes, at, 2) as u16
    }
}

impl FixedWidth for i16 {
    open spec fn width() -> nat {
        2
    }

    open spec fn decode(s: Seq<u8>) -> i16 {
        twos_complement(little_endian::le_value(s), 16) as i16
    }

    open spec fn encode(self) -> Seq<u8> {
        little_endian::le_bytes(unsigned(self as int, 16), 2)
    }

    proof fn lemma_round_trip(self) {
        vstd::arithmetic::power2::lemma2_to64();
        vstd::arithmetic::power2::lemma2_to64_rest();
        little_endian::lemma_le_value_of_bytes(unsigned(self as int, 16), 2);
    }

    proof fn lemma_bytes_round_trip(s: Seq<u8>) {
        vstd::arithmetic::power2::lemma2_to64();
        vstd::arithmetic::power2::lemma2_to64_rest();
        little_endian::lemma_le_value_bound(s);
        little_endian::lemma_le_bytes_of_value(s);
    }

    proof fn lemma_fixed() {
    }

    fn size() -> (n: usize) {
        2
    }

    fn load(bytes: &[u8], at: usize) -> (value: i16) {
        proof {
            little_endian::lemma_le_value_bound(bytes@.subrange(at as int, at + 2));
            vstd::arithmetic::power2::lemma2_to64();
            vstd::arithmetic::power2::lemma2_to64_rest();
        }
        let raw: u64 = little_endian::load(bytes, at, 2);
        assert(raw as i16 == if raw < 0x8000 {
            raw as int
        } else {
            raw - 0x10000
        }) by (bit_vector)
            requires
                raw <= 0xffff,
        ;
        raw as i16
    }
}

impl FixedWidth for u32 {
    open spec fn width() -> nat {
        4
    }

    open spec fn decode(s: Seq<u8>) -> u32 {
        little_endian::le_value(s) as u32
    }

    open spec fn encode(self) -> Seq<u8> {
        little_endian::le_bytes(self as nat, 4)
    }

    proof fn lemma_round_trip(self) {
        vstd::arithmetic::power2::lemma2_to64();
        vstd::arithmetic::power2::lemma2_to64_rest();
        little_endian::lemma_le_value_of_bytes(self as nat, 4);
    }

    proof fn lemma_bytes_round_trip(s: Seq<u8>) {
        vstd::arithmetic::power2::lemma2_to64();
        vstd::arithmetic::power2::lemma2_to64_rest();
        little_endian::lemma_le_value_bound(s);
        little_endian::lemma_le_bytes_of_value(s);
    }

    proof fn lemma_fixed() {
    }

    fn size() -> (n: usize) {
        4
    }

    fn load(bytes: &[u8], at: usize) -> (value: u32) {
        proof {
            little_endian::lemma_le_value_bound(bytes@.subrange(at as int, at + 4));
            vstd::arithmetic::power2::lemma2_to64();
            vstd::arithmetic::power2::lemma2_to64_rest();
        }
        little_endian::load(bytes, at, 4) as u32
    }
}

impl FixedWidth for i32 {
    open spec fn width() -> nat {
        4
    }

    open spec fn decode(s: Seq<u8>) -> i32 {
        twos_complement(little_endian::le_value(s), 32) as i32
    }

    open spec fn encode(self) -> Seq<u8> {
        little_endian::le_bytes(unsigned(self as int, 32), 4)
    }

    proof fn lemma_round_trip(self) {
        vstd::arithmetic::power2::lemma2_to64();
        vstd::arithmetic::power2::lemma2_to64_rest();
        little_endian::lemma_le_value_of_bytes(unsigned(self as int, 32), 4);
    }

    proof fn lemma_bytes_round_trip(s: Seq<u8>) {
        vstd::arithmetic::power2::lemma2_to64();
        vstd::arithmetic::power2::lemma2_to64_rest();
        little_endian::lemma_le_value_bound(s);
        little_endian::lemma_le_bytes_of_value(s);
    }

    proof fn lemma_fixed() {
    }

    fn size() -> (n: usize) {
        4
    }

    fn load(bytes: &[u8], at: usize) -> (value: i32) {
        proof {
            little_endian::lemma_le_value_bound(bytes@.subrange(at as int, at + 4));
            vstd::arithmetic::power2::lemma2_to64();
            vstd::arithmetic::power2::lemma2_to64_rest();
        }
        let raw: u64 = little_endian::load(bytes, at, 4);
        assert(raw as i32 == if raw < 0x80000000 {
            raw as int
        } else {
            raw - 0x100000000
        }) by (bit_vector)
            requires
                raw <= 0xffffffff,
        ;
        raw as i32
    }
}

impl FixedWidth for u64 {
    open spec fn width() -> nat {
        8
    }

    open spec fn decode(s: Seq<u8>) -> u64 {
        little_endian::le_value(s) as u64
    }

    open spec fn encode(self) -> Seq<u8> {
        little_endian::le_bytes(self as nat, 8)
    }

    proof fn lemma_round_trip(self) {
        vstd::arithmetic::power2::lemma2_to64();
        vstd::arithmetic::power2::lemma2_to64_rest();
        little_endian::lemma_le_value_of_bytes(self as nat, 8);
    }

    proof fn lemma_bytes_round_trip(s: Seq<u8>) {
        vstd::arithmetic::power2::lemma2_to64();
        vstd::arithmetic::power2::lemma2_to64_rest();
        little_endian::lemma_le_value_bound(s);
        little_endian::lemma_le_bytes_of_value(s);
    }

    proof fn lemma_fixed() {
    }

    fn size() -> (n: usize) {
        8
    }

    fn load(bytes: &[u8], at: usize) -> (value: u64) {
        proof {
            little_endian::lemma_le_value_bound(bytes@.subrange(at as int, at + 8));
            vstd::arithmetic::power2::lemma2_to64();
            vstd::arithmetic::power2::lemma2_to64_rest();
        }
        little_endian::load(bytes, at, 8) as u64
    }
}

impl FixedWidth for i64 {
    open spec fn width() -> nat {
        8
    }

    open spec fn decode(s: Seq<u8>) -> i64 {
        twos_complement(little_endian::le_value(s), 64) as i64
    }

    open spec fn encode(self) -> Seq<u8> {
        little_endian::le_bytes(unsigned(self as int, 64), 8)
    }

    proof fn lemma_round_trip(self) {
        vstd::arithmetic::power2::lemma2_to64();
        vstd::arithmetic::power2::lemma2_to64_rest();
        little_endian::lemma_le_value_of_bytes(unsigned(self as int, 64), 8);
    }

    proof fn lemma_bytes_round_trip(s: Seq<u8>) {
        vstd::arithmetic::power2::lemma2_to64();
        vstd::arithmetic::power2::lemma2_to64_rest();
        little_endian::lemma_le_value_bound(s);
        little_endian::lemma_le_bytes_of_value(s);
    }

    proof fn lemma_fixed() {
    }

    fn size() -> (n: usize) {
        8
    }

    fn load(bytes: &[u8], at: usize) -> (value: i64) {
        proof {
            little_endian::lemma_le_value_bound(bytes@.subrange(at as int, at + 8));
            vstd::arithmetic::power2::lemma2_to64();
            vstd::arithmetic::power2::lemma2_to64_rest();
        }
        let raw: u64 = little_endian::load(bytes, at, 8);
        assert(raw as i64 == if raw < 0x8000000000000000 {
            raw as int
        } else {
            raw - 0x10000000000000000
        }) by (bit_vector)
            requires
                raw <= 0xffffffffffffffff,
        ;
        raw as i64
    }
}

/// The powers of two that bound 128 bits.
proof fn lemma_pow2_128()
    ensures
        vstd::arithmetic::power2::pow2(127) == 0x8000_0000_0000_0000_0000_0000_0000_0000,
        vstd::arithmetic::power2::pow2(128) == 0x1_0000_0000_0000_0000_0000_0000_0000_0000,
{
    vstd::arithmetic::power2::lemma2_to64_rest();
    vstd::arithmetic::power2::lemma_pow2_adds(63, 64);
    vstd::arithmetic::power2::lemma_pow2_adds(64, 64);
}

impl FixedWidth for u128 {
    open spec fn width() -> nat {
        16
    }

    open spec fn decode(s: Seq<u8>) -> u128 {
        little_endian::le_value(s) as u128
    }

    open spec fn encode(self) -> Seq<u8> {
        little_endian::le_bytes(self as nat, 16)
    }

    proof fn lemma_round_trip(self) {
        lemma_pow2_128();
        little_endian::lemma_le_value_of_bytes(self as nat, 16);
    }

    proof fn lemma_bytes_round_trip(s: Seq<u8>) {
        lemma_pow2_128();
        little_endian::lemma_le_value_bound(s);
        little_endian::lemma_le_bytes_of_value(s);
    }

    proof fn lemma_fixed() {
    }

    fn size() -> (n: usize) {
        16
    }

    fn load(bytes: &[u8], at: usize) -> (value: u128) {
        little_endian::load128(bytes, at)
    }
}

impl FixedWidth for i128 {
    open spec fn width() -> nat {
        16
    }

    open spec fn decode(s: Seq<u8>) -> i128 {
        twos_complement(little_endian::le_value(s), 128) as i128
    }

    open spec fn encode(self) -> Seq<u8> {
        little_endian::le_bytes(unsigned(self as int, 128), 16)
    }

    proof fn lemma_round_trip(self) {
        lemma_pow2_128();
        little_endian::lemma_le_value_of_bytes(unsigned(self as int, 128), 16);
    }

    proof fn lemma_bytes_round_trip(s: Seq<u8>) {
        lemma_pow2_128();
        little_endian::lemma_le_value_bound(s);
        little_endian::lemma_le_bytes_of_value(s);
    }

    proof fn lemma_fixed() {
    }

    fn size() -> (n: usize) {
        16
    }

    fn load(bytes: &[u8], at: usize) -> (value: i128) {
        let raw: u128 = little_endian::load128(bytes, at);
        proof {
            lemma_pow2_128();
        }
        assert(raw as i128 == if raw < 0x8000_0000_0000_0000_0000_0000_0000_0000 {
            raw as int
        } else {
            raw - 0x1_0000_0000_0000_0000_0000_0000_0000_0000
        }) by (bit_vector);
        raw as i128
    }
}

/// The powers of two that bound a machine word.
proof fn lemma_pow2_word()
    ensures
        usize::BITS == 32 || usize::BITS == 64,
        vstd::arithmetic::power2::pow2(8 * (usize::BITS / 8) as nat) == usize::MAX + 1,
        vstd::arithmetic::power2::pow2((usize::BITS - 1) as nat) == isize::MAX + 1,
{
    vstd::arithmetic::power2::lemma2_to64();
    vstd::arithmetic::power2::lemma2_to64_rest();
}

impl FixedWidth for usize {
    open spec fn width() -> nat {
        (usize::BITS / 8) as nat
    }

    open spec fn decode(s: Seq<u8>) -> usize {
        little_endian::le_value(s) as usize
    }

    open spec fn encode(self) -> Seq<u8> {
        little_endian::le_bytes(self as nat, Self::width())
    }

    proof fn lemma_round_trip(self) {
        lemma_pow2_word();
        little_endian::lemma_le_value_of_bytes(self as nat, Self::width());
    }

    proof fn lemma_bytes_round_trip(s: Seq<u8>) {
        lemma_pow2_word();
        little_endian::lemma_le_value_bound(s);
        little_endian::lemma_le_bytes_of_value(s);
    }

    proof fn lemma_fixed() {
        lemma_pow2_word();
    }

    fn size() -> (n: usize) {
        (usize::BITS / 8) as usize
    }

    fn load(bytes: &[u8], at: usize) -> (value: usize) {
        let n: usize = Self::size();
        proof {
            lemma_pow2_word();
            little_endian::lemma_le_value_bound(bytes@.subrange(at as int, at + n));
        }
        little_endian::load(bytes, at, n) as usize
    }
}

impl FixedWidth for isize {
    open spec fn width() -> nat {
        (usize::BITS / 8) as nat
    }

    open spec fn decode(s: Seq<u8>) -> isize {
        twos_complement(little_endian::le_value(s), usize::BITS as nat) as isize
    }

    open spec fn encode(self) -> Seq<u8> {
        little_endian::le_bytes(unsigned(self as int, usize::BITS as nat), Self::width())
    }

    proof fn lemma_round_trip(self) {
        lemma_pow2_word();
        little_endian::lemma_le_value_of_bytes(
            unsigned(self as int, usize::BITS as nat),
            Self::width(),
        );
    }

    proof fn lemma_bytes_round_trip(s: Seq<u8>) {
        lemma_pow2_word();
        little_endian::lemma_le_value_bound(s);
        little_endian::lemma_le_bytes_of_value(s);
    }

    proof fn lemma_fixed() {
        lemma_pow2_word();
    }

    fn size() -> (n: usize) {
        (usize::BITS / 8) as usize
    }

    fn load(bytes: &[u8], at: usize) -> (value: isize) {
        proof {
            lemma_pow2_word();
            vstd::arithmetic::power2::lemma2_to64();
            little_endian::lemma_le_value_bound(bytes@.subrange(at as int, at + Self::width()));
        }
        if usize::BITS == 32 {
            i32::load(bytes, at) as isize
        } else {
            i64::load(bytes, at) as isize
        }
    }
}

} // verus!
