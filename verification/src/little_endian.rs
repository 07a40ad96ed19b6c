//! Fixed-width integers in little-endian byte order.
use vstd::prelude::*;

verus! {

/// The number that `s` spells in base 256, least significant byte first.
pub open spec fn le_value(s: Seq<u8>) -> nat
    decreases s.len(),
{
    if s.len() == 0 {
        0
    } else {
        s[0] as nat + 256 * le_value(s.skip(1))
    }
}

/// The `n` low bytes of `v`, least significant first.
pub open spec fn le_bytes(v: nat, n: nat) -> Seq<u8>
    decreases n,
{
    if n == 0 {
        Seq::empty()
    } else {
        seq![(v % 256) as u8] + le_bytes(v / 256, (n - 1) as nat)
    }
}

/// `n` bytes spell a number below `2^(8 n)`.
pub proof fn lemma_le_value_bound(s: Seq<u8>)
    ensures
        le_value(s) < vstd::arithmetic::power2::pow2(8 * s.len()),
    decreases s.len(),
{
    vstd::arithmetic::power2::lemma2_to64();
    if s.len() > 0 {
        lemma_le_value_bound(s.skip(1));
        vstd::arithmetic::power2::lemma_pow2_adds(8, 8 * s.skip(1).len());
    }
}

/// Spelling a number out in bytes and reading the bytes back is the identity.
pub proof fn lemma_le_bytes_of_value(s: Seq<u8>)
    ensures
        le_bytes(le_value(s), s.len()) == s,
    decreases s.len(),
{
    if s.len() > 0 {
        lemma_le_bytes_of_value(s.skip(1));
        assert(seq![s[0]] + s.skip(1) =~= s);
    }
}

/// Reading back the `n` low bytes of a number that fits in them gives the
/// number.
pub proof fn lemma_le_value_of_bytes(v: nat, n: nat)
    requires
        v < vstd::arithmetic::power2::pow2(8 * n),
    ensures
        le_bytes(v, n).len() == n,
        le_value(le_bytes(v, n)) == v,
    decreases n,
{
    vstd::arithmetic::power2::lemma2_to64();
    if n > 0 {
        vstd::arithmetic::power2::lemma_pow2_adds(8, (8 * (n - 1)) as nat);
        assert(v / 256 < vstd::arithmetic::power2::pow2((8 * (n - 1)) as nat));
        lemma_le_value_of_bytes(v / 256, (n - 1) as nat);
        assert(le_bytes(v, n).skip(1) =~= le_bytes(v / 256, (n - 1) as nat));
    }
}

/// Loads the `n`-byte little-endian number that starts at `at`.
pub fn load(bytes: &[u8], at: usize, n: usize) -> (value: u64)
    requires
        n <= 8,
        at + n <= bytes.len(),
    ensures
        value == le_value(bytes@.subrange(at as int, at + n)),
{
    let mut value: u64 = 0;
    let mut i: usize = n;
    assert(bytes@.subrange(at + i, at + n) =~= Seq::empty());
    while i > 0
        invariant
            i <= n <= 8,
            at + n <= bytes.len(),
            value == le_value(bytes@.subrange(at + i, at + n)),
        decreases i,
    {
        let ghost tail = bytes@.subrange(at + i, at + n);
        proof {
            lemma_le_value_bound(tail);
            if tail.len() < 7 {
                vstd::arithmetic::power2::lemma_pow2_strictly_increases(8 * tail.len(), 56);
            }
            vstd::arithmetic::power2::lemma2_to64_rest();
        }
        i = i - 1;
        proof {
            let longer = bytes@.subrange(at + i, at + n);
            assert(longer.skip(1) =~= tail);
        }
        value = value * 256 + bytes[at + i] as u64;
    }
    value
}

/// The bytes in front count as they are, those behind by what the ones in front
/// leave room for.
pub proof fn lemma_le_value_concat(a: Seq<u8>, b: Seq<u8>)
    ensures
        le_value(a + b) == le_value(a) + vstd::arithmetic::power2::pow2(8 * a.len()) * le_value(b),
    decreases a.len(),
{
    vstd::arithmetic::power2::lemma2_to64();
    let v = le_value(b);
    let q = vstd::arithmetic::power2::pow2(8 * a.len());
    if a.len() == 0 {
        assert(a + b =~= b);
        assert(q * v == v) by (nonlinear_arith)
            requires
                q == 1,
        ;
    } else {
        let p = vstd::arithmetic::power2::pow2(8 * a.skip(1).len());
        lemma_le_value_concat(a.skip(1), b);
        assert((a + b).skip(1) =~= a.skip(1) + b);
        vstd::arithmetic::power2::lemma_pow2_adds(8, 8 * a.skip(1).len());
        assert(q * v == 256 * (p * v)) by (nonlinear_arith)
            requires
                q == 256 * p,
        ;
    }
}

/// Loads the sixteen-byte little-endian number that starts at `at`.
pub fn load128(bytes: &[u8], at: usize) -> (value: u128)
    requires
        at + 16 <= bytes@.len(),
    ensures
        value == le_value(bytes@.subrange(at as int, at + 16)),
{
    assert(bytes@.len() == bytes.len());
    let low: u128 = load(bytes, at, 8) as u128;
    let high: u128 = load(bytes, at + 8, 8) as u128;
    proof {
        let a = bytes@.subrange(at as int, at + 8);
        let b = bytes@.subrange(at + 8, at + 16);
        vstd::arithmetic::power2::lemma2_to64_rest();
        lemma_le_value_concat(a, b);
        assert(a + b =~= bytes@.subrange(at as int, at + 16));
        assert(8 * a.len() == 64);
        let p = vstd::arithmetic::power2::pow2(64);
        let v = le_value(b);
        assert(low == le_value(a) && high == v);
        assert(p * v == v * 0x1_0000_0000_0000_0000) by (nonlinear_arith)
            requires
                p == 0x1_0000_0000_0000_0000,
        ;
        assert(le_value(a + b) == low + high * 0x1_0000_0000_0000_0000);
    }
    low + high * 0x1_0000_0000_0000_0000
}

} // verus!
