//! Base-128 integers.
//!
//! A varint spells a number in groups of seven bits, least significant group
//! first, one group per byte. The top bit of a byte says that another byte
//! follows. A varint takes at most ten bytes; bits beyond the width of the
//! integer that is asked for are dropped.
use vstd::prelude::*;

use crate::cursor::Step;
use crate::error::Error;

verus! {

/// The most bytes a varint may take.
pub const MAX_VARINT_LEN: usize = 10;

/// How many bytes at the front of `s` carry the continuation bit.
pub open spec fn continuation_run(s: Seq<u8>) -> nat
    decreases s.len(),
{
    if s.len() == 0 || s[0] < 0x80 {
        0
    } else {
        1 + continuation_run(s.skip(1))
    }
}

/// The number that the low seven bits of the first `k` bytes of `s` spell.
pub open spec fn groups(s: Seq<u8>, k: nat) -> nat
    decreases k,
{
    if k == 0 {
        0
    } else {
        groups(s, (k - 1) as nat) + (s[k - 1] % 128) as nat * vstd::arithmetic::power2::pow2(
            (7 * (k - 1)) as nat,
        )
    }
}

/// Decodes the varint at the front of `s`, at full precision.
///
/// It ends at the first byte without the continuation bit. When the first ten
/// bytes all carry it the varint is malformed; when the bytes run out earlier
/// it is cut short.
pub open spec fn varint(s: Seq<u8>) -> Step<nat> {
    let run = continuation_run(s);
    if run < s.len() && run < MAX_VARINT_LEN {
        Step::ok(groups(s, run + 1), run + 1)
    } else if s.len() >= MAX_VARINT_LEN {
        Step::err(Error::Varint, MAX_VARINT_LEN as nat)
    } else {
        Step::err(Error::UnexpectedEndOfBuffer, s.len())
    }
}

/// Decodes the varint at the front of `s`, keeping the low 64 bits.
pub open spec fn varint64(s: Seq<u8>) -> Step<u64> {
    varint(s).map(|v: nat| (v % 0x1_0000_0000_0000_0000) as u64)
}

/// Decodes the varint at the front of `s`, keeping the low 32 bits.
pub open spec fn varint32(s: Seq<u8>) -> Step<u32> {
    varint(s).map(|v: nat| (v % 0x1_0000_0000) as u32)
}

/// The continuation bit is the top bit.
pub proof fn lemma_msb(b: u8)
    ensures
        b & 0x80 == 0 <==> b < 0x80,
{
    assert(b & 0x80 == 0 <==> b < 0x80) by (bit_vector);
}

/// What a continuation run says about the bytes.
pub proof fn lemma_run(s: Seq<u8>)
    ensures
        continuation_run(s) <= s.len(),
        forall|i: int| 0 <= i < continuation_run(s) ==> s[i] >= 0x80,
        continuation_run(s) < s.len() ==> s[continuation_run(s) as int] < 0x80,
    decreases s.len(),
{
    if s.len() > 0 && s[0] >= 0x80 {
        lemma_run(s.skip(1));
        assert forall|i: int| 0 <= i < continuation_run(s) implies s[i] >= 0x80 by {
            if i > 0 {
                assert(s[i] == s.skip(1)[i - 1]);
            }
        }
        assert(continuation_run(s) < s.len() ==> s[continuation_run(s) as int] == s.skip(
            1,
        )[continuation_run(s.skip(1)) as int]);
    }
}

/// Every run stops within the bytes, and at a byte that ends it.
pub proof fn lemma_runs()
    ensures
        forall|s: Seq<u8>|
            {
                let run = #[trigger] continuation_run(s);
                &&& run <= s.len()
                &&& forall|i: int| 0 <= i < run ==> s[i] >= 0x80
                &&& run < s.len() ==> s[run as int] < 0x80
            },
{
    assert forall|s: Seq<u8>|
        {
            let run = #[trigger] continuation_run(s);
            &&& run <= s.len()
            &&& forall|i: int| 0 <= i < run ==> s[i] >= 0x80
            &&& run < s.len() ==> s[run as int] < 0x80
        } by {
        lemma_run(s);
    }
}

/// A stretch of continuation bytes is part of the run, and is all of it when
/// the next byte ends it.
pub proof fn lemma_run_reaches(s: Seq<u8>, k: nat)
    requires
        k <= s.len(),
        forall|i: int| 0 <= i < k ==> s[i] >= 0x80,
    ensures
        continuation_run(s) >= k,
        k == s.len() || s[k as int] < 0x80 ==> continuation_run(s) == k,
{
    lemma_run(s);
}

/// Behind a stretch of continuation bytes the run goes on in the rest.
pub proof fn lemma_run_split(s: Seq<u8>, k: nat)
    requires
        k <= s.len(),
        forall|i: int| 0 <= i < k ==> s[i] >= 0x80,
    ensures
        continuation_run(s) == k + continuation_run(s.skip(k as int)),
{
    let t = s.skip(k as int);
    let n = k + continuation_run(t);
    lemma_run(t);
    assert forall|i: int| 0 <= i < n implies s[i] >= 0x80 by {
        if i >= k {
            assert(s[i] == t[i - k]);
        }
    }
    if n < s.len() {
        assert(s[n as int] == t[n - k]);
    }
    lemma_run_reaches(s, n);
}

/// A varint whose first `k` bytes go on and whose next one does not.
pub proof fn lemma_ends(s: Seq<u8>, k: nat)
    requires
        k < s.len(),
        k < MAX_VARINT_LEN,
        forall|i: int| 0 <= i < k ==> s[i] >= 0x80,
        s[k as int] < 0x80,
    ensures
        varint(s) == Step::ok(groups(s, k + 1), k + 1),
{
    lemma_run_reaches(s, k);
}

/// Bytes that all go on, and then run out.
pub proof fn lemma_cut_short(s: Seq<u8>)
    requires
        s.len() < MAX_VARINT_LEN,
        forall|i: int| 0 <= i < s.len() ==> s[i] >= 0x80,
    ensures
        varint(s) == Step::<nat>::err(Error::UnexpectedEndOfBuffer, s.len()),
{
    lemma_run_reaches(s, s.len());
}

/// Ten bytes that all go on.
pub proof fn lemma_malformed(s: Seq<u8>)
    requires
        s.len() >= MAX_VARINT_LEN,
        forall|i: int| 0 <= i < MAX_VARINT_LEN ==> s[i] >= 0x80,
    ensures
        varint(s) == Step::<nat>::err(Error::Varint, MAX_VARINT_LEN as nat),
{
    lemma_run_reaches(s, MAX_VARINT_LEN as nat);
}

/// The groups depend on the bytes they are taken from and nothing else.
pub proof fn lemma_groups_eq(s: Seq<u8>, t: Seq<u8>, k: nat)
    requires
        k <= s.len(),
        k <= t.len(),
        forall|i: int| 0 <= i < k ==> s[i] == t[i],
    ensures
        groups(s, k) == groups(t, k),
    decreases k,
{
    if k > 0 {
        lemma_groups_eq(s, t, (k - 1) as nat);
    }
}

/// Bytes that are zero add nothing.
pub proof fn lemma_groups_padded(s: Seq<u8>, k: nat, n: nat)
    requires
        k <= n <= s.len(),
        forall|i: int| k <= i < n ==> s[i] == 0,
    ensures
        groups(s, n) == groups(s, k),
    decreases n,
{
    if n > k {
        lemma_groups_padded(s, k, (n - 1) as nat);
        assert(0 * vstd::arithmetic::power2::pow2((7 * (n - 1)) as nat) == 0);
    }
}

/// `k` groups spell a number below `2^(7 k)`.
pub proof fn lemma_groups_bound(s: Seq<u8>, k: nat)
    ensures
        groups(s, k) < vstd::arithmetic::power2::pow2(7 * k),
    decreases k,
{
    vstd::arithmetic::power2::lemma2_to64();
    if k > 0 {
        let p = vstd::arithmetic::power2::pow2((7 * (k - 1)) as nat);
        lemma_groups_bound(s, (k - 1) as nat);
        vstd::arithmetic::power2::lemma_pow2_adds(7, (7 * (k - 1)) as nat);
        let d = (s[k - 1] % 128) as nat;
        assert(p + d * p <= 128 * p) by (nonlinear_arith)
            requires
                d <= 127,
        ;
    }
}

/// The groups of a longer varint are the first group plus `128` times the rest.
pub proof fn lemma_groups_front(s: Seq<u8>, k: nat)
    requires
        0 < k <= s.len(),
    ensures
        groups(s, k) == (s[0] % 128) as nat + 128 * groups(s.skip(1), (k - 1) as nat),
    decreases k,
{
    vstd::arithmetic::power2::lemma2_to64();
    if k > 1 {
        lemma_groups_front(s, (k - 1) as nat);
        let d = (s[k - 1] % 128) as nat;
        let p = vstd::arithmetic::power2::pow2((7 * (k - 2)) as nat);
        vstd::arithmetic::power2::lemma_pow2_adds(7, (7 * (k - 2)) as nat);
        assert(s.skip(1)[k - 2] == s[k - 1]);
        assert(d * (128 * p) == 128 * (d * p)) by (nonlinear_arith);
    } else {
        assert(groups(s, 1) == groups(s, 0) + (s[0] % 128) as nat
            * vstd::arithmetic::power2::pow2(0));
        assert(groups(s.skip(1), 0) == 0);
    }
}

/// Groups from the fifth on do not touch the low 32 bits once the fifth is in.
pub proof fn lemma_groups_low32(s: Seq<u8>, k: nat)
    requires
        k >= 5,
    ensures
        groups(s, k) % 0x1_0000_0000 == groups(s, 5) % 0x1_0000_0000,
    decreases k,
{
    if k > 5 {
        lemma_groups_low32(s, (k - 1) as nat);
        let d = (s[k - 1] % 128) as nat;
        let q = vstd::arithmetic::power2::pow2((7 * (k - 1) - 32) as nat);
        vstd::arithmetic::power2::lemma2_to64();
        vstd::arithmetic::power2::lemma_pow2_adds(32, (7 * (k - 1) - 32) as nat);
        assert(d * (0x1_0000_0000 * q) == 0x1_0000_0000 * (d * q)) by (nonlinear_arith);
        assert((groups(s, (k - 1) as nat) + 0x1_0000_0000 * (d * q)) % 0x1_0000_0000 == groups(
            s,
            (k - 1) as nat,
        ) % 0x1_0000_0000);
    }
}

/// What follows a complete varint does not matter to it.
pub proof fn lemma_varint_prefix(s: Seq<u8>, t: Seq<u8>)
    requires
        varint(s).out is Ok,
    ensures
        varint(s + t) == varint(s),
        0 < varint(s).used <= s.len(),
{
    let run = continuation_run(s);
    lemma_run(s);
    assert forall|i: int| 0 <= i < run implies (s + t)[i] >= 0x80 by {
        assert((s + t)[i] == s[i]);
    }
    lemma_ends(s + t, run);
    lemma_groups_eq(s, s + t, run + 1);
}

/// A complete varint is one without what follows it, too.
pub proof fn lemma_varint_take(s: Seq<u8>, n: nat)
    requires
        varint(s).out is Ok,
        varint(s).used <= n <= s.len(),
    ensures
        varint(s.take(n as int)) == varint(s),
{
    let run = continuation_run(s);
    let t = s.take(n as int);
    lemma_run(s);
    lemma_ends(t, run);
    lemma_groups_eq(s, t, run + 1);
}

/// Up to four groups fit 32 bits, and nine fit 64.
pub proof fn lemma_groups_small(s: Seq<u8>, k: nat)
    ensures
        k <= 4 ==> groups(s, k) % 0x1_0000_0000 < vstd::arithmetic::power2::pow2(7 * k),
        k <= 4 ==> groups(s, k) % 0x1_0000_0000 == groups(s, k),
        k <= 9 ==> groups(s, k) % 0x1_0000_0000_0000_0000 < vstd::arithmetic::power2::pow2(7 * k),
        k <= 9 ==> groups(s, k) % 0x1_0000_0000_0000_0000 == groups(s, k),
{
    lemma_groups_bound(s, k);
    vstd::arithmetic::power2::lemma2_to64();
    vstd::arithmetic::power2::lemma2_to64_rest();
    if k < 4 {
        vstd::arithmetic::power2::lemma_pow2_strictly_increases(7 * k, 28);
    }
    if k < 9 {
        vstd::arithmetic::power2::lemma_pow2_strictly_increases(7 * k, 63);
    }
}

/// A varint whose first five bytes go on: its low 32 bits are known, and the
/// rest decides only where it ends.
pub proof fn lemma_extension(s: Seq<u8>)
    requires
        s.len() >= 5,
        forall|i: int| 0 <= i < 5 ==> s[i] >= 0x80,
    ensures
        ({
            let t = s.skip(5);
            let run = continuation_run(t);
            varint32(s) == if run < t.len() && run < 5 {
                Step::ok((groups(s, 5) % 0x1_0000_0000) as u32, run + 6)
            } else if t.len() >= 5 {
                Step::err(Error::Varint, 10)
            } else {
                Step::err(Error::UnexpectedEndOfBuffer, s.len())
            }
        }),
{
    lemma_run_split(s, 5);
    lemma_run(s.skip(5));
    lemma_groups_low32(s, continuation_run(s) + 1);
}

/// Equal factors give equal products.
proof fn lemma_scale(d: int, p: int, c: int)
    requires
        p == c,
    ensures
        d * p == d * c,
{
}

/// The weights of the first ten groups, times a digit.
pub proof fn lemma_weights(d: int)
    ensures
        d * vstd::arithmetic::power2::pow2(0) == d,
        d * vstd::arithmetic::power2::pow2(7) == d * 0x80,
        d * vstd::arithmetic::power2::pow2(14) == d * 0x4000,
        d * vstd::arithmetic::power2::pow2(21) == d * 0x20_0000,
        d * vstd::arithmetic::power2::pow2(28) == d * 0x1000_0000,
        d * vstd::arithmetic::power2::pow2(35) == d * 0x8_0000_0000,
        d * vstd::arithmetic::power2::pow2(42) == d * 0x400_0000_0000,
        d * vstd::arithmetic::power2::pow2(49) == d * 0x2_0000_0000_0000,
        d * vstd::arithmetic::power2::pow2(56) == d * 0x100_0000_0000_0000,
        d * vstd::arithmetic::power2::pow2(63) == d * 0x8000_0000_0000_0000,
{
    vstd::arithmetic::power2::lemma2_to64();
    vstd::arithmetic::power2::lemma2_to64_rest();
    lemma_scale(d, vstd::arithmetic::power2::pow2(0) as int, 1);
    lemma_scale(d, vstd::arithmetic::power2::pow2(7) as int, 0x80);
    lemma_scale(d, vstd::arithmetic::power2::pow2(14) as int, 0x4000);
    lemma_scale(d, vstd::arithmetic::power2::pow2(21) as int, 0x20_0000);
    lemma_scale(d, vstd::arithmetic::power2::pow2(28) as int, 0x1000_0000);
    lemma_scale(d, vstd::arithmetic::power2::pow2(35) as int, 0x8_0000_0000);
    lemma_scale(d, vstd::arithmetic::power2::pow2(42) as int, 0x400_0000_0000);
    lemma_scale(d, vstd::arithmetic::power2::pow2(49) as int, 0x2_0000_0000_0000);
    lemma_scale(d, vstd::arithmetic::power2::pow2(56) as int, 0x100_0000_0000_0000);
    lemma_scale(d, vstd::arithmetic::power2::pow2(63) as int, 0x8000_0000_0000_0000);
}

/// Puts the seven bits of `b` in as group `i` of `r`, dropping what does not
/// fit 32 bits.
pub fn push_group32(r: u32, b: u8, i: u32) -> (out: u32)
    requires
        i < 5,
        r < vstd::arithmetic::power2::pow2((7 * i) as nat),
    ensures
        out == (r + (b % 128) * vstd::arithmetic::power2::pow2((7 * i) as nat)) % 0x1_0000_0000,
{
    let bits: u32 = (b & 0x7f) as u32;
    proof {
        vstd::arithmetic::power2::lemma2_to64();
        assert(b & 0x7f == b % 128) by (bit_vector);
        lemma_weights((b % 128) as int);
        let s: u32 = (7 * i) as u32;
        assert(s == 0 || s == 7 || s == 14 || s == 21 || s == 28);
        assert(bits < 128 ==> {
            &&& (s == 0 && r < 1 ==> r | (bits << s) == r + bits)
            &&& (s == 7 && r < 0x80 ==> r | (bits << s) == r + bits * 0x80)
            &&& (s == 14 && r < 0x4000 ==> r | (bits << s) == r + bits * 0x4000)
            &&& (s == 21 && r < 0x20_0000 ==> r | (bits << s) == r + bits * 0x20_0000)
            &&& (s == 28 && r < 0x1000_0000 ==> r | (bits << s) == (r + bits * 0x1000_0000)
                % 0x1_0000_0000)
        }) by (bit_vector);
    }
    r | (bits << (7 * i))
}

/// Puts the seven bits of `b` in as group `i` of `r`, dropping what does not
/// fit 64 bits.
pub fn push_group64(r: u64, b: u8, i: u32) -> (out: u64)
    requires
        i < 10,
        r < vstd::arithmetic::power2::pow2((7 * i) as nat),
    ensures
        out == (r + (b % 128) * vstd::arithmetic::power2::pow2((7 * i) as nat))
            % 0x1_0000_0000_0000_0000,
{
    let bits: u64 = (b & 0x7f) as u64;
    proof {
        vstd::arithmetic::power2::lemma2_to64();
        vstd::arithmetic::power2::lemma2_to64_rest();
        assert(b & 0x7f == b % 128) by (bit_vector);
        lemma_weights((b % 128) as int);
        let s: u64 = (7 * i) as u64;
        assert(s == 0 || s == 7 || s == 14 || s == 21 || s == 28 || s == 35 || s == 42 || s == 49
            || s == 56 || s == 63);
        assert(bits < 128 ==> {
            &&& (s == 0 && r < 1 ==> r | (bits << s) == r + bits)
            &&& (s == 7 && r < 0x80 ==> r | (bits << s) == r + bits * 0x80)
            &&& (s == 14 && r < 0x4000 ==> r | (bits << s) == r + bits * 0x4000)
            &&& (s == 21 && r < 0x20_0000 ==> r | (bits << s) == r + bits * 0x20_0000)
            &&& (s == 28 && r < 0x1000_0000 ==> r | (bits << s) == r + bits * 0x1000_0000)
            &&& (s == 35 && r < 0x8_0000_0000 ==> r | (bits << s) == r + bits * 0x8_0000_0000)
            &&& (s == 42 && r < 0x400_0000_0000 ==> r | (bits << s) == r + bits * 0x400_0000_0000)
            &&& (s == 49 && r < 0x2_0000_0000_0000 ==> r | (bits << s) == r + bits
                * 0x2_0000_0000_0000)
            &&& (s == 56 && r < 0x100_0000_0000_0000 ==> r | (bits << s) == r + bits
                * 0x100_0000_0000_0000)
            &&& (s == 63 && r < 0x8000_0000_0000_0000 ==> r | (bits << s) == (r + bits
                * 0x8000_0000_0000_0000) % 0x1_0000_0000_0000_0000)
        }) by (bit_vector);
    }
    r | (bits << (7 * i))
}

} // verus!
