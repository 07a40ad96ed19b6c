//! What packed numbers stand for, told by the bytes and by the calls alone.
use vstd::prelude::*;

use crate::fixed_width::FixedWidth;
use crate::little_endian;
use crate::meaning::{lemma_le_value_4, lemma_le_value_8};
use crate::packed::{PackedFixed, PackedFixedIntoIter, PackedFixedRefIter};

verus! {

/// The unsigned numbers of up to eight bytes are spelled in base 256, least significant
/// byte first; those of sixteen are two of eight, the low one first.
pub proof fn law_unsigned_numbers_are_little_endian(s: Seq<u8>)
    ensures
        u8::width() == 1,
        u16::width() == 2,
        u32::width() == 4,
        u64::width() == 8,
        u128::width() == 16,
        s.len() == 1 ==> u8::decode(s) == s[0],
        s.len() == 2 ==> u16::decode(s) == s[0] + 0x100 * s[1],
        s.len() == 4 ==> u32::decode(s) == s[0] + 0x100 * s[1] + 0x10000 * s[2] + 0x1000000 * s[3],
        s.len() == 8 ==> u64::decode(s) == s[0] + 0x100 * s[1] + 0x10000 * s[2] + 0x1000000 * s[3]
            + 0x100000000 * s[4] + 0x10000000000 * s[5] + 0x1000000000000 * s[6]
            + 0x100000000000000 * s[7],
        s.len() == 16 ==> u128::decode(s) == u64::decode(s.take(8)) + 0x10000000000000000
            * u64::decode(s.skip(8)),
{
    if s.len() <= 2 {
        reveal_with_fuel(little_endian::le_value, 3);
    } else if s.len() == 4 {
        lemma_le_value_4(s);
    } else if s.len() == 8 {
        lemma_le_value_8(s);
    } else if s.len() == 16 {
        let a = s.take(8);
        let b = s.skip(8);
        lemma_le_value_8(a);
        lemma_le_value_8(b);
        little_endian::lemma_le_value_concat(a, b);
        assert(a + b =~= s);
        vstd::arithmetic::power2::lemma2_to64_rest();
        let p = vstd::arithmetic::power2::pow2(64);
        let v = little_endian::le_value(b);
        assert(p * v == 0x10000000000000000 * v) by (nonlinear_arith)
            requires
                p == 0x10000000000000000,
        ;
    }
}

/// A signed number differs from the unsigned one of the same bytes by nothing, or by two
/// to the number of bits.
pub proof fn law_signed_numbers_are_twos_complement(s: Seq<u8>)
    ensures
        i8::width() == 1,
        i16::width() == 2,
        i32::width() == 4,
        i64::width() == 8,
        i128::width() == 16,
        s.len() == 1 ==> i8::decode(s) == u8::decode(s) || i8::decode(s) == u8::decode(s) - 0x100,
        s.len() == 2 ==> i16::decode(s) == u16::decode(s) || i16::decode(s) == u16::decode(s)
            - 0x10000,
        s.len() == 4 ==> i32::decode(s) == u32::decode(s) || i32::decode(s) == u32::decode(s)
            - 0x100000000,
        s.len() == 8 ==> i64::decode(s) == u64::decode(s) || i64::decode(s) == u64::decode(s)
            - 0x10000000000000000,
        s.len() == 16 ==> i128::decode(s) == u128::decode(s) || i128::decode(s) == u128::decode(s)
            - 0x100000000000000000000000000000000,
{
    vstd::arithmetic::power2::lemma2_to64();
    vstd::arithmetic::power2::lemma2_to64_rest();
    vstd::arithmetic::power2::lemma_pow2_adds(63, 64);
    vstd::arithmetic::power2::lemma_pow2_adds(64, 64);
    little_endian::lemma_le_value_bound(s);
}

/// A machine word is the number of its width.
pub proof fn law_machine_words_are_numbers(s: Seq<u8>)
    ensures
        usize::width() == 4 || usize::width() == 8,
        isize::width() == usize::width(),
        usize::width() == 4 && s.len() == 4 ==> usize::decode(s) == u32::decode(s)
            && isize::decode(s) == i32::decode(s),
        usize::width() == 8 && s.len() == 8 ==> usize::decode(s) == u64::decode(s)
            && isize::decode(s) == i64::decode(s),
{
    vstd::arithmetic::power2::lemma2_to64();
    vstd::arithmetic::power2::lemma2_to64_rest();
    little_endian::lemma_le_value_bound(s);
}

/// A number is loaded from as many bytes as it is wide, and is the one that they spell.
pub proof fn law_load_takes_the_width<T: FixedWidth>(bytes: &[u8], at: usize)
    requires
        at + T::width() <= bytes@.len(),
    ensures
        forall|n: usize| #[trigger] call_ensures(T::size, (), n) ==> n == T::width(),
        forall|value: T| #[trigger]
            call_ensures(T::load, (bytes, at), value) ==> value == T::decode(
                bytes@.subrange(at as int, at + T::width()),
            ),
{
}

/// How many numbers a packed field stands for: all that a vector holds, and as many as
/// fit the bytes whole.
pub open spec fn counts<'a, T: FixedWidth>(p: PackedFixed<'a, T>, n: int) -> bool {
    match p {
        PackedFixed::NoDataYet => n == 0,
        PackedFixed::Borrowed(bytes) => n * T::width() <= bytes@.len() < n * T::width()
            + T::width(),
        PackedFixed::Owned(v) => n == v@.len(),
    }
}

/// The number in place `i` of a packed field: that of a vector, or the one that the
/// bytes in its place spell.
pub open spec fn item<'a, T: FixedWidth>(p: PackedFixed<'a, T>, i: int) -> T {
    match p {
        PackedFixed::Owned(v) => v@[i],
        PackedFixed::Borrowed(bytes) => T::decode(
            bytes@.subrange(i * T::width(), i * T::width() + T::width()),
        ),
        PackedFixed::NoDataYet => arbitrary(),
    }
}

/// A packed field counts what it stands for, and has it in place.
proof fn lemma_items<'a, T: FixedWidth>(p: PackedFixed<'a, T>)
    ensures
        counts(p, p.elems().len() as int),
        forall|n: int| #[trigger] counts(p, n) ==> n == p.elems().len(),
        forall|i: int| 0 <= i < p.elems().len() ==> #[trigger] p.elems()[i] == item(p, i),
{
    T::lemma_fixed();
    match p {
        PackedFixed::Borrowed(bytes) => {
            let w = T::width() as int;
            let len = bytes@.len() as int;
            let m = len / w;
            vstd::arithmetic::div_mod::lemma_fundamental_div_mod(len, w);
            vstd::arithmetic::div_mod::lemma_mod_bound(len, w);
            assert(m * w == w * m) by (nonlinear_arith);
            assert forall|n: int| #[trigger] counts(p, n) implies n == m by {
                assert(n == m) by (nonlinear_arith)
                    requires
                        n * w <= len < n * w + w,
                        m * w <= len < m * w + w,
                        w > 0,
                ;
            }
        },
        _ => {},
    }
}

/// The length of a packed field is how many numbers it stands for; it is without data
/// exactly if it holds no byte and no number.
pub proof fn law_packed_len_counts<'a, T: FixedWidth>(p: PackedFixed<'a, T>)
    ensures
        forall|n: usize| #[trigger]
            call_ensures(PackedFixed::<'a, T>::len, (&p,), n) ==> counts(p, n as int),
        forall|e: bool| #[trigger]
            call_ensures(PackedFixed::<'a, T>::is_empty, (&p,), e) ==> e == match p {
                PackedFixed::NoDataYet => true,
                PackedFixed::Borrowed(bytes) => bytes@.len() == 0,
                PackedFixed::Owned(v) => v@.len() == 0,
            },
{
    lemma_items(p);
}

/// The number at an index is the one in that place; and the vector and the slices that a
/// packed field turns into hold all of its numbers, each in its place.
pub proof fn law_packed_items_keep_their_places<'a, T: FixedWidth>(p: PackedFixed<'a, T>)
    ensures
        forall|i: usize, x: T| #[trigger]
            call_ensures(PackedFixed::<'a, T>::at, (&p, i), x) && (exists|n: int|
                i < n && #[trigger] counts(p, n)) ==> x == item(p, i as int),
        forall|v: Vec<T>| #[trigger]
            call_ensures(PackedFixed::<'a, T>::into_vec, (p,), v) ==> {
                &&& counts(p, v@.len() as int)
                &&& forall|i: int| 0 <= i < v@.len() ==> #[trigger] v@[i] == item(p, i)
            },
        forall|m: &mut PackedFixed<'a, T>|
            *m == p && #[trigger] call_ensures(PackedFixed::<'a, T>::own, (m,), ()) ==> {
                *final(m) matches PackedFixed::Owned(v) && {
                    &&& counts(p, v@.len() as int)
                    &&& forall|i: int| 0 <= i < v@.len() ==> #[trigger] v@[i] == item(p, i)
                }
            },
        forall|m: &mut PackedFixed<'a, T>, s: &[T]|
            *m == p && #[trigger] call_ensures(PackedFixed::<'a, T>::to_slice, (m,), s) ==> {
                &&& counts(p, s@.len() as int)
                &&& forall|i: int| 0 <= i < s@.len() ==> #[trigger] s@[i] == item(p, i)
                &&& *final(m) matches PackedFixed::Owned(v) && v@ == s@
            },
        forall|m: &mut PackedFixed<'a, T>, s: &mut [T]|
            *m == p && #[trigger] call_ensures(PackedFixed::<'a, T>::to_mut_slice, (m,), s) ==> {
                &&& counts(p, s@.len() as int)
                &&& forall|i: int| 0 <= i < s@.len() ==> #[trigger] s@[i] == item(p, i)
                &&& *final(m) matches PackedFixed::Owned(v) && v@ == final(s)@
            },
{
    lemma_items(p);
}

/// Two packed fields are equal exactly if they stand for the same number of numbers and
/// for the same number in each place, whichever form they have. A clone has the form of
/// what it was made from, and holds the same.
pub proof fn law_packed_equality_is_by_items<'a, T: FixedWidth>(
    p: PackedFixed<'a, T>,
    q: PackedFixed<'a, T>,
)
    ensures
        forall|b: bool| #[trigger]
            call_ensures(PackedFixed::<'a, T>::eq, (&p, &q), b) ==> b == (exists|n: int|
                #![trigger counts(p, n)]
                counts(p, n) && counts(q, n) && forall|i: int|
                    0 <= i < n ==> #[trigger] item(p, i) == item(q, i)),
        forall|c: PackedFixed<'a, T>| #[trigger]
            call_ensures(PackedFixed::<'a, T>::clone, (&p,), c) ==> match p {
                PackedFixed::NoDataYet => c is NoDataYet,
                PackedFixed::Borrowed(bytes) => (c matches PackedFixed::Borrowed(b) && b@
                    == bytes@),
                PackedFixed::Owned(v) => (c matches PackedFixed::Owned(w) && w@ == v@),
            },
{
    lemma_items(p);
    lemma_items(q);
    if p.elems() == q.elems() {
        assert forall|i: int| 0 <= i < p.elems().len() implies #[trigger] item(p, i) == item(
            q,
            i,
        ) by {
            assert(p.elems()[i] == item(p, i));
            assert(q.elems()[i] == item(q, i));
        }
    } else if p.elems().len() == q.elems().len() {
        assert(!(p.elems() =~= q.elems()));
        let i = choose|i: int| 0 <= i < p.elems().len() && p.elems()[i] != q.elems()[i];
        assert(item(p, i) != item(q, i));
    }
}

/// What a packed field is made from is what it stands for: raw bytes are taken as they
/// are, and so are numbers; and one that is made from nothing has no data.
pub proof fn law_packed_is_made_as_it_is<'a, T: FixedWidth, const N: usize>()
    ensures
        forall|b: &'a [u8], p: PackedFixed<'a, T>| #[trigger]
            call_ensures(<PackedFixed<'a, T> as From<&'a [u8]>>::from, (b,), p) ==> (
            p matches PackedFixed::Borrowed(bytes) && bytes@ == b@),
        forall|b: &'a [u8; N], p: PackedFixed<'a, T>| #[trigger]
            call_ensures(<PackedFixed<'a, T> as From<&'a [u8; N]>>::from, (b,), p) ==> (
            p matches PackedFixed::Borrowed(bytes) && bytes@ == b@),
        forall|b: &'a Vec<u8>, p: PackedFixed<'a, T>| #[trigger]
            call_ensures(<PackedFixed<'a, T> as From<&'a Vec<u8>>>::from, (b,), p) ==> (
            p matches PackedFixed::Borrowed(bytes) && bytes@ == b@),
        forall|v: Vec<T>, p: PackedFixed<'a, T>| #[trigger]
            call_ensures(<PackedFixed<'a, T> as From<Vec<T>>>::from, (v,), p) ==> (
            p matches PackedFixed::Owned(held) && held@ == v@),
        forall|p: PackedFixed<'a, T>| #[trigger]
            call_ensures(<PackedFixed<'a, T> as Default>::default, (), p) ==> p is NoDataYet,
{
}

/// Whether `i` is a place in `outs`.
pub open spec fn has_place<T>(outs: Seq<Option<T>>, i: int) -> bool {
    0 <= i < outs.len()
}

/// After `k` calls of `next`, an iterator has everything from place `k` on to come.
proof fn lemma_into_iter_rest<'a, T: FixedWidth>(
    p: PackedFixed<'a, T>,
    its: Seq<PackedFixedIntoIter<'a, T>>,
    outs: Seq<Option<T>>,
    k: int,
)
    requires
        0 <= k < its.len(),
        its.len() == outs.len() + 1,
        its[0].rest() == p.elems(),
        forall|i: int| #[trigger]
            has_place(outs, i) ==> exists|o: &mut PackedFixedIntoIter<'a, T>|
                *o == its[i] && *final(o) == its[i + 1] && #[trigger] call_ensures(
                    PackedFixedIntoIter::<'a, T>::next,
                    (o,),
                    outs[i],
                ),
    ensures
        k <= p.elems().len() ==> its[k].rest() == p.elems().skip(k),
        k >= p.elems().len() ==> its[k].rest().len() == 0,
    decreases k,
{
    if k == 0 {
        assert(p.elems().skip(0) =~= p.elems());
    } else {
        lemma_into_iter_rest(p, its, outs, k - 1);
        assert(has_place(outs, k - 1));
        if k <= p.elems().len() {
            assert(p.elems().skip(k - 1).skip(1) =~= p.elems().skip(k));
        }
    }
}

/// An owning iterator that has all of a packed field to come gives each of its numbers
/// once, in their order, and then nothing any more.
pub proof fn law_into_iter_gives_each_item_once<'a, T: FixedWidth>(
    p: PackedFixed<'a, T>,
    n: int,
    its: Seq<PackedFixedIntoIter<'a, T>>,
    outs: Seq<Option<T>>,
)
    requires
        counts(p, n),
        its.len() == outs.len() + 1,
        its[0].rest() == p.elems(),
        forall|i: int| #[trigger]
            has_place(outs, i) ==> exists|o: &mut PackedFixedIntoIter<'a, T>|
                *o == its[i] && *final(o) == its[i + 1] && #[trigger] call_ensures(
                    PackedFixedIntoIter::<'a, T>::next,
                    (o,),
                    outs[i],
                ),
    ensures
        forall|i: int|
            0 <= i < outs.len() ==> #[trigger] outs[i] == if i < n {
                Some(item(p, i))
            } else {
                None
            },
{
    lemma_items(p);
    assert forall|i: int| 0 <= i < outs.len() implies #[trigger] outs[i] == if i < n {
        Some(item(p, i))
    } else {
        None
    } by {
        assert(has_place(outs, i));
        lemma_into_iter_rest(p, its, outs, i);
        if i < n {
            assert(p.elems()[i] == item(p, i));
        }
    }
}

/// After `k` calls of `next`, an iterator has everything from place `k` on to come.
proof fn lemma_ref_iter_rest<'a, T: FixedWidth>(
    p: PackedFixed<'a, T>,
    its: Seq<PackedFixedRefIter<'a, T>>,
    outs: Seq<Option<T>>,
    k: int,
)
    requires
        0 <= k < its.len(),
        its.len() == outs.len() + 1,
        its[0].rest() == p.elems(),
        forall|i: int| #[trigger]
            has_place(outs, i) ==> exists|o: &mut PackedFixedRefIter<'a, T>|
                *o == its[i] && *final(o) == its[i + 1] && #[trigger] call_ensures(
                    PackedFixedRefIter::<'a, T>::next,
                    (o,),
                    outs[i],
                ),
    ensures
        k <= p.elems().len() ==> its[k].rest() == p.elems().skip(k),
        k >= p.elems().len() ==> its[k].rest().len() == 0,
    decreases k,
{
    if k == 0 {
        assert(p.elems().skip(0) =~= p.elems());
    } else {
        lemma_ref_iter_rest(p, its, outs, k - 1);
        assert(has_place(outs, k - 1));
        if k <= p.elems().len() {
            assert(p.elems().skip(k - 1).skip(1) =~= p.elems().skip(k));
        }
    }
}

/// A borrowing iterator that has all of a packed field to come gives each of its numbers
/// once, in their order, and then nothing any more.
pub proof fn law_ref_iter_gives_each_item_once<'a, T: FixedWidth>(
    p: PackedFixed<'a, T>,
    n: int,
    its: Seq<PackedFixedRefIter<'a, T>>,
    outs: Seq<Option<T>>,
)
    requires
        counts(p, n),
        its.len() == outs.len() + 1,
        its[0].rest() == p.elems(),
        forall|i: int| #[trigger]
            has_place(outs, i) ==> exists|o: &mut PackedFixedRefIter<'a, T>|
                *o == its[i] && *final(o) == its[i + 1] && #[trigger] call_ensures(
                    PackedFixedRefIter::<'a, T>::next,
                    (o,),
                    outs[i],
                ),
    ensures
        forall|i: int|
            0 <= i < outs.len() ==> #[trigger] outs[i] == if i < n {
                Some(item(p, i))
            } else {
                None
            },
{
    lemma_items(p);
    assert forall|i: int| 0 <= i < outs.len() implies #[trigger] outs[i] == if i < n {
        Some(item(p, i))
    } else {
        None
    } by {
        assert(has_place(outs, i));
        lemma_ref_iter_rest(p, its, outs, i);
        if i < n {
            assert(p.elems()[i] == item(p, i));
        }
    }
}

} // verus!
