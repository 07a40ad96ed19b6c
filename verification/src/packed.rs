//! Packed repeated fields of fixed-width numbers.
use vstd::prelude::*;
use vstd::std_specs::cmp::{PartialEqSpec, PartialEqSpecImpl};
use vstd::std_specs::convert::FromSpecImpl;
use vstd::std_specs::iter::IteratorSpecImpl;

use crate::fixed_width::FixedWidth;

verus! {

/// Packed fixed-width numbers, as they came off the wire or as numbers.
///
/// The raw bytes of a packed field need not be aligned for the numbers they
/// hold, and copying them all out is a waste where only a few are asked for. So
/// the `Borrowed` variant keeps the bytes, and loads a number when it is asked
/// for. The `Owned` variant holds numbers.
#[derive(Debug)]
pub enum PackedFixed<'a, T: FixedWidth> {
    /// Nothing has been received yet.
    NoDataYet,
    /// Raw bytes, possibly misaligned. Bytes behind the last whole number do not
    /// count.
    Borrowed(&'a [u8]),
    /// Numbers.
    Owned(Vec<T>),
}

/// The numbers that `bytes` hold back to back.
pub open spec fn numbers<T: FixedWidth>(bytes: Seq<u8>) -> Seq<T> {
    Seq::new(bytes.len() / T::width(), |i: int| T::decode(slot::<T>(bytes, i)))
}

/// The bytes that spell `values` back to back.
pub open spec fn spelled<T: FixedWidth>(values: Seq<T>) -> Seq<u8>
    decreases values.len(),
{
    if values.len() == 0 {
        Seq::empty()
    } else {
        spelled(values.drop_last()) + values.last().encode()
    }
}

/// The bytes of number `i`.
pub open spec fn slot<T: FixedWidth>(bytes: Seq<u8>, i: int) -> Seq<u8> {
    bytes.subrange(i * T::width(), i * T::width() + T::width())
}

/// Number `i` lies within the bytes.
pub proof fn lemma_slot<T: FixedWidth>(len: nat, i: int)
    requires
        0 <= i < len / T::width(),
    ensures
        0 <= i * T::width(),
        i * T::width() + T::width() <= len,
{
    T::lemma_fixed();
    let w = T::width();
    assert(0 <= i * w && i * w + w <= len) by (nonlinear_arith)
        requires
            0 <= i < len / w,
            w > 0,
    ;
}

/// Leaving out the bytes behind the last whole number changes nothing.
pub proof fn lemma_whole<T: FixedWidth>(raw: Seq<u8>)
    ensures
        ({
            let whole = (raw.len() / T::width()) * T::width();
            &&& whole == raw.len() - raw.len() % T::width()
            &&& whole <= raw.len()
            &&& numbers::<T>(raw.take(whole as int)) == numbers::<T>(raw)
        }),
{
    T::lemma_fixed();
    let w = T::width();
    let n = raw.len() / w;
    let whole = n * w;
    assert(whole == raw.len() - raw.len() % w && whole / w == n) by (nonlinear_arith)
        requires
            w > 0,
            n == raw.len() / w,
            whole == n * w,
    ;
    let cut = raw.take(whole as int);
    assert forall|i: int| 0 <= i < n implies numbers::<T>(cut)[i] == numbers::<T>(raw)[i] by {
        lemma_slot::<T>(cut.len(), i);
        assert(slot::<T>(cut, i) =~= slot::<T>(raw, i));
    }
    assert(numbers::<T>(cut) =~= numbers::<T>(raw));
}

/// Spelling out the numbers in `raw` gives the bytes they were read from: all of
/// `raw` but what lies behind the last whole number.
pub proof fn lemma_numbers_spelled<T: FixedWidth>(raw: Seq<u8>)
    ensures
        spelled(numbers::<T>(raw)) == raw.take(raw.len() - raw.len() % T::width()),
    decreases raw.len(),
{
    T::lemma_fixed();
    let w = T::width();
    let all = numbers::<T>(raw);
    let n = raw.len() / w;
    lemma_whole::<T>(raw);
    if n > 0 {
        let cut = ((n - 1) * w) as nat;
        assert(n * w == (n - 1) * w + w && cut / w == n - 1 && cut % w == 0) by (nonlinear_arith)
            requires
                w > 0,
                n > 0,
                cut == (n - 1) * w,
        ;
        let front = raw.take(cut as int);
        assert forall|i: int| 0 <= i < n - 1 implies numbers::<T>(front)[i] == all[i] by {
            lemma_slot::<T>(front.len(), i);
            assert(slot::<T>(front, i) =~= slot::<T>(raw, i));
        }
        assert(numbers::<T>(front) =~= all.drop_last());
        lemma_numbers_spelled::<T>(front);
        assert(front.take(cut as int) =~= front);
        assert(spelled(all.drop_last()) == front);
        lemma_slot::<T>(raw.len(), n - 1);
        T::lemma_bytes_round_trip(slot::<T>(raw, n - 1));
        assert(all.last().encode() == slot::<T>(raw, n - 1));
        assert(front + slot::<T>(raw, n - 1) =~= raw.take((n * w) as int));
    } else {
        assert(n * w == 0) by (nonlinear_arith)
            requires
                n == 0,
        ;
        assert(raw.take(0) =~= Seq::empty());
    }
}

impl<'a, T: FixedWidth> PackedFixed<'a, T> {
    /// The numbers it stands for.
    pub open spec fn elems(self) -> Seq<T> {
        match self {
            PackedFixed::NoDataYet => Seq::empty(),
            PackedFixed::Borrowed(bytes) => numbers(bytes@),
            PackedFixed::Owned(v) => v@,
        }
    }

    /// Whether there is no data: of the `Borrowed` variant, not a single byte.
    pub open spec fn without_data(self) -> bool {
        match self {
            PackedFixed::NoDataYet => true,
            PackedFixed::Borrowed(bytes) => bytes@.len() == 0,
            PackedFixed::Owned(v) => v@.len() == 0,
        }
    }

    /// How many numbers there are.
    pub fn len(&self) -> (n: usize)
        ensures
            n == self.elems().len(),
    {
        proof {
            T::lemma_fixed();
        }
        match self {
            PackedFixed::NoDataYet => 0,
            PackedFixed::Borrowed(bytes) => bytes.len() / T::size(),
            PackedFixed::Owned(v) => v.len(),
        }
    }

    /// Turns into the `Owned` variant. Raw bytes are copied bit by bit.
    pub fn own(&mut self)
        ensures
            *final(self) is Owned,
            final(self).elems() == old(self).elems(),
            *old(self) matches PackedFixed::Borrowed(bytes) ==> spelled(final(self).elems())
                == bytes@.take(bytes@.len() - bytes@.len() % T::width()),
    {
        match self {
            PackedFixed::NoDataYet => {
                *self = PackedFixed::Owned(Vec::new());
            },
            PackedFixed::Borrowed(_) => {
                *self = self.make_owned_variant_from_unaligned_buf();
            },
            PackedFixed::Owned(_) => {},
        }
    }

    /// The numbers in a vector. Raw bytes are copied bit by bit.
    pub fn into_vec(self) -> (v: Vec<T>)
        ensures
            v@ == self.elems(),
            self matches PackedFixed::Borrowed(bytes) ==> spelled(v@) == bytes@.take(
                bytes@.len() - bytes@.len() % T::width(),
            ),
    {
        match self {
            PackedFixed::NoDataYet => Vec::new(),
            PackedFixed::Borrowed(_) => self.make_vec_from_unaligned_buf(),
            PackedFixed::Owned(v) => v,
        }
    }

    /// The number at `index`, which counts numbers and not bytes.
    pub fn at(&self, index: usize) -> (value: T)
        requires
            index < self.elems().len(),
        ensures
            value == self.elems()[index as int],
    {
        proof {
            T::lemma_fixed();
        }
        match self {
            PackedFixed::NoDataYet => vstd::pervasive::unreached(),
            PackedFixed::Borrowed(bytes) => {
                proof {
                    assert(self.elems() == numbers::<T>(bytes@));
                    lemma_slot::<T>(bytes@.len(), index as int);
                    assert(bytes@.len() == bytes.len());
                }
                T::load(bytes, index * T::size())
            },
            PackedFixed::Owned(v) => v[index],
        }
    }

    /// Turns into the `Owned` variant and gives its numbers.
    pub fn to_slice(&mut self) -> (s: &[T])
        ensures
            s@ == old(self).elems(),
            *final(self) is Owned,
            final(self).elems() == old(self).elems(),
    {
        self.own();
        match self {
            PackedFixed::Owned(v) => v.as_slice(),
            _ => vstd::pervasive::unreached(),
        }
    }

    /// Turns into the `Owned` variant and gives its numbers to be changed.
    pub fn to_mut_slice(&mut self) -> (s: &mut [T])
        ensures
            s@ == old(self).elems(),
            *final(self) is Owned,
            final(self).elems() == final(s)@,
    {
        self.own();
        match self {
            PackedFixed::Owned(v) => v.as_mut_slice(),
            _ => vstd::pervasive::unreached(),
        }
    }

    /// Whether there is no data.
    pub fn is_empty(&self) -> (empty: bool)
        ensures
            empty == self.without_data(),
    {
        match self {
            PackedFixed::NoDataYet => true,
            PackedFixed::Borrowed(bytes) => bytes.len() == 0,
            PackedFixed::Owned(v) => v.len() == 0,
        }
    }

    /// Copies the numbers out of the raw bytes, which they spell out again.
    fn make_vec_from_unaligned_buf(&self) -> (v: Vec<T>)
        requires
            *self is Borrowed,
        ensures
            v@ == self.elems(),
            *self matches PackedFixed::Borrowed(bytes) && spelled(v@) == bytes@.take(
                bytes@.len() - bytes@.len() % T::width(),
            ),
    {
        let n: usize = self.len();
        let mut v: Vec<T> = Vec::with_capacity(n);
        let mut i: usize = 0;
        while i < n
            invariant
                i <= n,
                n == self.elems().len(),
                v@ == self.elems().take(i as int),
            decreases n - i,
        {
            v.push(self.at(i));
            i += 1;
        }
        assert(v@ =~= self.elems());
        proof {
            match *self {
                PackedFixed::Borrowed(bytes) => {
                    lemma_numbers_spelled::<T>(bytes@);
                },
                _ => {},
            }
        }
        v
    }

    /// The `Owned` variant of the same numbers.
    fn make_owned_variant_from_unaligned_buf(&self) -> (owned: Self)
        requires
            *self is Borrowed,
        ensures
            owned is Owned,
            owned.elems() == self.elems(),
            *self matches PackedFixed::Borrowed(bytes) && spelled(owned.elems()) == bytes@.take(
                bytes@.len() - bytes@.len() % T::width(),
            ),
    {
        PackedFixed::Owned(self.make_vec_from_unaligned_buf())
    }
}

impl<'a, T: FixedWidth> Default for PackedFixed<'a, T> {
    fn default() -> (p: Self)
        ensures
            p is NoDataYet,
    {
        PackedFixed::NoDataYet
    }
}

impl<'a, T: FixedWidth> Clone for PackedFixed<'a, T> {
    fn clone(&self) -> (p: Self)
        ensures
            p.elems() == self.elems(),
            *self is NoDataYet <==> p is NoDataYet,
            *self is Owned <==> p is Owned,
            *self matches PackedFixed::Borrowed(bytes) ==> p == PackedFixed::<'a, T>::Borrowed(
                bytes,
            ),
    {
        match self {
            PackedFixed::NoDataYet => PackedFixed::NoDataYet,
            PackedFixed::Borrowed(bytes) => PackedFixed::Borrowed(bytes),
            PackedFixed::Owned(v) => {
                let mut copy: Vec<T> = Vec::with_capacity(v.len());
                let mut i: usize = 0;
                while i < v.len()
                    invariant
                        i <= v@.len(),
                        copy@ == v@.take(i as int),
                    decreases v@.len() - i,
                {
                    copy.push(v[i]);
                    i += 1;
                }
                PackedFixed::Owned(copy)
            },
        }
    }
}

impl<'a, T: FixedWidth> PartialEqSpecImpl for PackedFixed<'a, T> {
    open spec fn obeys_eq_spec() -> bool {
        true
    }

    open spec fn eq_spec(&self, other: &Self) -> bool {
        self.elems() == other.elems()
    }
}

impl<'a, T: FixedWidth> PartialEq for PackedFixed<'a, T> {
    fn eq(&self, other: &Self) -> (equal: bool) {
        let n: usize = self.len();
        if n != other.len() {
            return false;
        }
        let mut i: usize = 0;
        while i < n
            invariant
                i <= n,
                n == self.elems().len(),
                n == other.elems().len(),
                forall|j: int| 0 <= j < i ==> self.elems()[j] == other.elems()[j],
            decreases n - i,
        {
            let a: T = self.at(i);
            let b: T = other.at(i);
            proof {
                T::lemma_fixed();
                assert(a.eq_spec(&b) <==> a == b);
            }
            if a != b {
                return false;
            }
            i += 1;
        }
        assert(self.elems() =~= other.elems());
        true
    }
}

impl<'a, T: FixedWidth, const N: usize> FromSpecImpl<&'a [u8; N]> for PackedFixed<'a, T> {
    open spec fn obeys_from_spec() -> bool {
        true
    }

    open spec fn from_spec(value: &'a [u8; N]) -> Self {
        PackedFixed::Borrowed(value)
    }
}

impl<'a, T: FixedWidth, const N: usize> From<&'a [u8; N]> for PackedFixed<'a, T> {
    fn from(value: &'a [u8; N]) -> Self {
        PackedFixed::Borrowed(value)
    }
}

impl<'a, T: FixedWidth> FromSpecImpl<&'a [u8]> for PackedFixed<'a, T> {
    open spec fn obeys_from_spec() -> bool {
        true
    }

    open spec fn from_spec(value: &'a [u8]) -> Self {
        PackedFixed::Borrowed(value)
    }
}

impl<'a, T: FixedWidth> From<&'a [u8]> for PackedFixed<'a, T> {
    fn from(value: &'a [u8]) -> Self {
        PackedFixed::Borrowed(value)
    }
}

// The contents of a vector do not determine the slice it gives, so what `from`
// gives is stated on `from` itself.
impl<'a, T: FixedWidth> FromSpecImpl<&'a Vec<u8>> for PackedFixed<'a, T> {
    open spec fn obeys_from_spec() -> bool {
        false
    }

    open spec fn from_spec(value: &'a Vec<u8>) -> Self {
        PackedFixed::NoDataYet
    }
}

impl<'a, T: FixedWidth> From<&'a Vec<u8>> for PackedFixed<'a, T> {
    fn from(value: &'a Vec<u8>) -> (p: Self)
        ensures
            p matches PackedFixed::Borrowed(bytes) && bytes@ == value@,
    {
        PackedFixed::Borrowed(value.as_slice())
    }
}

impl<'a, T: FixedWidth> FromSpecImpl<Vec<T>> for PackedFixed<'a, T> {
    open spec fn obeys_from_spec() -> bool {
        true
    }

    open spec fn from_spec(value: Vec<T>) -> Self {
        PackedFixed::Owned(value)
    }
}

impl<'a, T: FixedWidth> From<Vec<T>> for PackedFixed<'a, T> {
    fn from(value: Vec<T>) -> Self {
        PackedFixed::Owned(value)
    }
}

/// Iterator that owns the packed numbers it goes through.
pub struct PackedFixedIntoIter<'a, T: FixedWidth> {
    packed_fixed: PackedFixed<'a, T>,
    index: usize,
}

impl<'a, T: FixedWidth> PackedFixedIntoIter<'a, T> {
    #[verifier::type_invariant]
    spec fn within(self) -> bool {
        self.index <= self.packed_fixed.elems().len()
    }

    /// The numbers that are still to come.
    pub closed spec fn rest(&self) -> Seq<T> {
        self.packed_fixed.elems().skip(self.index as int)
    }
}

impl<'a, T: FixedWidth> IteratorSpecImpl for PackedFixedIntoIter<'a, T> {
    open spec fn obeys_prophetic_iter_laws(&self) -> bool {
        true
    }

    open spec fn remaining(&self) -> Seq<T> {
        self.rest()
    }

    open spec fn will_return_none(&self) -> bool {
        true
    }

    open spec fn decrease(&self) -> Option<nat> {
        Some(self.rest().len())
    }

    open spec fn initial_value_relation(&self, init: &Self) -> bool {
        *self == *init
    }

    open spec fn peek(&self, index: int) -> Option<T> {
        if 0 <= index < self.rest().len() {
            Some(self.rest()[index])
        } else {
            None
        }
    }
}

impl<'a, T: FixedWidth> Iterator for PackedFixedIntoIter<'a, T> {
    type Item = T;

    fn next(&mut self) -> (item: Option<T>)
        ensures
            match item {
                Some(value) => {
                    &&& old(self).rest().len() > 0
                    &&& value == old(self).rest()[0]
                    &&& final(self).rest() == old(self).rest().skip(1)
                },
                None => old(self).rest().len() == 0 && final(self).rest() == old(self).rest(),
            },
    {
        proof {
            use_type_invariant(&*self);
        }
        if self.index >= self.packed_fixed.len() {
            None
        } else {
            let value: T = self.packed_fixed.at(self.index);
            let ghost all = self.packed_fixed.elems();
            let next: usize = self.index + 1;
            assert(all.skip(self.index as int).skip(1) =~= all.skip(next as int));
            self.index = next;
            Some(value)
        }
    }

    fn size_hint(&self) -> (hint: (usize, Option<usize>))
        ensures
            hint.0 == self.rest().len(),
            hint.1 == Some(hint.0),
    {
        proof {
            use_type_invariant(self);
        }
        let remaining: usize = self.packed_fixed.len() - self.index;
        (remaining, Some(remaining))
    }
}

impl<'a, T: FixedWidth> ExactSizeIterator for PackedFixedIntoIter<'a, T> {

}

impl<'a, T: FixedWidth> core::iter::FusedIterator for PackedFixedIntoIter<'a, T> {

}

impl<'a, T: FixedWidth> IntoIterator for PackedFixed<'a, T> {
    type Item = T;

    type IntoIter = PackedFixedIntoIter<'a, T>;

    fn into_iter(self) -> (iter: PackedFixedIntoIter<'a, T>)
        ensures
            iter.rest() == self.elems(),
    {
        let iter: PackedFixedIntoIter<'a, T> = PackedFixedIntoIter { packed_fixed: self, index: 0 };
        assert(iter.rest() =~= self.elems());
        iter
    }
}

/// Iterator over packed numbers that stay where they are.
///
/// It gives numbers and no references to them: raw bytes hold nothing that a
/// reference could point to.
pub struct PackedFixedRefIter<'a, T: FixedWidth> {
    packed_fixed: &'a PackedFixed<'a, T>,
    index: usize,
}

impl<'a, T: FixedWidth> PackedFixedRefIter<'a, T> {
    #[verifier::type_invariant]
    spec fn within(self) -> bool {
        self.index <= self.packed_fixed.elems().len()
    }

    /// The numbers that are still to come.
    pub closed spec fn rest(&self) -> Seq<T> {
        self.packed_fixed.elems().skip(self.index as int)
    }
}

impl<'a, T: FixedWidth> IteratorSpecImpl for PackedFixedRefIter<'a, T> {
    open spec fn obeys_prophetic_iter_laws(&self) -> bool {
        true
    }

    open spec fn remaining(&self) -> Seq<T> {
        self.rest()
    }

    open spec fn will_return_none(&self) -> bool {
        true
    }

    open spec fn decrease(&self) -> Option<nat> {
        Some(self.rest().len())
    }

    open spec fn initial_value_relation(&self, init: &Self) -> bool {
        *self == *init
    }

    open spec fn peek(&self, index: int) -> Option<T> {
        if 0 <= index < self.rest().len() {
            Some(self.rest()[index])
        } else {
            None
        }
    }
}

impl<'a, T: FixedWidth> Iterator for PackedFixedRefIter<'a, T> {
    type Item = T;

    fn next(&mut self) -> (item: Option<T>)
        ensures
            match item {
                Some(value) => {
                    &&& old(self).rest().len() > 0
                    &&& value == old(self).rest()[0]
                    &&& final(self).rest() == old(self).rest().skip(1)
                },
                None => old(self).rest().len() == 0 && final(self).rest() == old(self).rest(),
            },
    {
        proof {
            use_type_invariant(&*self);
        }
        if self.index >= self.packed_fixed.len() {
            None
        } else {
            let value: T = self.packed_fixed.at(self.index);
            let ghost all = self.packed_fixed.elems();
            let next: usize = self.index + 1;
            assert(all.skip(self.index as int).skip(1) =~= all.skip(next as int));
            self.index = next;
            Some(value)
        }
    }

    fn size_hint(&self) -> (hint: (usize, Option<usize>))
        ensures
            hint.0 == self.rest().len(),
            hint.1 == Some(hint.0),
    {
        proof {
            use_type_invariant(self);
        }
        let remaining: usize = self.packed_fixed.len() - self.index;
        (remaining, Some(remaining))
    }
}

impl<'a, T: FixedWidth> ExactSizeIterator for PackedFixedRefIter<'a, T> {

}

impl<'a, T: FixedWidth> core::iter::FusedIterator for PackedFixedRefIter<'a, T> {

}

impl<'a, T: FixedWidth> IntoIterator for &'a PackedFixed<'a, T> {
    type Item = T;

    type IntoIter = PackedFixedRefIter<'a, T>;

    fn into_iter(self) -> (iter: PackedFixedRefIter<'a, T>)
        ensures
            iter.rest() == self.elems(),
    {
        let iter: PackedFixedRefIter<'a, T> = PackedFixedRefIter { packed_fixed: self, index: 0 };
        assert(iter.rest() =~= self.elems());
        iter
    }
}

} // verus!
