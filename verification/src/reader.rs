//! A cursor that parses protocol buffer data out of a byte slice.
use vstd::prelude::*;

use crate::batch;
use crate::branchless;
use crate::cursor;
use crate::cursor::{Cursor, Step};
use crate::entry;
use crate::entry::{EntryTrace, Part};
use crate::error;
use crate::error::{Error, Result};
use crate::field;
use crate::fixed_width::FixedWidth;
use crate::little_endian;
use crate::message::MessageRead;
use crate::packed;
use crate::packed::PackedFixed;
use crate::repeated;
use crate::repeated::Trace;
use crate::scalar;
use crate::varint;

verus! {

/// Reads protocol buffer data out of a byte slice.
///
/// The reader holds positions only; every read is handed the slice that the
/// positions refer to.
#[derive(Debug, PartialEq, Eq, Structural)]
pub struct BytesReader {
    start: usize,
    end: usize,
}

impl View for BytesReader {
    type V = Cursor;

    closed spec fn view(&self) -> Cursor {
        Cursor { start: self.start as nat, end: self.end as nat }
    }
}

impl BytesReader {
    /// Two readers are the same exactly if they stand at the same cursor.
    pub proof fn law_same_cursor(self, other: BytesReader)
        ensures
            self == other <==> self@ == other@,
    {
    }
}

impl Clone for BytesReader {
    fn clone(&self) -> (r: BytesReader)
        ensures
            r == *self,
    {
        BytesReader { start: self.start, end: self.end }
    }
}

impl BytesReader {
    /// Creates a reader of all of `bytes`.
    pub fn from_bytes(bytes: &[u8]) -> (r: BytesReader)
        ensures
            r@ == (Cursor { start: 0, end: bytes@.len() }),
    {
        BytesReader { start: 0, end: bytes.len() }
    }

    /// How many bytes there are to read; none where the position lies behind
    /// the end.
    fn left(&self) -> (n: usize)
        ensures
            n == if self@.start <= self@.end {
                self@.end - self@.start
            } else {
                0
            },
    {
        if self.start <= self.end {
            self.end - self.start
        } else {
            0
        }
    }

    /// How many of the bytes to read lie within `bytes`.
    fn left_in(&self, bytes: &[u8]) -> (n: usize)
        ensures
            n == self@.reach(bytes@).len(),
    {
        let end: usize = if self.end <= bytes.len() {
            self.end
        } else {
            bytes.len()
        };
        if self.start <= end {
            end - self.start
        } else {
            0
        }
    }

    /// Reads the next byte.
    pub fn read_u8(&mut self, bytes: &[u8]) -> (out: Result<u8>)
        requires
            old(self)@.end <= bytes@.len(),
        ensures
            cursor::byte(old(self)@.window(bytes@)).done(old(self)@, final(self)@, out),
    {
        if self.start >= self.end {
            return Err(Error::UnexpectedEndOfBuffer);
        }
        let b: u8 = bytes[self.start];
        self.start += 1;
        Ok(b)
    }

    /// Reads the next varint, keeping its low 32 bits.
    pub fn read_varint32(&mut self, bytes: &[u8]) -> (out: Result<u32>)
        requires
            old(self)@.end <= bytes@.len(),
        ensures
            varint::varint32(old(self)@.window(bytes@)).done(old(self)@, final(self)@, out),
    {
        let left: usize = self.left();
        if left >= 8 {
            self.read_varint32_wide(bytes)
        } else if left >= 5 {
            self.read_varint32_scalar(bytes)
        } else {
            self.read_varint32_slow(bytes)
        }
    }

    /// Discards the bytes of a varint behind its first five, which spell
    /// `value`.
    ///
    /// A negative 32-bit number is sign-extended to ten bytes, of which the last
    /// five say nothing new.
    fn discard_extension(&mut self, bytes: &[u8], value: u32) -> (out: Result<u32>)
        requires
            old(self)@.end <= bytes@.len(),
        ensures
            ({
                let w = old(self)@.window(bytes@);
                let run = varint::continuation_run(w);
                if run < w.len() && run < 5 {
                    Step::ok(value, run + 1)
                } else if w.len() >= 5 {
                    Step::err(Error::Varint, 5)
                } else {
                    Step::err(Error::UnexpectedEndOfBuffer, w.len())
                }
            }).done(old(self)@, final(self)@, out),
    {
        let ghost w = self@.window(bytes@);
        let mut i: usize = 0;
        while i < 5
            invariant
                i <= 5,
                i <= w.len(),
                old(self)@.end <= bytes@.len(),
                w == old(self)@.window(bytes@),
                self@ == old(self)@.advance(i as nat),
                forall|j: int| 0 <= j < i ==> w[j] >= 0x80,
            decreases 5 - i,
        {
            proof {
                cursor::lemma_window_advance(old(self)@, bytes@, i as nat);
                varint::lemma_run_reaches(w, i as nat);
            }
            let b: u8 = self.read_u8(bytes)?;
            proof {
                varint::lemma_msb(b);
            }
            if b & 0x80 == 0 {
                return Ok(value);
            }
            i += 1;
        }
        proof {
            varint::lemma_run_reaches(w, 5);
        }
        Err(Error::Varint)
    }

    /// `read_varint32` one byte at a time, for the end of the buffer.
    pub fn read_varint32_slow(&mut self, bytes: &[u8]) -> (out: Result<u32>)
        requires
            old(self)@.end <= bytes@.len(),
        ensures
            varint::varint32(old(self)@.window(bytes@)).done(old(self)@, final(self)@, out),
    {
        let ghost w = self@.window(bytes@);
        let mut r: u32 = 0;
        let mut i: u32 = 0;
        while i < 5
            invariant
                i <= 5,
                i <= w.len(),
                old(self)@.end <= bytes@.len(),
                w == old(self)@.window(bytes@),
                self@ == old(self)@.advance(i as nat),
                forall|j: int| 0 <= j < i ==> w[j] >= 0x80,
                r == varint::groups(w, i as nat) % 0x1_0000_0000,
            decreases 5 - i,
        {
            proof {
                cursor::lemma_window_advance(old(self)@, bytes@, i as nat);
                if i == w.len() {
                    varint::lemma_cut_short(w);
                }
                varint::lemma_groups_small(w, i as nat);
            }
            let b: u8 = self.read_u8(bytes)?;
            r = varint::push_group32(r, b, i);
            proof {
                varint::lemma_msb(b);
            }
            if b & 0x80 == 0 {
                proof {
                    varint::lemma_ends(w, i as nat);
                }
                return Ok(r);
            }
            i += 1;
        }
        proof {
            cursor::lemma_window_advance(old(self)@, bytes@, 5);
            varint::lemma_extension(w);
        }
        self.discard_extension(bytes, r)
    }

    /// `read_varint32` where at least five bytes are left.
    fn read_varint32_scalar(&mut self, bytes: &[u8]) -> (out: Result<u32>)
        requires
            old(self)@.end <= bytes@.len(),
            old(self)@.window(bytes@).len() >= 5,
        ensures
            varint::varint32(old(self)@.window(bytes@)).done(old(self)@, final(self)@, out),
    {
        let ghost w = self@.window(bytes@);
        let start: usize = self.start;
        let mut r: u32 = 0;
        let mut i: u32 = 0;
        while i < 5
            invariant
                i <= 5,
                w.len() >= 5,
                old(self)@.end <= bytes@.len(),
                w == old(self)@.window(bytes@),
                self@ == old(self)@,
                start == self.start,
                forall|j: int| 0 <= j < i ==> w[j] >= 0x80,
                r == varint::groups(w, i as nat) % 0x1_0000_0000,
            decreases 5 - i,
        {
            proof {
                varint::lemma_groups_small(w, i as nat);
            }
            let b: u8 = bytes[start + i as usize];
            r = varint::push_group32(r, b, i);
            proof {
                varint::lemma_msb(b);
            }
            if b & 0x80 == 0 {
                proof {
                    varint::lemma_ends(w, i as nat);
                }
                self.start = start + i as usize + 1;
                return Ok(r);
            }
            i += 1;
        }
        proof {
            cursor::lemma_window_advance(old(self)@, bytes@, 5);
            varint::lemma_extension(w);
        }
        self.start = start + 5;
        self.discard_extension(bytes, r)
    }

    /// `read_varint32` where at least eight bytes are left.
    fn read_varint32_wide(&mut self, bytes: &[u8]) -> (out: Result<u32>)
        requires
            old(self)@.end <= bytes@.len(),
            old(self)@.window(bytes@).len() >= 8,
        ensures
            varint::varint32(old(self)@.window(bytes@)).done(old(self)@, final(self)@, out),
    {
        let ghost w = self@.window(bytes@);
        let raw: u64 = little_endian::load(bytes, self.start, 8);
        let ghost s = little_endian::le_bytes(raw as nat, 8);
        proof {
            assert(bytes@.subrange(self.start as int, self.start + 8) =~= w.take(8));
            little_endian::lemma_le_bytes_of_value(w.take(8));
            assert(s == w.take(8));
            varint::lemma_run(s);
        }
        match branchless::decode_varint32_branchless(raw) {
            Some((value, len)) => {
                proof {
                    varint::lemma_ends(w, (len - 1) as nat);
                    varint::lemma_groups_eq(s, w, len as nat);
                }
                self.start += len;
                Ok(value)
            },
            None => {
                let value: u32 = branchless::gather32(raw);
                proof {
                    assert forall|i: int| 0 <= i < 5 implies w[i] >= 0x80 by {
                        assert(w[i] == s[i]);
                    }
                    varint::lemma_groups_eq(s, w, 5);
                    cursor::lemma_window_advance(old(self)@, bytes@, 5);
                    varint::lemma_extension(w);
                }
                self.start += 5;
                self.discard_extension(bytes, value)
            },
        }
    }

    /// Reads the next varint, keeping its low 64 bits.
    ///
    /// Bits of the tenth byte beyond the 64th are ignored.
    pub fn read_varint64(&mut self, bytes: &[u8]) -> (out: Result<u64>)
        requires
            old(self)@.end <= bytes@.len(),
        ensures
            varint::varint64(old(self)@.window(bytes@)).done(old(self)@, final(self)@, out),
    {
        if self.left() >= 10 {
            self.read_varint64_wide(bytes)
        } else {
            self.read_varint64_slow(bytes)
        }
    }

    /// `read_varint64` one byte at a time, for the end of the buffer.
    pub fn read_varint64_slow(&mut self, bytes: &[u8]) -> (out: Result<u64>)
        requires
            old(self)@.end <= bytes@.len(),
        ensures
            varint::varint64(old(self)@.window(bytes@)).done(old(self)@, final(self)@, out),
    {
        let ghost w = self@.window(bytes@);
        let mut r: u64 = 0;
        let mut i: u32 = 0;
        while i < 10
            invariant
                i <= 10,
                i <= w.len(),
                old(self)@.end <= bytes@.len(),
                w == old(self)@.window(bytes@),
                self@ == old(self)@.advance(i as nat),
                forall|j: int| 0 <= j < i ==> w[j] >= 0x80,
                r == varint::groups(w, i as nat) % 0x1_0000_0000_0000_0000,
            decreases 10 - i,
        {
            proof {
                cursor::lemma_window_advance(old(self)@, bytes@, i as nat);
                if i == w.len() {
                    varint::lemma_cut_short(w);
                }
                varint::lemma_groups_small(w, i as nat);
            }
            let b: u8 = self.read_u8(bytes)?;
            r = varint::push_group64(r, b, i);
            proof {
                varint::lemma_msb(b);
            }
            if b & 0x80 == 0 {
                proof {
                    varint::lemma_ends(w, i as nat);
                }
                return Ok(r);
            }
            i += 1;
        }
        proof {
            varint::lemma_malformed(w);
        }
        Err(Error::Varint)
    }

    /// `read_varint64` where at least ten bytes are left.
    fn read_varint64_wide(&mut self, bytes: &[u8]) -> (out: Result<u64>)
        requires
            old(self)@.end <= bytes@.len(),
            old(self)@.window(bytes@).len() >= 10,
        ensures
            varint::varint64(old(self)@.window(bytes@)).done(old(self)@, final(self)@, out),
    {
        let ghost w = self@.window(bytes@);
        let raw: u64 = little_endian::load(bytes, self.start, 8);
        let ghost s = little_endian::le_bytes(raw as nat, 8);
        proof {
            assert(bytes@.subrange(self.start as int, self.start + 8) =~= w.take(8));
            little_endian::lemma_le_bytes_of_value(w.take(8));
            assert(s == w.take(8));
            varint::lemma_run(s);
        }
        match branchless::decode_varint64_branchless(raw) {
            Some((value, len)) => {
                proof {
                    varint::lemma_ends(w, (len - 1) as nat);
                    varint::lemma_groups_eq(s, w, len as nat);
                    varint::lemma_groups_small(w, len as nat);
                }
                self.start += len;
                Ok(value)
            },
            None => {
                let base: u64 = branchless::gather64(raw);
                let b8: u8 = bytes[self.start + 8];
                let b9: u8 = bytes[self.start + 9];
                proof {
                    assert forall|i: int| 0 <= i < 8 implies w[i] >= 0x80 by {
                        assert(w[i] == s[i]);
                    }
                    varint::lemma_groups_eq(s, w, 8);
                    varint::lemma_groups_small(w, 8);
                    varint::lemma_groups_small(w, 9);
                    varint::lemma_msb(b8);
                    varint::lemma_msb(b9);
                }
                let with8: u64 = varint::push_group64(base, b8, 8);
                if b8 & 0x80 == 0 {
                    proof {
                        varint::lemma_ends(w, 8);
                    }
                    self.start += 9;
                    return Ok(with8);
                }
                let with9: u64 = varint::push_group64(with8, b9, 9);
                self.start += 10;
                if b9 & 0x80 == 0 {
                    proof {
                        varint::lemma_ends(w, 9);
                    }
                    return Ok(with9);
                }
                proof {
                    varint::lemma_malformed(w);
                }
                Err(Error::Varint)
            },
        }
    }

    /// Reads an `int32`.
    pub fn read_int32(&mut self, bytes: &[u8]) -> (out: Result<i32>)
        requires
            old(self)@.end <= bytes@.len(),
        ensures
            scalar::int32(old(self)@.window(bytes@)).done(old(self)@, final(self)@, out),
    {
        match self.read_varint32(bytes) {
            Ok(v) => Ok(scalar::cast32(v)),
            Err(e) => Err(e),
        }
    }

    /// Reads an `int64`.
    pub fn read_int64(&mut self, bytes: &[u8]) -> (out: Result<i64>)
        requires
            old(self)@.end <= bytes@.len(),
        ensures
            scalar::int64(old(self)@.window(bytes@)).done(old(self)@, final(self)@, out),
    {
        match self.read_varint64(bytes) {
            Ok(v) => Ok(scalar::cast64(v)),
            Err(e) => Err(e),
        }
    }

    /// Reads a `uint32`.
    pub fn read_uint32(&mut self, bytes: &[u8]) -> (out: Result<u32>)
        requires
            old(self)@.end <= bytes@.len(),
        ensures
            varint::varint32(old(self)@.window(bytes@)).done(old(self)@, final(self)@, out),
    {
        self.read_varint32(bytes)
    }

    /// Reads a `uint64`.
    pub fn read_uint64(&mut self, bytes: &[u8]) -> (out: Result<u64>)
        requires
            old(self)@.end <= bytes@.len(),
        ensures
            varint::varint64(old(self)@.window(bytes@)).done(old(self)@, final(self)@, out),
    {
        self.read_varint64(bytes)
    }

    /// Reads a `sint32`, which is stored in zigzag order.
    pub fn read_sint32(&mut self, bytes: &[u8]) -> (out: Result<i32>)
        requires
            old(self)@.end <= bytes@.len(),
        ensures
            scalar::sint32(old(self)@.window(bytes@)).done(old(self)@, final(self)@, out),
    {
        match self.read_varint32(bytes) {
            Ok(v) => Ok(scalar::unzigzag32(v)),
            Err(e) => Err(e),
        }
    }

    /// Reads a `sint64`, which is stored in zigzag order.
    pub fn read_sint64(&mut self, bytes: &[u8]) -> (out: Result<i64>)
        requires
            old(self)@.end <= bytes@.len(),
        ensures
            scalar::sint64(old(self)@.window(bytes@)).done(old(self)@, final(self)@, out),
    {
        match self.read_varint64(bytes) {
            Ok(v) => Ok(scalar::unzigzag64(v)),
            Err(e) => Err(e),
        }
    }

    /// Reads a `fixed64`.
    ///
    /// The number has to lie before the end of the reader and that of the slice.
    pub fn read_fixed64(&mut self, bytes: &[u8]) -> (out: Result<u64>)
        ensures
            scalar::fixed64(old(self)@.reach(bytes@)).done(old(self)@, final(self)@, out),
    {
        if self.left_in(bytes) < 8 {
            return Err(Error::UnexpectedEndOfBuffer);
        }
        let v: u64 = little_endian::load(bytes, self.start, 8);
        proof {
            let w = self@.reach(bytes@);
            assert(bytes@.subrange(self.start as int, self.start + 8) =~= w.take(8));
            little_endian::lemma_le_value_bound(w.take(8));
            vstd::arithmetic::power2::lemma2_to64();
        }
        self.start += 8;
        Ok(v)
    }

    /// Reads a `fixed32`.
    ///
    /// The number has to lie before the end of the reader and that of the slice.
    pub fn read_fixed32(&mut self, bytes: &[u8]) -> (out: Result<u32>)
        ensures
            scalar::fixed32(old(self)@.reach(bytes@)).done(old(self)@, final(self)@, out),
    {
        if self.left_in(bytes) < 4 {
            return Err(Error::UnexpectedEndOfBuffer);
        }
        let v: u64 = little_endian::load(bytes, self.start, 4);
        proof {
            let w = self@.reach(bytes@);
            assert(bytes@.subrange(self.start as int, self.start + 4) =~= w.take(4));
            little_endian::lemma_le_value_bound(w.take(4));
            vstd::arithmetic::power2::lemma2_to64();
        }
        self.start += 4;
        Ok(v as u32)
    }

    /// Reads an `sfixed64`.
    ///
    /// The number has to lie before the end of the reader and that of the slice.
    pub fn read_sfixed64(&mut self, bytes: &[u8]) -> (out: Result<i64>)
        ensures
            scalar::sfixed64(old(self)@.reach(bytes@)).done(old(self)@, final(self)@, out),
    {
        match self.read_fixed64(bytes) {
            Ok(v) => Ok(scalar::cast64(v)),
            Err(e) => Err(e),
        }
    }

    /// Reads an `sfixed32`.
    ///
    /// The number has to lie before the end of the reader and that of the slice.
    pub fn read_sfixed32(&mut self, bytes: &[u8]) -> (out: Result<i32>)
        ensures
            scalar::sfixed32(old(self)@.reach(bytes@)).done(old(self)@, final(self)@, out),
    {
        match self.read_fixed32(bytes) {
            Ok(v) => Ok(scalar::cast32(v)),
            Err(e) => Err(e),
        }
    }

    /// Reads a `bool`.
    pub fn read_bool(&mut self, bytes: &[u8]) -> (out: Result<bool>)
        requires
            old(self)@.end <= bytes@.len(),
        ensures
            scalar::boolean(old(self)@.window(bytes@)).done(old(self)@, final(self)@, out),
    {
        match self.read_varint32(bytes) {
            Ok(v) => Ok(v != 0),
            Err(e) => Err(e),
        }
    }

    /// Reads an enum, which is stored as an `int32`.
    pub fn read_enum<E: From<i32>>(&mut self, bytes: &[u8]) -> (out: Result<E>)
        requires
            old(self)@.end <= bytes@.len(),
        ensures
            ({
                let step = scalar::int32(old(self)@.window(bytes@));
                &&& final(self)@ == old(self)@.advance(step.used)
                &&& match step.out {
                    Ok(i) => out matches Ok(e) && call_ensures(E::from, (i,), e),
                    Err(error) => out == Err::<E, Error>(error),
                }
            }),
    {
        match self.read_int32(bytes) {
            Ok(i) => Ok(E::from(i)),
            Err(e) => Err(e),
        }
    }

    /// Reads a length, and then an object of that many bytes with `read`.
    ///
    /// `read` gets a reader that ends with the object. Whatever it consumed, the
    /// position afterwards is where that reader ended. `read` is given away with
    /// the call, so it runs once at most.
    pub fn read_len_varint<'a, M, F>(&mut self, bytes: &'a [u8], read: F) -> (out: Result<M>) where
        F: FnOnce(&mut BytesReader, &'a [u8]) -> Result<M>,

        requires
            old(self)@.end <= bytes@.len(),
            field::body(old(self)@, bytes@).out matches Ok(body) ==> forall|r: &mut BytesReader|
                r@ == body ==> #[trigger] call_requires(read, (r, bytes)),
        ensures
            ({
                let step = field::body(old(self)@, bytes@);
                match step.out {
                    Ok(body) => final(self)@.end == old(self)@.end && exists|r: &mut BytesReader|
                        r@ == body && final(r)@.end == final(self)@.start
                            && #[trigger] call_ensures(read, (r, bytes), out),
                    Err(error) => out == Err::<M, Error>(error) && final(self)@ == old(
                        self,
                    )@.advance(step.used),
                }
            }),
    {
        let len: usize = self.read_varint32(bytes)? as usize;
        proof {
            varint::lemma_run(old(self)@.window(bytes@));
        }
        self.read_len(bytes, read, len)
    }

    /// Reads an object of `len` bytes with `read`.
    fn read_len<'a, M, F>(&mut self, bytes: &'a [u8], read: F, len: usize) -> (out: Result<
        M,
    >) where
        F: FnOnce(&mut BytesReader, &'a [u8]) -> Result<M>,

        requires
            old(self)@.start <= old(self)@.end <= bytes@.len(),
            field::front(old(self)@, len as nat).end <= old(self)@.end ==> forall|
                r: &mut BytesReader,
            |
                r@ == field::front(old(self)@, len as nat) ==> #[trigger] call_requires(
                    read,
                    (r, bytes),
                ),
        ensures
            ({
                let body = field::front(old(self)@, len as nat);
                if body.end <= old(self)@.end {
                    final(self)@.end == old(self)@.end && exists|r: &mut BytesReader|
                        r@ == body && final(r)@.end == final(self)@.start
                            && #[trigger] call_ensures(read, (r, bytes), out)
                } else {
                    out == Err::<M, Error>(Error::UnexpectedEndOfBuffer) && final(self)@ == old(
                        self,
                    )@
                }
            }),
    {
        let cur_end: usize = self.end;
        if len > cur_end - self.start {
            return Err(Error::UnexpectedEndOfBuffer);
        }
        self.end = self.start + len;
        let v: Result<M> = read(self, bytes);
        self.start = self.end;
        self.end = cur_end;
        v
    }

    /// Reads a nested message, whose length comes first.
    pub fn read_message<'a, M>(&mut self, bytes: &'a [u8]) -> (out: Result<M>) where
        M: MessageRead<'a>,

        requires
            old(self)@.end <= bytes@.len(),
        ensures
            ({
                let step = field::body(old(self)@, bytes@);
                match step.out {
                    Ok(body) => final(self)@.end == old(self)@.end && exists|r: &mut BytesReader|
                        r@ == body && final(r)@.end == final(self)@.start
                            && #[trigger] call_ensures(M::from_reader, (r, bytes), out),
                    Err(error) => out == Err::<M, Error>(error) && final(self)@ == old(
                        self,
                    )@.advance(step.used),
                }
            }),
    {
        self.read_len_varint(bytes, M::from_reader)
    }

    /// Reads a nested message of `len` bytes.
    pub fn read_message_by_len<'a, M>(&mut self, bytes: &'a [u8], len: usize) -> (out: Result<
        M,
    >) where M: MessageRead<'a>,
        requires
            old(self)@.start <= old(self)@.end <= bytes@.len(),
        ensures
            ({
                let body = field::front(old(self)@, len as nat);
                if body.end <= old(self)@.end {
                    final(self)@.end == old(self)@.end && exists|r: &mut BytesReader|
                        r@ == body && final(r)@.end == final(self)@.start
                            && #[trigger] call_ensures(M::from_reader, (r, bytes), out)
                } else {
                    out == Err::<M, Error>(Error::UnexpectedEndOfBuffer) && final(self)@ == old(
                        self,
                    )@
                }
            }),
    {
        self.read_len(bytes, M::from_reader, len)
    }

    /// Reads the length prefix of a field, and makes the field's body what is
    /// left to read. Gives the end to go back to afterwards.
    fn enter_field(&mut self, bytes: &[u8]) -> (out: Result<usize>)
        requires
            old(self)@.end <= bytes@.len(),
        ensures
            ({
                let step = field::body(old(self)@, bytes@);
                match step.out {
                    Ok(body) => out == Ok::<usize, Error>(old(self)@.end as usize) && final(self)@
                        == body,
                    Err(error) => out == Err::<usize, Error>(error) && final(self)@ == old(
                        self,
                    )@.advance(step.used),
                }
            }),
    {
        let len: usize = self.read_varint32(bytes)? as usize;
        proof {
            varint::lemma_run(old(self)@.window(bytes@));
        }
        let cur_end: usize = self.end;
        if len > cur_end - self.start {
            return Err(Error::UnexpectedEndOfBuffer);
        }
        self.end = self.start + len;
        Ok(cur_end)
    }

    /// Puts the reader behind a field, where `cur_end` is the end to go back to.
    fn leave_field(&mut self, cur_end: usize)
        ensures
            final(self)@ == (Cursor { start: old(self)@.end, end: cur_end as nat }),
    {
        self.start = self.end;
        self.end = cur_end;
    }

    /// Reads a `bytes` field.
    pub fn read_bytes<'a>(&mut self, bytes: &'a [u8]) -> (out: Result<&'a [u8]>)
        requires
            old(self)@.end <= bytes@.len(),
        ensures
            ({
                let step = field::body(old(self)@, bytes@);
                match step.out {
                    Ok(body) => {
                        &&& out matches Ok(v) && v@ == body.window(bytes@)
                        &&& final(self)@ == field::behind(old(self)@, body)
                    },
                    Err(error) => out == Err::<&'a [u8], Error>(error) && final(self)@ == old(
                        self,
                    )@.advance(step.used),
                }
            }),
    {
        proof {
            field::lemma_body(self@, bytes@);
        }
        let cur_end: usize = self.enter_field(bytes)?;
        let v: &'a [u8] = vstd::slice::slice_subrange(bytes, self.start, self.end);
        self.leave_field(cur_end);
        Ok(v)
    }

    /// Reads a `string` field.
    pub fn read_string<'a>(&mut self, bytes: &'a [u8]) -> (out: Result<&'a str>)
        requires
            old(self)@.end <= bytes@.len(),
        ensures
            ({
                let step = field::body(old(self)@, bytes@);
                match step.out {
                    Ok(body) => {
                        let text = body.window(bytes@);
                        &&& if vstd::utf8::valid_utf8(text) {
                            out matches Ok(s) && s@ == vstd::utf8::decode_utf8(text)
                        } else {
                            out == Err::<&'a str, Error>(Error::Utf8(error::utf8_error(text)))
                        }
                        &&& final(self)@ == field::behind(old(self)@, body)
                    },
                    Err(error) => out == Err::<&'a str, Error>(error) && final(self)@ == old(
                        self,
                    )@.advance(step.used),
                }
            }),
    {
        match core::str::from_utf8(self.read_bytes(bytes)?) {
            Ok(s) => {
                proof {
                    vstd::utf8::encode_utf8_decode_utf8(s@);
                }
                Ok(s)
            },
            Err(e) => Err(Error::Utf8(e)),
        }
    }

    /// Reads a packed repeated field, element by element, with `read`.
    ///
    /// The elements are stored back to back in one length-delimited field. An
    /// element has to take something off what is left, or the field would have
    /// no end.
    pub fn read_packed<'a, M, F>(&mut self, bytes: &'a [u8], read: F) -> (out: Result<
        Vec<M>,
    >) where F: FnMut(&mut BytesReader, &'a [u8]) -> Result<M>,
        requires
            old(self)@.end <= bytes@.len(),
            field::body(old(self)@, bytes@).out matches Ok(body) && body.start < body.end
                ==> forall|r: &mut BytesReader|
                r@.start < r@.end <= bytes@.len() ==> #[trigger] call_requires(read, (r, bytes)),
            field::body(old(self)@, bytes@).out matches Ok(body) && body.start < body.end
                ==> forall|r: &mut BytesReader, m: Result<M>|
                r@.start < r@.end <= bytes@.len() && #[trigger] call_ensures(read, (r, bytes), m)
                    && m is Ok ==> final(r)@.start <= final(r)@.end <= bytes@.len() && final(r)@.end
                    - final(r)@.start < r@.end - r@.start,
        ensures
            ({
                let step = field::body(old(self)@, bytes@);
                match step.out {
                    Ok(body) => exists|t: Trace<M>|
                        {
                            &&& #[trigger] t.collects(body, out)
                            &&& final(self)@ == field::behind(old(self)@, t.at.last())
                            &&& forall|i: int| #[trigger]
                                t.has(i) ==> exists|r: &mut BytesReader|
                                    r@ == t.at[i] && final(r)@ == t.at[i + 1]
                                        && #[trigger] call_ensures(read, (r, bytes), t.outs[i])
                        },
                    Err(error) => out == Err::<Vec<M>, Error>(error) && final(self)@ == old(
                        self,
                    )@.advance(step.used),
                }
            }),
    {
        proof {
            field::lemma_body(self@, bytes@);
        }
        let cur_end: usize = self.enter_field(bytes)?;
        let size: usize = core::mem::size_of::<M>();
        let hint: usize = self.len() / (if size > 1 {
            size
        } else {
            1
        });
        let mut v: Vec<M> = Vec::with_capacity(
            if hint < 1024 {
                hint
            } else {
                1024
            },
        );
        let ghost body = self@;
        let mut callee: F = read;
        let ghost mut t = Trace::<M> { at: seq![self@], outs: Seq::empty() };
        while !self.is_eof()
            invariant
                self@.start <= self@.end <= bytes@.len(),
                body.start < body.end ==> forall|r: &mut BytesReader|
                    r@.start < r@.end <= bytes@.len() ==> #[trigger] call_requires(
                        read,
                        (r, bytes),
                    ),
                body.start < body.end ==> forall|r: &mut BytesReader, m: Result<M>|
                    r@.start < r@.end <= bytes@.len() && #[trigger] call_ensures(
                        read,
                        (r, bytes),
                        m,
                    ) && m is Ok ==> final(r)@.start <= final(r)@.end <= bytes@.len()
                        && final(r)@.end - final(r)@.start < r@.end - r@.start,
                callee == read,
                field::body(old(self)@, bytes@).out == Ok::<Cursor, Error>(body),
                cur_end == old(self)@.end,
                t.at.len() == t.outs.len() + 1,
                t.at[0] == body,
                t.at.last() == self@,
                t.outs.len() == v@.len(),
                forall|i: int| 0 <= i < t.outs.len() ==> (#[trigger] t.at[i]).start < t.at[i].end,
                forall|i: int|
                    0 <= i < t.outs.len() ==> #[trigger] t.outs[i] == Ok::<M, Error>(v@[i]),
                forall|i: int| #[trigger]
                    t.has(i) ==> exists|r: &mut BytesReader|
                        r@ == t.at[i] && final(r)@ == t.at[i + 1] && #[trigger] call_ensures(
                            read,
                            (r, bytes),
                            t.outs[i],
                        ),
            decreases self@.end - self@.start,
        {
            let ghost from = self@;
            assert(t.at[0].start < t.at[0].end);
            let got: Result<M> = callee(&mut *self, bytes);
            assert(exists|r: &mut BytesReader|
                r@ == from && final(r)@ == self@ && #[trigger] call_ensures(read, (r, bytes), got));
            proof {
                t.lemma_push(got, self@);
                t = t.push(got, self@);
            }
            match got {
                Ok(m) => {
                    v.push(m);
                },
                Err(e) => {
                    self.leave_field(cur_end);
                    assert(field::body(old(self)@, bytes@).out->Ok_0 == body);
                    assert(t.collects(body, Err(e)));
                    return Err(e);
                },
            }
        }
        self.leave_field(cur_end);
        assert(t.collects(body, Ok(v)));
        Ok(v)
    }

    /// Reads a packed repeated `int32` field.
    ///
    /// Decodes chunk by chunk as far as that goes, and the rest one by one.
    pub fn read_packed_int32(&mut self, bytes: &[u8]) -> (out: Result<Vec<i32>>)
        requires
            old(self)@.end <= bytes@.len(),
        ensures
            ({
                let step = field::body(old(self)@, bytes@);
                match step.out {
                    Ok(body) => {
                        &&& match repeated::int32s(body.window(bytes@)) {
                            Ok(values) => out matches Ok(v) && v@ == values,
                            Err(error) => out == Err::<Vec<i32>, Error>(error),
                        }
                        &&& final(self)@ == field::behind(old(self)@, body)
                    },
                    Err(error) => out == Err::<Vec<i32>, Error>(error) && final(self)@ == old(
                        self,
                    )@.advance(step.used),
                }
            }),
    {
        proof {
            field::lemma_body(self@, bytes@);
        }
        let cur_end: usize = self.enter_field(bytes)?;
        let ghost body = self@;
        let hint: usize = self.len();
        let mut v: Vec<i32> = Vec::with_capacity(
            if hint < 1024 {
                hint
            } else {
                1024
            },
        );
        let pos: usize = batch::batch_decode_varint32(bytes, self.start, self.end, &mut v);
        self.start = pos;
        proof {
            let values = repeated::int32s(bytes@.subrange(body.start as int, pos as int));
            assert(Seq::<i32>::empty() + values->Ok_0 =~= values->Ok_0);
        }
        while !self.is_eof()
            invariant
                body.start <= self@.start <= self@.end <= bytes@.len(),
                body.end == self@.end,
                field::body(old(self)@, bytes@).out == Ok::<Cursor, Error>(body),
                cur_end == old(self)@.end,
                repeated::int32s(bytes@.subrange(body.start as int, self@.start as int)) == Ok::<
                    Seq<i32>,
                    Error,
                >(v@),
            decreases self@.end - self@.start,
        {
            let ghost from = self@;
            let ghost done = bytes@.subrange(body.start as int, from.start as int);
            let ghost rest = from.window(bytes@);
            proof {
                assert(done + rest =~= body.window(bytes@));
                repeated::lemma_int32s_concat(done, rest);
            }
            match self.read_varint32(bytes) {
                Ok(value) => {
                    v.push(scalar::cast32(value));
                    proof {
                        varint::lemma_varint_prefix(rest, Seq::empty());
                        let n = self@.start - from.start;
                        varint::lemma_varint_take(rest, n as nat);
                        repeated::lemma_int32s_push(done, rest.take(n));
                        assert(done + rest.take(n) =~= bytes@.subrange(
                            body.start as int,
                            self@.start as int,
                        ));
                    }
                },
                Err(e) => {
                    self.leave_field(cur_end);
                    return Err(e);
                },
            }
        }
        assert(bytes@.subrange(body.start as int, self@.start as int) =~= body.window(bytes@));
        self.leave_field(cur_end);
        Ok(v)
    }

    /// Reads a packed repeated field of fixed-width numbers.
    ///
    /// The numbers stay in `bytes`. Bytes behind the last whole number are
    /// skipped.
    pub fn read_packed_fixed<'a, M: FixedWidth>(&mut self, bytes: &'a [u8]) -> (out: Result<
        PackedFixed<'a, M>,
    >)
        requires
            old(self)@.end <= bytes@.len(),
        ensures
            ({
                let step = field::body(old(self)@, bytes@);
                match step.out {
                    Ok(body) => {
                        let raw = body.window(bytes@);
                        &&& out matches Ok(PackedFixed::Borrowed(b)) && b@ == raw.take(
                            raw.len() - raw.len() % M::width(),
                        )
                        &&& out->Ok_0.elems() == packed::numbers::<M>(raw)
                        &&& final(self)@ == field::behind(old(self)@, body)
                    },
                    Err(error) => out == Err::<PackedFixed<'a, M>, Error>(error) && final(self)@
                        == old(self)@.advance(step.used),
                }
            }),
    {
        proof {
            field::lemma_body(self@, bytes@);
            M::lemma_fixed();
        }
        let len: usize = self.read_varint32(bytes)? as usize;
        if self.len() < len {
            return Err(Error::UnexpectedEndOfBuffer);
        }
        let n: usize = len / M::size();
        proof {
            packed::lemma_whole::<M>(
                bytes@.subrange(self.start as int, self.start + len),
            );
        }
        let target: &'a [u8] = vstd::slice::slice_subrange(
            bytes,
            self.start,
            self.start + n * M::size(),
        );
        proof {
            let raw = bytes@.subrange(self.start as int, self.start + len);
            assert(target@ =~= raw.take(raw.len() - raw.len() % M::width()));
        }
        self.start += len;
        Ok(PackedFixed::from(target))
    }

    /// Reads a map entry with `read_key` and `read_val`, each of which is called
    /// behind a tag.
    ///
    /// A key or value that is absent is the default one; of several the last
    /// counts.
    pub fn read_map<'a, K, V, F, G>(&mut self, bytes: &'a [u8], read_key: F, read_val: G) -> (out:
        Result<(K, V)>) where
        F: FnMut(&mut BytesReader, &'a [u8]) -> Result<K>,
        G: FnMut(&mut BytesReader, &'a [u8]) -> Result<V>,
        K: Default,
        V: Default,

        requires
            old(self)@.end <= bytes@.len(),
            field::body(old(self)@, bytes@).out matches Ok(body) && body.start < body.end
                ==> forall|r: &mut BytesReader|
                r@.start <= r@.end <= bytes@.len() ==> #[trigger] call_requires(
                    read_key,
                    (r, bytes),
                ),
            field::body(old(self)@, bytes@).out matches Ok(body) && body.start < body.end
                ==> forall|r: &mut BytesReader, k: Result<K>|
                r@.start <= r@.end <= bytes@.len() && #[trigger] call_ensures(
                    read_key,
                    (r, bytes),
                    k,
                ) && k is Ok ==> final(r)@.start <= final(r)@.end <= bytes@.len() && final(r)@.end
                    - final(r)@.start <= r@.end - r@.start,
            field::body(old(self)@, bytes@).out matches Ok(body) && body.start < body.end
                ==> forall|r: &mut BytesReader|
                r@.start <= r@.end <= bytes@.len() ==> #[trigger] call_requires(
                    read_val,
                    (r, bytes),
                ),
            field::body(old(self)@, bytes@).out matches Ok(body) && body.start < body.end
                ==> forall|r: &mut BytesReader, v: Result<V>|
                r@.start <= r@.end <= bytes@.len() && #[trigger] call_ensures(
                    read_val,
                    (r, bytes),
                    v,
                ) && v is Ok ==> final(r)@.start <= final(r)@.end <= bytes@.len() && final(r)@.end
                    - final(r)@.start <= r@.end - r@.start,
        ensures
            ({
                let step = field::body(old(self)@, bytes@);
                match step.out {
                    Ok(body) => exists|t: EntryTrace<K, V>, key: K, value: V|
                        {
                            &&& call_ensures(K::default, (), key)
                            &&& call_ensures(V::default, (), value)
                            &&& #[trigger] t.gives(key, value, out)
                            &&& t.covers(body, bytes@)
                            &&& final(self)@ == field::behind(old(self)@, t.at.last())
                            &&& forall|i: int| #[trigger]
                                t.has(i) ==> match t.parts[i] {
                                    Part::Key(k) => exists|r: &mut BytesReader|
                                        r@ == t.at[i].advance(1) && final(r)@ == t.at[i + 1]
                                            && #[trigger] call_ensures(read_key, (r, bytes), k),
                                    Part::Value(v) => exists|r: &mut BytesReader|
                                        r@ == t.at[i].advance(1) && final(r)@ == t.at[i + 1]
                                            && #[trigger] call_ensures(read_val, (r, bytes), v),
                                    Part::Other(_) => true,
                                }
                        },
                    Err(error) => out == Err::<(K, V), Error>(error) && final(self)@ == old(
                        self,
                    )@.advance(step.used),
                }
            }),
    {
        proof {
            field::lemma_body(self@, bytes@);
        }
        let cur_end: usize = self.enter_field(bytes)?;
        let ghost body = self@;
        let mut callee_key: F = read_key;
        let mut callee_val: G = read_val;
        let mut k: K = K::default();
        let mut v: V = V::default();
        let ghost key = k;
        let ghost value = v;
        let ghost mut t = EntryTrace::<K, V> { at: seq![self@], parts: Seq::empty() };
        while !self.is_eof()
            invariant
                self@.start <= self@.end <= bytes@.len(),
                call_ensures(K::default, (), key),
                call_ensures(V::default, (), value),
                callee_key == read_key,
                callee_val == read_val,
                field::body(old(self)@, bytes@).out == Ok::<Cursor, Error>(body),
                cur_end == old(self)@.end,
                t.covers(body, bytes@),
                t.at.last() == self@,
                forall|i: int| #[trigger] t.has(i) ==> t.parts[i].error() is None,
                k == entry::last_key(t.parts, key),
                v == entry::last_value(t.parts, value),
                body.start < body.end ==> forall|r: &mut BytesReader|
                    r@.start <= r@.end <= bytes@.len() ==> #[trigger] call_requires(
                        read_key,
                        (r, bytes),
                    ),
                body.start < body.end ==> forall|r: &mut BytesReader, k: Result<K>|
                    r@.start <= r@.end <= bytes@.len() && #[trigger] call_ensures(
                        read_key,
                        (r, bytes),
                        k,
                    ) && k is Ok ==> final(r)@.start <= final(r)@.end <= bytes@.len()
                        && final(r)@.end - final(r)@.start <= r@.end - r@.start,
                body.start < body.end ==> forall|r: &mut BytesReader|
                    r@.start <= r@.end <= bytes@.len() ==> #[trigger] call_requires(
                        read_val,
                        (r, bytes),
                    ),
                body.start < body.end ==> forall|r: &mut BytesReader, v: Result<V>|
                    r@.start <= r@.end <= bytes@.len() && #[trigger] call_ensures(
                        read_val,
                        (r, bytes),
                        v,
                    ) && v is Ok ==> final(r)@.start <= final(r)@.end <= bytes@.len()
                        && final(r)@.end - final(r)@.start <= r@.end - r@.start,
                forall|i: int| #[trigger]
                    t.has(i) ==> match t.parts[i] {
                        Part::Key(k) => exists|r: &mut BytesReader|
                            r@ == t.at[i].advance(1) && final(r)@ == t.at[i + 1]
                                && #[trigger] call_ensures(read_key, (r, bytes), k),
                        Part::Value(v) => exists|r: &mut BytesReader|
                            r@ == t.at[i].advance(1) && final(r)@ == t.at[i + 1]
                                && #[trigger] call_ensures(read_val, (r, bytes), v),
                        Part::Other(_) => true,
                    },
            decreases self@.end - self@.start,
        {
            let ghost before = t;
            proof {
                if t.parts.len() > 0 {
                    assert(t.has(0));
                }
                assert(body.start < body.end);
            }
            let tag: u8 = match self.read_u8(bytes) {
                Ok(tag) => tag,
                Err(e) => {
                    self.leave_field(cur_end);
                    return Err(e);
                },
            };
            let number: u8 = tag >> 3;
            assert(number == tag / 8) by (bit_vector)
                requires
                    number == tag >> 3,
            ;
            assert(field::body(old(self)@, bytes@).out->Ok_0 == body);
            let ghost at_field = self@;
            if number == 1 {
                let got: Result<K> = callee_key(&mut *self, bytes);
                assert(exists|r: &mut BytesReader|
                    r@ == at_field && final(r)@ == self@ && #[trigger] call_ensures(
                        read_key,
                        (r, bytes),
                        got,
                    ));
                proof {
                    t = before.push(Part::Key(got), self@);
                    before.lemma_push(Part::Key(got), self@);
                }
                match got {
                    Ok(got) => {
                        k = got;
                    },
                    Err(e) => {
                        self.leave_field(cur_end);
                        assert(t.gives(key, value, Err(e)));
                        return Err(e);
                    },
                }
            } else if number == 2 {
                let got: Result<V> = callee_val(&mut *self, bytes);
                assert(exists|r: &mut BytesReader|
                    r@ == at_field && final(r)@ == self@ && #[trigger] call_ensures(
                        read_val,
                        (r, bytes),
                        got,
                    ));
                proof {
                    t = before.push(Part::Value(got), self@);
                    before.lemma_push(Part::Value(got), self@);
                }
                match got {
                    Ok(got) => {
                        v = got;
                    },
                    Err(e) => {
                        self.leave_field(cur_end);
                        assert(t.gives(key, value, Err(e)));
                        return Err(e);
                    },
                }
            } else {
                proof {
                    t = before.push(Part::Other(number), self@);
                    before.lemma_push(Part::Other(number), self@);
                }
                self.leave_field(cur_end);
                assert(t.gives(key, value, Err(Error::MapField(number))));
                return Err(Error::MapField(number));
            }
        }
        proof {
            if t.parts.len() > 0 {
                assert(t.has(t.parts.len() - 1));
            }
        }
        self.leave_field(cur_end);
        assert(t.gives(key, value, Ok((k, v))));
        Ok((k, v))
    }

    /// Skips the field whose tag is `tag_value`.
    pub fn read_unknown(&mut self, bytes: &[u8], tag_value: u32) -> (out: Result<()>)
        requires
            old(self)@.end <= bytes@.len(),
            tag_value % 8 == field::WIRE_TYPE_FIXED64 || tag_value % 8 == field::WIRE_TYPE_FIXED32
                ==> old(self)@.start <= old(self)@.end,
        ensures
            field::unknown(old(self)@.window(bytes@), tag_value).done(
                old(self)@,
                final(self)@,
                out,
            ),
    {
        let wire_type: u8 = (tag_value & 0x7) as u8;
        assert(tag_value & 0x7 == tag_value % 8) by (bit_vector);
        proof {
            varint::lemma_run(self@.window(bytes@));
        }
        let offset: u64 = match wire_type {
            field::WIRE_TYPE_VARINT => {
                self.read_varint64(bytes)?;
                return Ok(());
            },
            field::WIRE_TYPE_FIXED64 => 8,
            field::WIRE_TYPE_FIXED32 => 4,
            field::WIRE_TYPE_LENGTH_DELIMITED => self.read_varint64(bytes)?,
            field::WIRE_TYPE_START_GROUP | field::WIRE_TYPE_END_GROUP => {
                return Err(Error::Deprecated("group"));
            },
            _ => {
                return Err(Error::UnknownWireType(wire_type));
            },
        };
        if ((self.end - self.start) as u64) < offset {
            Err(Error::Varint)
        } else {
            self.start += offset as usize;
            Ok(())
        }
    }

    /// Reads the next tag.
    pub fn next_tag(&mut self, bytes: &[u8]) -> (out: Result<u32>)
        requires
            old(self)@.end <= bytes@.len(),
        ensures
            varint::varint32(old(self)@.window(bytes@)).done(old(self)@, final(self)@, out),
    {
        self.read_varint32(bytes)
    }

    /// The position of the next byte.
    pub fn start(&self) -> (pos: usize)
        ensures
            pos == self@.start,
    {
        self.start
    }

    /// The position behind the last byte.
    pub fn end(&self) -> (end: usize)
        ensures
            end == self@.end,
    {
        self.end
    }

    /// Moves to position `pos`.
    pub fn set_start(&mut self, pos: usize)
        requires
            pos <= old(self)@.end,
        ensures
            final(self)@ == (Cursor { start: pos as nat, end: old(self)@.end }),
    {
        self.start = pos;
    }

    /// Makes `end` the position behind the last byte.
    ///
    /// Reads expect it to lie within the slice they are handed.
    pub fn set_end(&mut self, end: usize)
        ensures
            final(self)@ == (Cursor { start: old(self)@.start, end: end as nat }),
    {
        self.end = end;
    }

    /// Moves behind the last byte.
    pub fn read_to_end(&mut self)
        ensures
            final(self)@ == (Cursor { start: old(self)@.end, end: old(self)@.end }),
    {
        self.start = self.end;
    }

    /// How many bytes are left to read.
    pub fn len(&self) -> (n: usize)
        requires
            self@.start <= self@.end,
        ensures
            n == self@.end - self@.start,
    {
        self.end - self.start
    }

    /// Whether nothing is left to read.
    pub fn is_eof(&self) -> (eof: bool)
        ensures
            eof == (self@.start == self@.end),
    {
        self.start == self.end
    }
}

} // verus!
