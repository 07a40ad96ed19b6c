//! What the reads of length-delimited fields mean, in bytes and results alone.
//!
//! A field is told by the read of its length: the laws put the call that reads a field
//! next to the call of `read_varint32` that reads the length in front of it.
use vstd::prelude::*;

use crate::buffer::{deserialize_from_slice, Reader};
use crate::cursor::Cursor;
use crate::error::{utf8_error, Error, Result};
use crate::field;
use crate::fixed_width::FixedWidth;
use crate::message::MessageRead;
use crate::packed;
use crate::packed::PackedFixed;
use crate::reader::BytesReader;
use crate::varint;

verus! {

/// A `bytes` field is the bytes behind its length, as many as the length says and not
/// one less: where fewer are left, the read fails, and stands behind the length.
pub proof fn law_bytes_are_the_body<'a>(bytes: &'a [u8])
    ensures
        forall|r: &mut BytesReader, q: &mut BytesReader, len: Result<u32>, out: Result<&'a [u8]>|
            {
                &&& r@ == q@
                &&& r@.end <= bytes@.len()
                &&& #[trigger] call_ensures(BytesReader::read_varint32, (q, bytes), len)
                &&& #[trigger] call_ensures(BytesReader::read_bytes, (r, bytes), out)
            } ==> {
                let p = final(q)@.start as int;
                &&& final(r)@.end == r@.end
                &&& match len {
                    Ok(n) => if p + n <= r@.end {
                        &&& out matches Ok(v) && v@.len() == n && forall|i: int|
                            0 <= i < n ==> #[trigger] v@[i] == bytes@[p + i]
                        &&& final(r)@.start == p + n
                    } else {
                        &&& out == Err::<&'a [u8], Error>(Error::UnexpectedEndOfBuffer)
                        &&& final(r)@.start == p
                    },
                    Err(error) => out == Err::<&'a [u8], Error>(error) && final(r)@.start == p,
                }
            },
{
    varint::lemma_runs();
}

/// A string field is the text that the bytes behind its length encode, as many as the
/// length says; the read fails where these are no UTF-8, and where fewer are left.
pub proof fn law_string_is_the_text_of_the_body<'a>(bytes: &'a [u8])
    ensures
        forall|r: &mut BytesReader, q: &mut BytesReader, len: Result<u32>, out: Result<&'a str>|
            {
                &&& r@ == q@
                &&& r@.end <= bytes@.len()
                &&& #[trigger] call_ensures(BytesReader::read_varint32, (q, bytes), len)
                &&& #[trigger] call_ensures(BytesReader::read_string, (r, bytes), out)
            } ==> {
                let p = final(q)@.start as int;
                &&& final(r)@.end == r@.end
                &&& match len {
                    Ok(n) => if p + n <= r@.end {
                        &&& vstd::utf8::valid_utf8(bytes@.subrange(p, p + n)) <==> out is Ok
                        &&& match out {
                            Ok(s) => vstd::utf8::encode_utf8(s@) == bytes@.subrange(p, p + n),
                            Err(e) => e == Error::Utf8(utf8_error(bytes@.subrange(p, p + n))),
                        }
                        &&& final(r)@.start == p + n
                    } else {
                        &&& out == Err::<&'a str, Error>(Error::UnexpectedEndOfBuffer)
                        &&& final(r)@.start == p
                    },
                    Err(error) => out == Err::<&'a str, Error>(error) && final(r)@.start == p,
                }
            },
{
    assert forall|r: &mut BytesReader, q: &mut BytesReader, len: Result<u32>, out: Result<&'a str>|
        {
            &&& r@ == q@
            &&& r@.end <= bytes@.len()
            &&& #[trigger] call_ensures(BytesReader::read_varint32, (q, bytes), len)
            &&& #[trigger] call_ensures(BytesReader::read_string, (r, bytes), out)
        } implies {
        let p = final(q)@.start as int;
        &&& final(r)@.end == r@.end
        &&& match len {
            Ok(n) => if p + n <= r@.end {
                &&& vstd::utf8::valid_utf8(bytes@.subrange(p, p + n)) <==> out is Ok
                &&& match out {
                    Ok(s) => vstd::utf8::encode_utf8(s@) == bytes@.subrange(p, p + n),
                    Err(e) => e == Error::Utf8(utf8_error(bytes@.subrange(p, p + n))),
                }
                &&& final(r)@.start == p + n
            } else {
                &&& out == Err::<&'a str, Error>(Error::UnexpectedEndOfBuffer)
                &&& final(r)@.start == p
            },
            Err(error) => out == Err::<&'a str, Error>(error) && final(r)@.start == p,
        }
    } by {
        varint::lemma_run(r@.window(bytes@));
        if vstd::utf8::valid_utf8(field::body(r@, bytes@).out->Ok_0.window(bytes@)) {
            vstd::utf8::decode_utf8_encode_utf8(field::body(r@, bytes@).out->Ok_0.window(bytes@));
        }
    }
}

/// A packed field of fixed-width numbers is the bytes behind its length, up to the last
/// whole number; where fewer bytes are left than the length says, the read fails.
pub proof fn law_packed_fixed_is_the_body<'a, T: FixedWidth>(bytes: &'a [u8])
    ensures
        forall|
            r: &mut BytesReader,
            q: &mut BytesReader,
            len: Result<u32>,
            out: Result<PackedFixed<'a, T>>,
        |
            {
                &&& r@ == q@
                &&& r@.end <= bytes@.len()
                &&& #[trigger] call_ensures(BytesReader::read_varint32, (q, bytes), len)
                &&& #[trigger] call_ensures(BytesReader::read_packed_fixed::<T>, (r, bytes), out)
            } ==> {
                let p = final(q)@.start as int;
                &&& final(r)@.end == r@.end
                &&& match len {
                    Ok(n) => if p + n <= r@.end {
                        &&& out matches Ok(PackedFixed::Borrowed(v)) && {
                            &&& v@.len() <= n < v@.len() + T::width()
                            &&& v@.len() % T::width() == 0
                            &&& forall|i: int|
                                0 <= i < v@.len() ==> #[trigger] v@[i] == bytes@[p + i]
                        }
                        &&& final(r)@.start == p + n
                    } else {
                        &&& out == Err::<PackedFixed<'a, T>, Error>(Error::UnexpectedEndOfBuffer)
                        &&& final(r)@.start == p
                    },
                    Err(error) => {
                        &&& out == Err::<PackedFixed<'a, T>, Error>(error)
                        &&& final(r)@.start == p
                    },
                }
            },
{
    assert forall|
        r: &mut BytesReader,
        q: &mut BytesReader,
        len: Result<u32>,
        out: Result<PackedFixed<'a, T>>,
    |
        {
            &&& r@ == q@
            &&& r@.end <= bytes@.len()
            &&& #[trigger] call_ensures(BytesReader::read_varint32, (q, bytes), len)
            &&& #[trigger] call_ensures(BytesReader::read_packed_fixed::<T>, (r, bytes), out)
        } implies {
        let p = final(q)@.start as int;
        &&& final(r)@.end == r@.end
        &&& match len {
            Ok(n) => if p + n <= r@.end {
                &&& out matches Ok(PackedFixed::Borrowed(v)) && {
                    &&& v@.len() <= n < v@.len() + T::width()
                    &&& v@.len() % T::width() == 0
                    &&& forall|i: int|
                        0 <= i < v@.len() ==> #[trigger] v@[i] == bytes@[p + i]
                }
                &&& final(r)@.start == p + n
            } else {
                &&& out == Err::<PackedFixed<'a, T>, Error>(Error::UnexpectedEndOfBuffer)
                &&& final(r)@.start == p
            },
            Err(error) => out == Err::<PackedFixed<'a, T>, Error>(error) && final(r)@.start == p,
        }
    } by {
        varint::lemma_run(r@.window(bytes@));
        T::lemma_fixed();
        match field::body(r@, bytes@).out {
            Ok(body) => {
                packed::lemma_whole::<T>(body.window(bytes@));
                vstd::arithmetic::div_mod::lemma_mod_multiples_basic(
                    (body.window(bytes@).len() / T::width()) as int,
                    T::width() as int,
                );
                vstd::arithmetic::div_mod::lemma_mod_bound(
                    body.window(bytes@).len() as int,
                    T::width() as int,
                );
            },
            Err(_) => {},
        }
    }
}

/// An object is read with a reader over the bytes behind its length, as many as the
/// length says; where fewer are left, the read fails and nothing is called.
pub proof fn law_object_gets_its_body<'a, M, F>(bytes: &'a [u8], read: F) where
    F: FnOnce(&mut BytesReader, &'a [u8]) -> Result<M>,

    ensures
        forall|r: &mut BytesReader, q: &mut BytesReader, len: Result<u32>, out: Result<M>|
            {
                &&& r@ == q@
                &&& r@.end <= bytes@.len()
                &&& #[trigger] call_ensures(BytesReader::read_varint32, (q, bytes), len)
                &&& #[trigger] call_ensures(
                    BytesReader::read_len_varint::<M, F>,
                    (r, bytes, read),
                    out,
                )
            } ==> {
                let p = final(q)@.start as int;
                &&& final(r)@.end == r@.end
                &&& match len {
                    Ok(n) => if p + n <= r@.end {
                        exists|o: &mut BytesReader|
                            o@.start == p && o@.end == p + n && final(o)@.end == final(r)@.start
                                && #[trigger] call_ensures(read, (o, bytes), out)
                    } else {
                        &&& out == Err::<M, Error>(Error::UnexpectedEndOfBuffer)
                        &&& final(r)@.start == p
                    },
                    Err(error) => out == Err::<M, Error>(error) && final(r)@.start == p,
                }
            },
{
    varint::lemma_runs();
}

/// A message is read with a reader over the bytes behind its length, as many as the
/// length says; where fewer are left, the read fails and nothing is called.
pub proof fn law_message_gets_its_body<'a, M: MessageRead<'a>>(bytes: &'a [u8])
    ensures
        forall|r: &mut BytesReader, q: &mut BytesReader, len: Result<u32>, out: Result<M>|
            {
                &&& r@ == q@
                &&& r@.end <= bytes@.len()
                &&& #[trigger] call_ensures(BytesReader::read_varint32, (q, bytes), len)
                &&& #[trigger] call_ensures(BytesReader::read_message::<M>, (r, bytes), out)
            } ==> {
                let p = final(q)@.start as int;
                &&& final(r)@.end == r@.end
                &&& match len {
                    Ok(n) => if p + n <= r@.end {
                        exists|o: &mut BytesReader|
                            o@.start == p && o@.end == p + n && final(o)@.end == final(r)@.start
                                && #[trigger] call_ensures(M::from_reader, (o, bytes), out)
                    } else {
                        &&& out == Err::<M, Error>(Error::UnexpectedEndOfBuffer)
                        &&& final(r)@.start == p
                    },
                    Err(error) => out == Err::<M, Error>(error) && final(r)@.start == p,
                }
            },
{
    varint::lemma_runs();
}

/// A message of `len` bytes is read with a reader over the next `len` bytes; where
/// fewer are left, the read fails, moves nothing, and nothing is called.
pub proof fn law_message_by_len_gets_its_body<'a, M: MessageRead<'a>>(bytes: &'a [u8])
    ensures
        forall|r: &mut BytesReader, len: usize, out: Result<M>| #[trigger]
            call_ensures(BytesReader::read_message_by_len::<M>, (r, bytes, len), out) ==> {
                &&& final(r)@.end == r@.end
                &&& if r@.start + len <= r@.end {
                    exists|o: &mut BytesReader|
                        o@.start == r@.start && o@.end == r@.start + len && final(o)@.end
                            == final(r)@.start && #[trigger] call_ensures(
                            M::from_reader,
                            (o, bytes),
                            out,
                        )
                } else {
                    &&& out == Err::<M, Error>(Error::UnexpectedEndOfBuffer)
                    &&& final(r)@.start == r@.start
                }
            },
{
}

/// Reading a message out of a slice is reading it with a reader of all of the slice.
pub proof fn law_deserialize_gets_its_body<'a, M: MessageRead<'a>>(bytes: &'a [u8])
    ensures
        forall|q: &mut BytesReader, len: Result<u32>, out: Result<M>|
            {
                &&& q@.start == 0 && q@.end == bytes@.len()
                &&& #[trigger] call_ensures(BytesReader::read_varint32, (q, bytes), len)
                &&& #[trigger] call_ensures(deserialize_from_slice::<M>, (bytes,), out)
            } ==> {
                let p = final(q)@.start as int;
                match len {
                    Ok(n) => if p + n <= bytes@.len() {
                        exists|o: &mut BytesReader|
                            o@.start == p && o@.end == p + n && #[trigger] call_ensures(
                                M::from_reader,
                                (o, bytes),
                                out,
                            )
                    } else {
                        out == Err::<M, Error>(Error::UnexpectedEndOfBuffer)
                    },
                    Err(error) => out == Err::<M, Error>(error),
                }
            },
{
    assert forall|q: &mut BytesReader, len: Result<u32>, out: Result<M>|
        {
            &&& q@.start == 0 && q@.end == bytes@.len()
            &&& #[trigger] call_ensures(BytesReader::read_varint32, (q, bytes), len)
            &&& #[trigger] call_ensures(deserialize_from_slice::<M>, (bytes,), out)
        } implies {
        let p = final(q)@.start as int;
        match len {
            Ok(n) => if p + n <= bytes@.len() {
                exists|o: &mut BytesReader|
                    o@.start == p && o@.end == p + n && #[trigger] call_ensures(
                        M::from_reader,
                        (o, bytes),
                        out,
                    )
            } else {
                out == Err::<M, Error>(Error::UnexpectedEndOfBuffer)
            },
            Err(error) => out == Err::<M, Error>(error),
        }
    } by {
        assert(q@ == (Cursor { start: 0, end: bytes@.len() }));
    }
}

/// Skipping a field goes by the low three bits of its tag: past a varint; past eight
/// bytes or four; past a length and as many bytes as it says, and not one less. Where
/// these are not there, and for groups and for wire types that do not exist, it fails.
pub proof fn law_unknown_goes_by_the_wire_type(bytes: &[u8])
    ensures
        forall|
            r: &mut BytesReader,
            q: &mut BytesReader,
            tag: u32,
            value: Result<u64>,
            out: Result<()>,
        |
            {
                &&& r@ == q@
                &&& r@.end <= bytes@.len()
                &&& tag % 8 == 1 || tag % 8 == 5 ==> r@.start <= r@.end
                &&& #[trigger] call_ensures(BytesReader::read_varint64, (q, bytes), value)
                &&& #[trigger] call_ensures(BytesReader::read_unknown, (r, bytes, tag), out)
            } ==> {
                let p = final(q)@.start;
                let w = tag % 8;
                let n: int = if w == 1 {
                    8
                } else {
                    4
                };
                &&& final(r)@.end == r@.end
                &&& if w == 0 {
                    &&& final(r)@.start == p
                    &&& match value {
                        Ok(_) => out == Ok::<(), Error>(()),
                        Err(error) => out == Err::<(), Error>(error),
                    }
                } else if w == 1 || w == 5 {
                    if r@.start + n <= r@.end {
                        out == Ok::<(), Error>(()) && final(r)@.start == r@.start + n
                    } else {
                        out == Err::<(), Error>(Error::Varint) && final(r)@.start == r@.start
                    }
                } else if w == 2 {
                    match value {
                        Ok(len) => if p + len <= r@.end {
                            out == Ok::<(), Error>(()) && final(r)@.start == p + len
                        } else {
                            out == Err::<(), Error>(Error::Varint) && final(r)@.start == p
                        },
                        Err(error) => out == Err::<(), Error>(error) && final(r)@.start == p,
                    }
                } else if w == 3 || w == 4 {
                    out == Err::<(), Error>(Error::Deprecated("group")) && final(r)@.start
                        == r@.start
                } else {
                    out == Err::<(), Error>(Error::UnknownWireType(w as u8)) && final(r)@.start
                        == r@.start
                }
            },
{
    varint::lemma_runs();
}

/// A reader that is made from bytes holds those bytes, and its first read gets them all
/// from their front to their end.
pub proof fn law_reader_starts_at_the_front<'a, M, F>(bytes: Vec<u8>, read: F) where
    F: FnOnce(&mut BytesReader, &'a [u8]) -> Result<M>,

    ensures
        forall|held: Reader, b: &[u8]|
            #[trigger] call_ensures(Reader::from_bytes, (bytes,), held)
                && #[trigger] call_ensures(Reader::buffer, (&held,), b) ==> b@ == bytes@,
        forall|r: &'a mut Reader, out: Result<M>|
            call_ensures(Reader::from_bytes, (bytes,), *r) && #[trigger] call_ensures(
                Reader::read::<'a, M, F>,
                (r, read),
                out,
            ) ==> exists|o: &mut BytesReader, b: &'a [u8]|
                {
                    &&& o@.start == 0
                    &&& o@.end == bytes@.len()
                    &&& b@ == bytes@
                    &&& #[trigger] call_ensures(read, (o, b), out)
                },
{
}

/// A read of a reader leaves the bytes as they are, and the next one goes on where it
/// stopped.
pub proof fn law_reader_goes_on_where_it_stopped<'a, M, F, N, G>(read: F, then_read: G) where
    F: FnOnce(&mut BytesReader, &'a [u8]) -> Result<M>,
    G: FnOnce(&mut BytesReader, &'a [u8]) -> Result<N>,

    ensures
        forall|r: &'a mut Reader, q: &'a mut Reader, out: Result<M>, next: Result<N>|
            {
                &&& *final(r) == *q
                &&& #[trigger] call_ensures(Reader::read::<'a, M, F>, (r, read), out)
                &&& #[trigger] call_ensures(Reader::read::<'a, N, G>, (q, then_read), next)
            } ==> exists|
                o: &mut BytesReader,
                b: &'a [u8],
                p: &mut BytesReader,
                c: &'a [u8],
            |
                {
                    &&& final(o)@ == p@
                    &&& b@ == c@
                    &&& #[trigger] call_ensures(read, (o, b), out)
                    &&& #[trigger] call_ensures(then_read, (p, c), next)
                },
{
}

/// What the inner reader is moved to is where the next read starts.
pub proof fn law_inner_reader_is_the_one_that_reads<'a, M, F>(read: F) where
    F: FnOnce(&mut BytesReader, &'a [u8]) -> Result<M>,

    ensures
        forall|r: &mut Reader, i: &mut BytesReader, q: &'a mut Reader, out: Result<M>|
            {
                &&& *final(r) == *q
                &&& #[trigger] call_ensures(Reader::inner, (r,), i)
                &&& #[trigger] call_ensures(Reader::read::<'a, M, F>, (q, read), out)
            } ==> exists|o: &mut BytesReader, b: &'a [u8]|
                o@ == final(i)@ && #[trigger] call_ensures(read, (o, b), out),
        forall|r: &mut Reader, i: &mut BytesReader, before: &[u8], after: &[u8]|
            {
                &&& #[trigger] call_ensures(Reader::inner, (r,), i)
                &&& #[trigger] call_ensures(Reader::buffer, (&*r,), before)
                &&& #[trigger] call_ensures(Reader::buffer, (&*final(r),), after)
            } ==> before@ == after@,
{
}

} // verus!
