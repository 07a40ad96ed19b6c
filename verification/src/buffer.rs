//! A reader that owns its buffer.
use vstd::prelude::*;

use crate::cursor::Cursor;
use crate::error::{Error, Result};
use crate::field;
use crate::message::MessageRead;
use crate::reader::BytesReader;

verus! {

/// Reads protocol buffer data out of a buffer of its own.
pub struct Reader {
    buffer: Vec<u8>,
    inner: BytesReader,
}

impl Reader {
    /// The bytes in the buffer.
    pub closed spec fn bytes(&self) -> Seq<u8> {
        self.buffer@
    }

    /// Where in the buffer the reader stands.
    pub closed spec fn at(&self) -> Cursor {
        self.inner@
    }

    /// Creates a reader of all of `bytes`.
    pub fn from_bytes(bytes: Vec<u8>) -> (r: Reader)
        ensures
            r.bytes() == bytes@,
            r.at() == (Cursor { start: 0, end: bytes@.len() }),
    {
        let inner: BytesReader = BytesReader::from_bytes(bytes.as_slice());
        Reader { buffer: bytes, inner }
    }

    /// Runs `read` on the inner reader and the buffer. `read` is given away with the
    /// call, so it runs once at most.
    pub fn read<'a, M, F>(&'a mut self, read: F) -> (out: Result<M>) where
        F: FnOnce(&mut BytesReader, &'a [u8]) -> Result<M>,

        requires
            forall|r: &mut BytesReader, b: &'a [u8]|
                r@ == old(self).at() && b@ == old(self).bytes() ==> #[trigger] call_requires(
                    read,
                    (r, b),
                ),
        ensures
            final(self).bytes() == old(self).bytes(),
            exists|r: &mut BytesReader, b: &'a [u8]|
                {
                    &&& r@ == old(self).at()
                    &&& b@ == old(self).bytes()
                    &&& final(r)@ == final(self).at()
                    &&& #[trigger] call_ensures(read, (r, b), out)
                },
    {
        read(&mut self.inner, self.buffer.as_slice())
    }

    /// The inner reader.
    pub fn inner(&mut self) -> (r: &mut BytesReader)
        ensures
            r@ == old(self).at(),
            final(self).at() == final(r)@,
            final(self).bytes() == old(self).bytes(),
    {
        &mut self.inner
    }

    /// The buffer.
    pub fn buffer(&self) -> (b: &[u8])
        ensures
            b@ == self.bytes(),
    {
        self.buffer.as_slice()
    }
}

/// Reads a message out of `bytes`, which start with its length.
pub fn deserialize_from_slice<'a, M: MessageRead<'a>>(bytes: &'a [u8]) -> (out: Result<M>)
    ensures
        match field::body(Cursor { start: 0, end: bytes@.len() }, bytes@).out {
            Ok(body) => exists|r: &mut BytesReader|
                r@ == body && #[trigger] call_ensures(M::from_reader, (r, bytes), out),
            Err(error) => out == Err::<M, Error>(error),
        },
{
    let mut reader: BytesReader = BytesReader::from_bytes(bytes);
    reader.read_message::<M>(bytes)
}

} // verus!
