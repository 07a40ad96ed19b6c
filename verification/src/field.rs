//! Length-delimited fields.
use vstd::prelude::*;

use crate::cursor::{Cursor, Step};
use crate::error::Error;
use crate::varint;

verus! {

/// A varint.
pub const WIRE_TYPE_VARINT: u8 = 0;

/// Eight bytes.
pub const WIRE_TYPE_FIXED64: u8 = 1;

/// A length, and then that many bytes.
pub const WIRE_TYPE_LENGTH_DELIMITED: u8 = 2;

/// The start of a group, which is deprecated.
pub const WIRE_TYPE_START_GROUP: u8 = 3;

/// The end of a group, which is deprecated.
pub const WIRE_TYPE_END_GROUP: u8 = 4;

/// Four bytes.
pub const WIRE_TYPE_FIXED32: u8 = 5;

/// Reads the length prefix of a field and gives the cursor over its body.
///
/// The step takes the prefix only. A body that does not fit what is left is cut
/// short.
pub open spec fn body(c: Cursor, bytes: Seq<u8>) -> Step<Cursor> {
    let prefix = varint::varint32(c.window(bytes));
    match prefix.out {
        Ok(len) => {
            let start = c.start + prefix.used;
            if start + len <= c.end {
                Step::ok(Cursor { start, end: start + len as nat }, prefix.used)
            } else {
                Step::err(Error::UnexpectedEndOfBuffer, prefix.used)
            }
        },
        Err(error) => Step::err(error, prefix.used),
    }
}

/// Skips `n` bytes.
pub open spec fn skip(s: Seq<u8>, n: nat) -> Step<()> {
    if s.len() < n {
        Step::err(Error::Varint, 0)
    } else {
        Step::ok((), n)
    }
}

/// Skips the field whose tag is `tag`, going by the wire type in its low three
/// bits.
pub open spec fn unknown(s: Seq<u8>, tag: u32) -> Step<()> {
    let wire_type = (tag % 8) as u8;
    if wire_type == WIRE_TYPE_VARINT {
        varint::varint64(s).map(|v: u64| ())
    } else if wire_type == WIRE_TYPE_FIXED64 {
        skip(s, 8)
    } else if wire_type == WIRE_TYPE_FIXED32 {
        skip(s, 4)
    } else if wire_type == WIRE_TYPE_LENGTH_DELIMITED {
        let prefix = varint::varint64(s);
        match prefix.out {
            Ok(len) => if prefix.used + len <= s.len() {
                Step::ok((), prefix.used + len as nat)
            } else {
                Step::err(Error::Varint, prefix.used)
            },
            Err(error) => Step::err(error, prefix.used),
        }
    } else if wire_type == WIRE_TYPE_START_GROUP || wire_type == WIRE_TYPE_END_GROUP {
        Step::err(Error::Deprecated("group"), 0)
    } else {
        Step::err(Error::UnknownWireType(wire_type), 0)
    }
}

/// The cursor over the first `len` bytes.
pub open spec fn front(c: Cursor, len: nat) -> Cursor {
    Cursor { start: c.start, end: c.start + len }
}

/// The cursor behind a field whose body is `body`.
pub open spec fn behind(c: Cursor, body: Cursor) -> Cursor {
    Cursor { start: body.end, end: c.end }
}

/// A body lies within what was left, behind its prefix.
pub proof fn lemma_body(c: Cursor, bytes: Seq<u8>)
    ensures
        body(c, bytes).used <= c.window(bytes).len(),
        body(c, bytes).out matches Ok(b) ==> c.start < b.start <= b.end <= c.end <= bytes.len(),
{
    varint::lemma_run(c.window(bytes));
}

} // verus!
