//! Positions in a buffer, and what one read does to them.
use vstd::prelude::*;

use crate::error::{Error, Result};

verus! {

/// Where a reader stands: the position of the next byte, and the position
/// behind the last byte that belongs to it.
pub struct Cursor {
    pub start: nat,
    pub end: nat,
}

impl Cursor {
    /// The bytes that are left to read.
    pub open spec fn window(self, bytes: Seq<u8>) -> Seq<u8> {
        if self.start <= self.end <= bytes.len() {
            bytes.subrange(self.start as int, self.end as int)
        } else {
            Seq::empty()
        }
    }

    /// The bytes that are left to read as far as `bytes` has them: the window,
    /// unless the cursor ends behind `bytes`.
    pub open spec fn reach(self, bytes: Seq<u8>) -> Seq<u8> {
        let end = if self.end <= bytes.len() {
            self.end
        } else {
            bytes.len()
        };
        Cursor { start: self.start, end }.window(bytes)
    }

    /// Whether the cursor lies within `bytes`, with its position at or before its
    /// end.
    pub open spec fn within(self, bytes: Seq<u8>) -> bool {
        self.start <= self.end <= bytes.len()
    }

    /// Whether `to` is this cursor or lies further on: with the same end, and with
    /// a position that has not gone down and has not passed the end.
    pub open spec fn moves_to(self, to: Cursor) -> bool {
        &&& to.end == self.end
        &&& self.start <= to.start <= to.end
    }

    /// The cursor `n` bytes further on.
    pub open spec fn advance(self, n: nat) -> Cursor {
        Cursor { start: self.start + n, end: self.end }
    }
}

/// The outcome of decoding the front of a byte sequence: what comes out, and
/// how many bytes have been consumed by then.
pub struct Step<T> {
    pub out: Result<T>,
    pub used: nat,
}

impl<T> Step<T> {
    /// A step that yields `value`.
    pub open spec fn ok(value: T, used: nat) -> Step<T> {
        Step { out: Ok(value), used }
    }

    /// A step that fails with `error`.
    pub open spec fn err(error: Error, used: nat) -> Step<T> {
        Step { out: Err(error), used }
    }

    /// Whether a read that found the cursor at `before`, left it at `after` and
    /// gave `out` did what the step says.
    pub open spec fn done(self, before: Cursor, after: Cursor, out: Result<T>) -> bool {
        &&& out == self.out
        &&& after == before.advance(self.used)
    }

    /// The same step with `f` applied to the value it yields.
    pub open spec fn map<U>(self, f: spec_fn(T) -> U) -> Step<U> {
        match self.out {
            Ok(value) => Step::ok(f(value), self.used),
            Err(error) => Step::err(error, self.used),
        }
    }
}

/// Reads one byte.
pub open spec fn byte(s: Seq<u8>) -> Step<u8> {
    if s.len() == 0 {
        Step::err(Error::UnexpectedEndOfBuffer, 0)
    } else {
        Step::ok(s[0], 1)
    }
}

/// Moving on by `n` bytes leaves the rest of the window.
pub proof fn lemma_window_advance(c: Cursor, bytes: Seq<u8>, n: nat)
    requires
        n <= c.window(bytes).len(),
    ensures
        c.advance(n).window(bytes) == c.window(bytes).skip(n as int),
{
    assert(c.advance(n).window(bytes) =~= c.window(bytes).skip(n as int));
}

} // verus!
