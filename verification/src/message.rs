//! Messages that can be read.
use vstd::prelude::*;

use crate::error::Result;
use crate::reader::BytesReader;

verus! {

/// A message that can be read out of a byte slice.
pub trait MessageRead<'a>: Sized {
    /// Reads the message that makes up what is left of `r`.
    fn from_reader(r: &mut BytesReader, bytes: &'a [u8]) -> (out: Result<Self>)
        requires
            old(r)@.start <= old(r)@.end <= bytes@.len(),
    ;
}

} // verus!
