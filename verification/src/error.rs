//! What can go wrong while reading.
use vstd::prelude::*;
use vstd::string::StringSliceAdditionalSpecFns;

verus! {

/// `core::str::Utf8Error`, carried from the UTF-8 check to the caller as it is.
#[verifier::external_type_specification]
#[verifier::external_body]
pub struct ExUtf8Error(core::str::Utf8Error);

/// What is wrong with `bytes` as UTF-8: the error that `core::str::from_utf8`
/// gives for them.
pub uninterp spec fn utf8_error(bytes: Seq<u8>) -> core::str::Utf8Error;

/// `core::str::from_utf8` succeeds on valid UTF-8 and on nothing else. The
/// string it gives then has the same bytes; the error it gives otherwise depends
/// on the bytes alone.
pub assume_specification [core::str::from_utf8] (v: &[u8]) -> (out: core::result::Result<
    &str,
    core::str::Utf8Error,
>)
    ensures
        match out {
            Ok(s) => vstd::utf8::valid_utf8(v@) && s.spec_bytes() == v@,
            Err(e) => !vstd::utf8::valid_utf8(v@) && e == utf8_error(v@),
        },
;

/// An error met while reading protocol buffer data.
#[derive(Debug)]
pub enum Error {
    /// A string field does not hold UTF-8.
    Utf8(core::str::Utf8Error),
    /// A feature of the wire format that is no longer supported.
    Deprecated(&'static str),
    /// A tag carries a wire type that the format does not define.
    UnknownWireType(u8),
    /// A varint that does not end within ten bytes, or a length that does not
    /// fit what is left to read.
    Varint,
    /// A map entry holds a field that is neither the key nor the value.
    MapField(u8),
    /// The data ends before the value does.
    UnexpectedEndOfBuffer,
}

/// The result of a read.
pub type Result<T> = core::result::Result<T, Error>;

} // verus!
