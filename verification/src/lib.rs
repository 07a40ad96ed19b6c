//! Reading protocol buffer data, with every read specified and proved.
//!
//! There are two readers:
//! - a [`BytesReader`], a cursor that parses data out of a `&[u8]`;
//! - a [`Reader`], which owns its buffer and hands a `BytesReader` over it to
//!   the functions that parse.
//!
//! What the bytes mean is stated by specification functions over sequences of
//! bytes: [`varint`] for base-128 integers, [`little_endian`] for fixed-width
//! ones, [`field`] for length-delimited fields.
//!
//! What holds of all reads is stated as laws. Those in [`laws`] go by the
//! specification functions. Those in [`meaning`], [`field_meaning`],
//! [`series_meaning`], [`packed_laws`] and [`written`] are about the calls themselves,
//! in the bytes that they find and the results that they give.
pub mod batch;
pub mod branchless;
pub mod buffer;
pub mod cursor;
pub mod encode;
pub mod entry;
pub mod error;
pub mod field;
pub mod field_meaning;
pub mod fixed_width;
pub mod laws;
pub mod little_endian;
pub mod meaning;
pub mod message;
pub mod packed;
pub mod packed_laws;
pub mod reader;
pub mod repeated;
pub mod scalar;
pub mod series_meaning;
pub mod varint;
pub mod written;

pub use crate::buffer::{deserialize_from_slice, Reader};
pub use crate::error::{Error, Result};
pub use crate::message::MessageRead;
pub use crate::packed::{PackedFixed, PackedFixedIntoIter, PackedFixedRefIter};
pub use crate::reader::BytesReader;
