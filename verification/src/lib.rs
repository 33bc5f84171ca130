//! A codec for the External Data Representation (XDR): big-endian,
//! word-aligned encodings of integers, booleans, strings, opaque byte blocks
//! and counted sequences, with a writer that appends to a buffer and a reader
//! that walks one with a cursor.
//!
//! The format is stated over sequences of bytes, and the executable code is
//! proved against that statement.

pub mod byte_order;
pub mod scalar;
pub mod sequence;
pub mod text;
pub mod wire;
pub mod xdr;
