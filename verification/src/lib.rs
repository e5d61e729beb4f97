//! Value model, collation order, record codec, and cursor interface of an
//! embedded relational storage engine whose on-disk record layout is
//! binary-compatible with a widely deployed database file format.
//!
//! Floating-point payloads are carried as their IEEE 754 binary64 bit
//! patterns (`u64`), which is the form the codec stores and the collation
//! order inspects; helpers that need native float arithmetic live outside
//! this verified core.
use vstd::prelude::*;

pub mod arith;
pub mod cursor;
pub mod order;
pub mod record;
pub mod value;
pub mod varint;

verus! {

/// A recoverable failure of this library.
#[derive(Debug, Clone, PartialEq, Eq)]
pub enum LimboError {
    /// A typed projection from a value found a different tag than requested.
    ConversionError(String),
    /// A condition the implementation does not support yet: a record header
    /// longer than its single-byte length varint can describe.
    NotSupported,
}

} // verus!
