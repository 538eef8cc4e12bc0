//! A read-only, memory-mapped index that stores, per 32-bit identifier, a
//! sorted sequence of half-open intervals, and answers containment,
//! intersection, set-difference and aggregate-length queries against them.
//!
//! The on-disk format is a flat sequence of records, little-endian
//! throughout: an identifier, an interval count, and that many entries of
//! start, end and (for the list store) a fixed-width payload. One sequential
//! scan at load time partitions the bytes into record spans and validates
//! that they consume the file exactly; queries then perform bounded,
//! localized reads against the still-mapped bytes.

pub mod common;
pub mod intervals;
pub mod ilistmap;
pub mod isetmap;

use vstd::prelude::*;

verus! {

/// Errors surfaced by the interval stores.
#[derive(Clone, Copy, Debug, PartialEq, Eq, Structural)]
pub enum StoreError {
    /// The backing bytes do not describe a well-formed store.
    Format,
    /// A queried identifier is absent from the offset index.
    NotFound,
    /// An explicit interval index is out of range for the record.
    OutOfRange,
}

} // verus!
