//! Tuple-level bookkeeping types.
//!
//! These describe the per-tuple header a richer, variable-width tuple
//! layout would store in front of each payload. The fixed-width codec does
//! not need them yet: every tuple's shape follows from the schema alone.

use vstd::prelude::*;

verus! {

/// The bookkeeping a self-describing tuple would carry: its total encoded
/// length, its attribute count, the size of its null bitmap, and a flag
/// word.
pub struct TupleHeader {
    pub total_len: u32,
    pub attr_count: u32,
    pub nullmap_bytes: u32,
    pub flags: bool,
}

/// A tuple identified within its table.
pub struct Tuple {
    pub header: TupleHeader,
    pub id: u32,
}

} // verus!
