//! A minimal heap-file storage engine: fixed-size slotted pages, an
//! extent-based allocator, an in-memory buffer manager, and a schema-driven
//! fixed-width tuple codec.
//!
//! The library itself performs no I/O: pages, table files and CSV input are
//! handled as byte sequences, so that every algorithm can carry a full
//! functional contract. A thin front end is expected to read and write the
//! actual files.

use vstd::prelude::*;

pub mod buffer;
pub mod catalog;
pub mod codec;
pub mod csv;
pub mod extent;
pub mod layout;
pub mod page;
pub mod table;
pub mod tuple;

verus! {

/// The error kinds the engine distinguishes.
///
/// `Corruption` reports page header offsets outside `[8, PAGE_SIZE]`;
/// `InsufficientSpace` is the page-level "does not fit" signal, absorbed by
/// the buffer manager during bulk load and never user-visible there.
#[derive(Clone, Copy, Debug, PartialEq, Eq, Structural)]
pub enum StorageError {
    NotFound,
    InvalidSchema,
    InvalidData,
    IOError,
    Corruption,
    InsufficientSpace,
}

} // verus!
