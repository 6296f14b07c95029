//! The extent allocator's persistent bookkeeping and page search.
//!
//! The table file's header page stores two running counters in its first
//! eight bytes: `total_pages` in bytes `[0, 4)` and `total_extents` in bytes
//! `[4, 8)`, both little-endian `u32`. To amortize file growth, a page for
//! an insert is looked for in the most recently allocated extent only;
//! earlier extents are never rescanned, consistent with the append-only,
//! no-delete model.

use vstd::prelude::*;
use vstd::bytes::spec_u32_to_le_bytes;
use crate::buffer::{extend_fresh, BufferManager, EXTENT_SIZE};
use crate::layout::{le32_at, read_u32_at, seq_write, write_u32_at};
use crate::page::{header_ok, page_free, page_free_space, Page, PAGE_HEADER_SIZE, PAGE_SIZE};
use crate::StorageError;

verus! {

/// Reads `total_pages` from a header page.
pub fn read_total_pages(header: &Page) -> (r: u32)
    requires
        header.wf(),
    ensures
        r == le32_at(header@, 0),
{
    read_u32_at(&header.data, 0)
}

/// Reads `total_extents` from a header page.
pub fn read_total_extents(header: &Page) -> (r: u32)
    requires
        header.wf(),
    ensures
        r == le32_at(header@, 4),
{
    read_u32_at(&header.data, 4)
}

/// Writes `total_pages` into a header page.
pub fn write_total_pages(header: &mut Page, value: u32)
    requires
        old(header).wf(),
    ensures
        final(header).wf(),
        final(header)@ == seq_write(old(header)@, 0, spec_u32_to_le_bytes(value)),
{
    write_u32_at(&mut header.data, 0, value);
}

/// Writes `total_extents` into a header page.
pub fn write_total_extents(header: &mut Page, value: u32)
    requires
        old(header).wf(),
    ensures
        final(header).wf(),
        final(header)@ == seq_write(old(header)@, 4, spec_u32_to_le_bytes(value)),
{
    write_u32_at(&mut header.data, 4, value);
}

/// Start of the most recent extent among `len - 1` data pages: data extents
/// begin at page 1 and hold 16 pages each.
pub open spec fn spec_last_extent_start(len: int) -> int {
    1 + (EXTENT_SIZE as int) * ((len - 2) / (EXTENT_SIZE as int))
}

/// End (exclusive) of the pages of the most recent extent that are present.
pub open spec fn spec_last_extent_end(len: int) -> int {
    if len < spec_last_extent_start(len) + EXTENT_SIZE {
        len
    } else {
        spec_last_extent_start(len) + EXTENT_SIZE
    }
}

/// Finds a page with at least `required` free bytes for an insert.
///
/// When no extent exists yet, the first one is allocated and its first page
/// returned. Otherwise only the most recently allocated extent is scanned,
/// first fit; when every page there is too full, a new extent is allocated
/// and its first page returned. A corrupt page in the scanned extent is
/// surfaced as `Corruption`, with the buffer unchanged.
pub fn find_page_for_insert(bm: &mut BufferManager, required: u32) -> (r: Result<
    usize,
    StorageError,
>)
    requires
        old(bm).wf(),
        required <= PAGE_SIZE - PAGE_HEADER_SIZE,
    ensures
        final(bm).wf(),
        ({
            let len = old(bm)@.len() as int;
            let s = spec_last_extent_start(len);
            let e = spec_last_extent_end(len);
            match r {
                Ok(p) => {
                    ||| (len <= 1 && p == 1 && final(bm)@ == extend_fresh(
                        old(bm)@,
                        EXTENT_SIZE as int,
                    ))
                    ||| (len > 1 && s <= p < e && header_ok(old(bm)@[p as int]) && page_free(
                        old(bm)@[p as int],
                    ) >= required && (forall|v: int|
                        s <= v < p ==> header_ok(#[trigger] old(bm)@[v]) && page_free(old(bm)@[v])
                            < required) && final(bm)@ == old(bm)@)
                    ||| (len > 1 && (forall|v: int|
                        s <= v < e ==> header_ok(#[trigger] old(bm)@[v]) && page_free(old(bm)@[v])
                            < required) && p == len && final(bm)@ == extend_fresh(
                        old(bm)@,
                        EXTENT_SIZE as int,
                    ))
                },
                Err(err) => {
                    &&& err == StorageError::Corruption
                    &&& final(bm)@ == old(bm)@
                    &&& len > 1
                    &&& exists|j: int|
                        s <= j < e && !header_ok(#[trigger] old(bm)@[j]) && (forall|v: int|
                            s <= v < j ==> header_ok(#[trigger] old(bm)@[v]) && page_free(
                                old(bm)@[v],
                            ) < required)
                },
            }
        }),
{
    let len = bm.pages.len();
    proof {
        assert(bm@.len() == bm.pages@.len());
    }
    if len <= 1 {
        bm.allocate_extent();
        return Ok(1);
    }
    let s = 1 + EXTENT_SIZE * ((len - 2) / EXTENT_SIZE);
    let e = if len - s < EXTENT_SIZE {
        len
    } else {
        s + EXTENT_SIZE
    };
    proof {
        assert(s == spec_last_extent_start(len as int));
        assert(e == spec_last_extent_end(len as int));
        assert(s < len) by (nonlinear_arith)
            requires
                len >= 2,
                s == 1 + (EXTENT_SIZE as int) * ((len - 2) as int / (EXTENT_SIZE as int)),
                EXTENT_SIZE == 16,
        ;
    }
    let mut p = s;
    while p < e
        invariant
            s <= p <= e,
            e <= bm.pages.len(),
            bm.wf(),
            bm@ == old(bm)@,
            len == bm.pages.len(),
            len == old(bm)@.len(),
            len > 1,
            s == spec_last_extent_start(len as int),
            e == spec_last_extent_end(len as int),
            bm@.len() == bm.pages@.len(),
            forall|v: int|
                s <= v < p ==> header_ok(#[trigger] bm@[v]) && page_free(bm@[v]) < required,
        decreases e - p,
    {
        proof {
            assert(bm@[p as int] == bm.pages@[p as int]@);
        }
        let free = match page_free_space(&bm.pages[p]) {
            Ok(f) => f,
            Err(err) => {
                proof {
                    assert(!header_ok(old(bm)@[p as int]));
                }
                return Err(err);
            },
        };
        if required <= free {
            return Ok(p);
        }
        p += 1;
    }
    bm.allocate_extent();
    Ok(len)
}

} // verus!
