//! The table file's layout: page 0 is the header page, whose first four
//! bytes hold the total page count (the header page included); the data
//! pages follow in the slotted format.

use vstd::prelude::*;
use vstd::bytes::spec_u32_to_le_bytes;
use crate::layout::{le32_at, seq_write, write_u32_at, zero_bytes};
use crate::page::{fresh_page, init_page, lemma_fresh_page, Page, PAGE_SIZE};

verus! {

/// The header region of a table file is one full page.
pub const TABLE_HEADER_SIZE: u32 = 8192;

/// A table's raw header buffer.
pub struct Table {
    pub data: Vec<u8>,
}

/// The decoded table header: the total number of pages in the table,
/// the header page included.
pub struct TableHeader {
    pub page_count: u32,
}

impl Table {
    /// A zero-filled header buffer.
    pub fn new() -> (r: Table)
        ensures
            r.data@ == Seq::new(TABLE_HEADER_SIZE as nat, |i: int| 0u8),
    {
        Table { data: zero_bytes(TABLE_HEADER_SIZE as usize) }
    }
}

/// The byte image of a freshly initialized table file: a header page whose
/// page count is 2, followed by one fresh data page.
pub open spec fn spec_init_table_image() -> Seq<u8> {
    seq_write(Seq::new(PAGE_SIZE as nat, |i: int| 0u8), 0, spec_u32_to_le_bytes(2)) + fresh_page()
}

/// Builds the byte image a new table file starts from: the header page
/// counting itself and one data page, and that one initialized data page.
pub fn init_table_image() -> (r: Vec<u8>)
    ensures
        r@ == spec_init_table_image(),
        r@.len() == 2 * PAGE_SIZE,
        le32_at(r@, 0) == 2,
{
    let mut out = zero_bytes(PAGE_SIZE);
    write_u32_at(&mut out, 0, 2);
    let ghost header = out@;
    let mut page = Page::new();
    init_page(&mut page);
    proof {
        lemma_fresh_page();
        assert(page@ =~= fresh_page());
    }
    let mut j: usize = 0;
    while j < PAGE_SIZE
        invariant
            j <= PAGE_SIZE,
            page.wf(),
            page@ == fresh_page(),
            out@ == header + page@.subrange(0, j as int),
            header.len() == PAGE_SIZE,
        decreases PAGE_SIZE - j,
    {
        out.push(page.data[j]);
        proof {
            assert(out@ =~= header + page@.subrange(0, j + 1));
        }
        j += 1;
    }
    proof {
        assert(page@.subrange(0, PAGE_SIZE as int) =~= page@);
        assert(out@ =~= spec_init_table_image());
        crate::layout::lemma_seq_write_le32(Seq::new(PAGE_SIZE as nat, |i: int| 0u8), 0, 2);
        assert(out@.subrange(0, 4) =~= spec_init_table_image().subrange(0, 4));
        assert(spec_init_table_image().subrange(0, 4) =~= seq_write(
            Seq::new(PAGE_SIZE as nat, |i: int| 0u8),
            0,
            spec_u32_to_le_bytes(2),
        ).subrange(0, 4));
    }
    out
}

} // verus!
