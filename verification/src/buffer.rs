//! The buffer manager: a table's in-memory page sequence.
//!
//! Index 0 mirrors the table file's header page, indices 1 and up its data
//! pages. The buffer grows by whole extents of 16 fresh pages. Bulk loading
//! keeps a current data-page index that only moves forward: when a tuple
//! does not fit, the index advances, a new extent is allocated whenever the
//! index crosses a 16-page boundary, and earlier pages are never rescanned.

use vstd::prelude::*;
use vstd::bytes::spec_u32_to_le_bytes;
use crate::catalog::{spec_lookup, Catalog, Column};
use crate::codec::{encode_row, spec_encode_row};
use crate::csv::{is_blank_line, spec_fields, spec_is_blank, spec_lines, split_fields, split_lines};
use crate::layout::{seq_write, write_u32_at};
use crate::page::{
    fresh_page, header_ok, init_page, lemma_fresh_page, page_free, page_free_space, page_insert,
    slot_count, spec_page_insert, Page, ITEM_ID_SIZE, PAGE_HEADER_SIZE, PAGE_SIZE,
};
use crate::StorageError;

verus! {

/// Number of data pages allocated together.
pub const EXTENT_SIZE: usize = 16;

/// A table's in-memory page sequence: index 0 is the header page.
pub struct BufferManager {
    pub pages: Vec<Page>,
}

impl View for BufferManager {
    type V = Seq<Seq<u8>>;

    open spec fn view(&self) -> Seq<Seq<u8>> {
        self.pages@.map_values(|p: Page| p@)
    }
}

/// `count` fresh pages appended to `pages`.
pub open spec fn extend_fresh(pages: Seq<Seq<u8>>, count: int) -> Seq<Seq<u8>> {
    pages + Seq::new(count as nat, |i: int| fresh_page())
}

/// Appending fresh pages twice is appending them once.
pub proof fn lemma_extend_fresh_twice(pages: Seq<Seq<u8>>, a: int, b: int)
    requires
        a >= 0,
        b >= 0,
    ensures
        extend_fresh(extend_fresh(pages, a), b) == extend_fresh(pages, a + b),
{
    assert(extend_fresh(extend_fresh(pages, a), b) =~= extend_fresh(pages, a + b));
}

/// Where a first-fit scan for `required` free bytes, starting at page `j`,
/// first stops: at a corrupt page, at a page with room, or past the end of
/// the present pages (where a fresh page would take the tuple).
pub enum ScanHit {
    Corrupt(int),
    Fits(int),
    Fresh,
}

/// First-fit scan of `pages[j..]` for `required` bytes of free space.
pub open spec fn spec_scan(pages: Seq<Seq<u8>>, j: int, required: int) -> ScanHit
    decreases pages.len() - j,
{
    if j < 0 || j >= pages.len() {
        ScanHit::Fresh
    } else if !header_ok(pages[j]) {
        ScanHit::Corrupt(j)
    } else if required <= page_free(pages[j]) {
        ScanHit::Fits(j)
    } else {
        spec_scan(pages, j + 1, required)
    }
}

/// How many 16-page boundaries an index crosses moving from `start`
/// (exclusive) to `end` (inclusive): the indices `v` in that range with
/// `(v - 1) % 16 == 0`, each of which triggers an extent allocation.
pub open spec fn spec_crossings(start: int, end: int) -> int
    decreases end - start,
{
    if end <= start {
        0
    } else {
        spec_crossings(start, end - 1) + if (end - 1) % (EXTENT_SIZE as int) == 0 {
            1int
        } else {
            0int
        }
    }
}

pub proof fn lemma_crossings_nonneg(start: int, end: int)
    ensures
        spec_crossings(start, end) >= 0,
    decreases end - start,
{
    if end > start {
        lemma_crossings_nonneg(start, end - 1);
    }
}

/// A scan over pages that are all sound and all too full runs off the end.
pub proof fn lemma_scan_all_full(pages: Seq<Seq<u8>>, j: int, required: int)
    requires
        0 <= j <= pages.len(),
        forall|v: int|
            j <= v < pages.len() ==> header_ok(#[trigger] pages[v]) && page_free(pages[v])
                < required,
    ensures
        spec_scan(pages, j, required) is Fresh,
    decreases pages.len() - j,
{
    if j < pages.len() {
        lemma_scan_all_full(pages, j + 1, required);
    }
}

/// A range containing no index of the form `1 + 16 m` crosses no extent
/// boundary.
pub proof fn lemma_crossings_zero(start: int, end: int)
    requires
        forall|v: int| start < v <= end ==> #[trigger] ((v - 1) % (EXTENT_SIZE as int)) != 0,
    ensures
        spec_crossings(start, end) == 0,
    decreases end - start,
{
    if end > start {
        lemma_crossings_zero(start, end - 1);
    }
}

/// Extent boundary: with data pages 1 through 16 present, sound and too
/// full, one more row crosses into a new extent — exactly 16 fresh pages
/// are allocated and the row lands on page 17, the first page of the new
/// extent. The page count thus grows by exactly one extent.
pub proof fn lemma_extent_boundary(pages: Seq<Seq<u8>>, start: int, required: int)
    requires
        pages.len() == 1 + EXTENT_SIZE,
        1 <= start <= EXTENT_SIZE,
        0 < required,
        forall|j: int|
            start <= j < pages.len() ==> header_ok(#[trigger] pages[j]) && page_free(pages[j])
                < required,
    ensures
        spec_scan(pages, start, required) is Fresh,
        spec_place_index(pages, start, required) == 1 + EXTENT_SIZE,
        spec_place_alloc_count(pages, start, required) == 1,
{
    lemma_scan_all_full(pages, start, required);
    assert(spec_crossings(start, 16) == 0) by {
        lemma_crossings_zero(start, 16);
    }
    assert(spec_crossings(start, 17) == 1);
}

/// Extents allocated while placing a tuple that needs `required` bytes,
/// scanning forward from `start`: one per boundary crossed on the way to the
/// page that takes it, and one when the scan runs off the end without any
/// crossing.
pub open spec fn spec_place_alloc_count(pages: Seq<Seq<u8>>, start: int, required: int) -> int {
    match spec_scan(pages, start, required) {
        ScanHit::Corrupt(j) => spec_crossings(start, j),
        ScanHit::Fits(j) => spec_crossings(start, j),
        ScanHit::Fresh => {
            let c = spec_crossings(start, pages.len() as int);
            if c == 0 {
                1
            } else {
                c
            }
        },
    }
}

/// The page index a placed tuple lands on: the first page from `start` with
/// room, or the first freshly allocated page.
pub open spec fn spec_place_index(pages: Seq<Seq<u8>>, start: int, required: int) -> int {
    match spec_scan(pages, start, required) {
        ScanHit::Corrupt(j) => j,
        ScanHit::Fits(j) => j,
        ScanHit::Fresh => pages.len() as int,
    }
}

/// What the scan outcome means, page by page: the hit is the first page at
/// or after `start` that is corrupt or has room, and every page passed over
/// on the way was sound and too full.
pub proof fn lemma_scan_first_fit(pages: Seq<Seq<u8>>, start: int, required: int)
    requires
        0 <= start <= pages.len(),
    ensures
        match spec_scan(pages, start, required) {
            ScanHit::Corrupt(j) => start <= j < pages.len() && !header_ok(pages[j]) && forall|
                v: int,
            |
                start <= v < j ==> header_ok(#[trigger] pages[v]) && page_free(pages[v])
                    < required,
            ScanHit::Fits(j) => start <= j < pages.len() && header_ok(pages[j]) && page_free(
                pages[j],
            ) >= required && forall|v: int|
                start <= v < j ==> header_ok(#[trigger] pages[v]) && page_free(pages[v])
                    < required,
            ScanHit::Fresh => forall|v: int|
                start <= v < pages.len() ==> header_ok(#[trigger] pages[v]) && page_free(pages[v])
                    < required,
        },
    decreases pages.len() - start,
{
    if start < pages.len() {
        if header_ok(pages[start]) && page_free(pages[start]) < required {
            lemma_scan_first_fit(pages, start + 1, required);
        }
    }
}

impl BufferManager {
    /// Every page buffer has the full page size, and the header page is
    /// present.
    pub open spec fn wf(&self) -> bool {
        &&& self.pages.len() >= 1
        &&& forall|i: int| 0 <= i < self.pages.len() ==> (#[trigger] self.pages[i]).wf()
    }

    /// A buffer manager holding only an initialized header page.
    pub fn new() -> (r: BufferManager)
        ensures
            r.wf(),
            r@.len() == 1,
            r@[0] == fresh_page(),
    {
        let mut header = Page::new();
        init_page(&mut header);
        proof {
            lemma_fresh_page();
            assert(header@ =~= fresh_page());
        }
        let mut pages = Vec::new();
        pages.push(header);
        let r = BufferManager { pages };
        proof {
            assert(r@ =~= seq![fresh_page()]);
        }
        r
    }

    /// Appends one full extent: 16 freshly initialized data pages.
    pub fn allocate_extent(&mut self)
        requires
            old(self).wf(),
        ensures
            final(self).wf(),
            final(self)@ =~= extend_fresh(old(self)@, EXTENT_SIZE as int),
    {
        let mut n: usize = 0;
        while n < EXTENT_SIZE
            invariant
                n <= EXTENT_SIZE,
                self.wf(),
                self@ =~= extend_fresh(old(self)@, n as int),
            decreases EXTENT_SIZE - n,
        {
            let mut page = Page::new();
            init_page(&mut page);
            proof {
                lemma_fresh_page();
                assert(page@ =~= fresh_page());
            }
            let ghost prev = self.pages@;
            let ghost prev_view = self@;
            let ghost pv = page@;
            proof {
                assert(prev_view.len() == prev.len());
                assert(prev_view.len() == old(self)@.len() + n);
            }
            self.pages.push(page);
            proof {
                assert(self.pages@ == prev.push(page));
                assert(self@.len() == self.pages@.len());
                assert(prev.len() == old(self)@.len() + n);
                assert forall|i: int| 0 <= i < self@.len() implies self@[i] == extend_fresh(
                    old(self)@,
                    n + 1,
                )[i] by {
                    assert(self@[i] == self.pages@[i]@);
                    if i < prev.len() {
                        assert(self.pages@[i] == prev[i]);
                        assert(extend_fresh(old(self)@, n as int)[i] == prev[i]@);
                    } else {
                        assert(self.pages@[i]@ == pv);
                    }
                }
                assert(self@ =~= extend_fresh(old(self)@, n + 1));
            }
            n += 1;
        }
    }

    /// Places one tuple, scanning forward from data page `start`.
    ///
    /// Walks the pages from `start`, first fit; when a page has no room the
    /// index advances, allocating a new extent at every 16-page boundary it
    /// crosses; when the walk runs off the present pages the tuple lands on
    /// a fresh page. Returns the page index the tuple landed on and its new
    /// slot index. The only error is `Corruption`, from a page with an
    /// unsound header met during the scan; extents allocated before that
    /// point remain.
    pub fn place_tuple(&mut self, start: usize, tuple: &[u8]) -> (r: Result<
        (usize, u32),
        StorageError,
    >)
        requires
            old(self).wf(),
            1 <= start <= old(self)@.len(),
            tuple@.len() + ITEM_ID_SIZE <= PAGE_SIZE - PAGE_HEADER_SIZE,
        ensures
            final(self).wf(),
            ({
                let req = tuple@.len() + ITEM_ID_SIZE;
                let k = spec_place_alloc_count(old(self)@, start as int, req as int);
                let ext = extend_fresh(old(self)@, (EXTENT_SIZE * k) as int);
                let j = spec_place_index(old(self)@, start as int, req as int);
                match r {
                    Ok((idx, slot)) => {
                        &&& !(spec_scan(old(self)@, start as int, req as int) is Corrupt)
                        &&& idx == j
                        &&& slot == slot_count(ext[j])
                        &&& header_ok(ext[j])
                        &&& req <= page_free(ext[j])
                        &&& final(self)@ =~= ext.update(j, spec_page_insert(ext[j], tuple@))
                    },
                    Err(e) => {
                        &&& e == StorageError::Corruption
                        &&& spec_scan(old(self)@, start as int, req as int) is Corrupt
                        &&& final(self)@ =~= ext
                    },
                }
            }),
    {
        let required: u32 = tuple.len() as u32 + ITEM_ID_SIZE;
        let ghost orig = old(self)@;
        let ghost orig_len = old(self)@.len() as int;
        let ghost req = required as int;
        let mut idx = start;
        let ghost mut allocs: int = 0;
        let ghost mut topped: int = 0;
        proof {
            lemma_crossings_nonneg(start as int, idx as int);
        }
        loop
            invariant
                self.wf(),
                orig == old(self)@,
                1 <= start <= idx <= orig_len,
                orig_len == orig.len(),
                orig.len() >= 1,
                req == tuple@.len() + ITEM_ID_SIZE,
                required as int == req,
                req <= PAGE_SIZE - PAGE_HEADER_SIZE,
                allocs >= 0,
                self@ =~= extend_fresh(orig, (EXTENT_SIZE as int) * allocs),
                allocs == spec_crossings(start as int, idx as int) + topped,
                0 <= topped <= 1,
                topped == 1 ==> idx == orig_len && spec_crossings(start as int, idx as int) == 0,
                spec_scan(orig, start as int, req) == spec_scan(orig, idx as int, req),
            ensures
                self.wf(),
                idx == spec_place_index(orig, start as int, req),
                !(spec_scan(orig, start as int, req) is Corrupt),
                (EXTENT_SIZE as int) * spec_place_alloc_count(orig, start as int, req)
                    == self@.len() - orig.len(),
                self@ =~= extend_fresh(
                    orig,
                    (EXTENT_SIZE as int) * spec_place_alloc_count(orig, start as int, req),
                ),
                idx < self@.len(),
                header_ok(self@[idx as int]),
                req <= page_free(self@[idx as int]),
            decreases (orig_len - idx) * 2 + (if idx >= self.pages.len() {
                1int
            } else {
                0int
            }),
        {
            if idx >= self.pages.len() {
                proof {
                    // only possible before any allocation, at the end of the
                    // original pages
                    assert((EXTENT_SIZE as int) * allocs >= 0 ==> self@.len() >= orig.len()) by {
                        lemma_crossings_nonneg(start as int, idx as int);
                    }
                    lemma_crossings_nonneg(start as int, idx as int);
                    assert(allocs == 0);
                    assert(idx == orig_len);
                }
                let ghost pre_view = self@;
                self.allocate_extent();
                proof {
                    assert(pre_view == extend_fresh(orig, (EXTENT_SIZE as int) * allocs));
                    lemma_extend_fresh_twice(orig, (EXTENT_SIZE as int) * allocs, EXTENT_SIZE as int);
                    allocs = allocs + 1;
                    topped = 1;
                    assert((EXTENT_SIZE as int) * allocs == (EXTENT_SIZE as int) * (allocs - 1)
                        + (EXTENT_SIZE as int));
                    assert(self@ == extend_fresh(orig, (EXTENT_SIZE as int) * allocs));
                }
            }
            proof {
                assert(self@[idx as int] == self.pages@[idx as int]@);
                if idx as int >= orig_len {
                    assert(self@[idx as int] == fresh_page());
                    lemma_fresh_page();
                } else {
                    assert(self@[idx as int] == orig[idx as int]);
                }
            }
            let free = match page_free_space(&self.pages[idx]) {
                Ok(f) => f,
                Err(e) => {
                    proof {
                        assert(self@[idx as int] == self.pages@[idx as int]@);
                        assert(idx < orig_len);
                        assert(spec_scan(orig, idx as int, req) == ScanHit::Corrupt(idx as int));
                        assert(topped == 0);
                    }
                    return Err(e);
                },
            };
            if required <= free {
                proof {
                    assert(self@[idx as int] == self.pages@[idx as int]@);
                    if idx as int == orig_len {
                        assert(spec_scan(orig, idx as int, req) is Fresh);
                        if spec_crossings(start as int, idx as int) == 0 {
                            assert(topped == 1);
                        } else {
                            assert(topped == 0);
                        }
                    } else {
                        assert(spec_scan(orig, idx as int, req) == ScanHit::Fits(idx as int));
                        assert(topped == 0);
                    }
                }
                break ;
            }
            proof {
                // a fresh page always has room, so the scan is still inside
                // the original pages
                if idx as int >= orig_len {
                    assert(page_free(fresh_page()) == PAGE_SIZE - PAGE_HEADER_SIZE) by {
                        lemma_fresh_page();
                    }
                    assert(false);
                }
                assert(spec_scan(orig, idx as int, req) == spec_scan(orig, idx as int + 1, req));
                assert(spec_crossings(start as int, idx as int + 1) == spec_crossings(
                    start as int,
                    idx as int,
                ) + if (idx as int) % (EXTENT_SIZE as int) == 0 {
                    1int
                } else {
                    0int
                });
            }
            idx += 1;
            if (idx - 1) % EXTENT_SIZE == 0 {
                let ghost pre_view = self@;
                self.allocate_extent();
                proof {
                    lemma_crossings_nonneg(start as int, idx as int);
                    assert(pre_view == extend_fresh(orig, (EXTENT_SIZE as int) * allocs));
                    lemma_extend_fresh_twice(orig, (EXTENT_SIZE as int) * allocs, EXTENT_SIZE as int);
                    allocs = allocs + 1;
                    assert((EXTENT_SIZE as int) * allocs == (EXTENT_SIZE as int) * (allocs - 1)
                        + (EXTENT_SIZE as int));
                    assert(self@ == extend_fresh(orig, (EXTENT_SIZE as int) * allocs));
                }
            }
        }
        let ghost before = self@;
        let page = &mut self.pages[idx];
        let ghost page_pre = page@;
        let slot = match page_insert(page, tuple) {
            Ok(slot) => slot,
            Err(_) => {
                proof {
                    assert(false);
                }
                unreached()
            },
        };
        proof {
            assert(self@ =~= before.update(
                idx as int,
                spec_page_insert(before[idx as int], tuple@),
            ));
            assert(forall|i: int|
                0 <= i < self.pages.len() ==> (#[trigger] self.pages[i]).wf());
        }
        Ok((idx, slot))
    }
}


/// The page images a table file's bytes hold: consecutive full
/// `PAGE_SIZE`-byte chunks; a trailing partial chunk is not a page.
pub open spec fn spec_chunks(bytes: Seq<u8>) -> Seq<Seq<u8>> {
    Seq::new(
        (bytes.len() as int / PAGE_SIZE as int) as nat,
        |i: int| bytes.subrange(i * PAGE_SIZE, (i + 1) * PAGE_SIZE),
    )
}

/// The first `n` pages laid end to end: the byte image `flush_image`
/// produces.
pub open spec fn spec_concat_pages(pages: Seq<Seq<u8>>, n: int) -> Seq<u8>
    decreases n,
{
    if n <= 0 {
        Seq::empty()
    } else {
        spec_concat_pages(pages, n - 1) + pages[n - 1]
    }
}

/// Loading a table file and flushing it without modification reproduces the
/// original file byte for byte, for every previously written page.
pub proof fn lemma_load_flush_roundtrip(bytes: Seq<u8>, n: int)
    requires
        0 <= n <= bytes.len() as int / PAGE_SIZE as int,
    ensures
        spec_concat_pages(spec_chunks(bytes), n) == bytes.subrange(0, n * (PAGE_SIZE as int)),
    decreases n,
{
    assert(n * (PAGE_SIZE as int) <= bytes.len()) by (nonlinear_arith)
        requires
            0 <= n <= bytes.len() as int / PAGE_SIZE as int,
    ;
    if n <= 0 {
        assert(spec_concat_pages(spec_chunks(bytes), 0) =~= bytes.subrange(0, 0));
    } else {
        lemma_load_flush_roundtrip(bytes, n - 1);
        assert(spec_chunks(bytes)[n - 1] == bytes.subrange(
            (n - 1) * (PAGE_SIZE as int),
            n * (PAGE_SIZE as int),
        ));
        assert(bytes.subrange(0, (n - 1) * (PAGE_SIZE as int)) + bytes.subrange(
            (n - 1) * (PAGE_SIZE as int),
            n * (PAGE_SIZE as int),
        ) =~= bytes.subrange(0, n * (PAGE_SIZE as int)));
    }
}


/// What one CSV line contributes to the table: `None` for a line that is
/// skipped — blank, a field count different from the column count, or an
/// encoded tuple too large for even an empty page — and otherwise the
/// encoded tuple.
pub open spec fn spec_row_tuple(cols: Seq<Column>, line: Seq<u8>) -> Option<Seq<u8>> {
    if spec_is_blank(line) {
        None
    } else if spec_fields(line).len() != cols.len() {
        None
    } else {
        let t = spec_encode_row(cols, spec_fields(line));
        if t.len() + ITEM_ID_SIZE <= PAGE_SIZE - PAGE_HEADER_SIZE {
            Some(t)
        } else {
            None
        }
    }
}

/// The bulk load, one CSV line at a time: each encoded row is placed from
/// the current page index forward, the index moves to the page that took
/// it, and skipped lines leave everything unchanged. Returns the final
/// pages, the final page index, and how many rows were inserted; a corrupt
/// page aborts the whole load.
pub open spec fn spec_load_rows(
    pages: Seq<Seq<u8>>,
    idx: int,
    cols: Seq<Column>,
    lines: Seq<Seq<u8>>,
) -> Result<(Seq<Seq<u8>>, int, int), StorageError>
    decreases lines.len(),
{
    if lines.len() == 0 {
        Ok((pages, idx, 0))
    } else {
        match spec_row_tuple(cols, lines[0]) {
            None => spec_load_rows(pages, idx, cols, lines.drop_first()),
            Some(t) => {
                let req = t.len() + ITEM_ID_SIZE;
                if spec_scan(pages, idx, req as int) is Corrupt {
                    Err(StorageError::Corruption)
                } else {
                    let k = spec_place_alloc_count(pages, idx, req as int);
                    let ext = extend_fresh(pages, (EXTENT_SIZE as int) * k);
                    let j = spec_place_index(pages, idx, req as int);
                    let pages2 = ext.update(j, spec_page_insert(ext[j], t));
                    match spec_load_rows(pages2, j, cols, lines.drop_first()) {
                        Ok((p, i2, c)) => Ok((p, i2, c + 1)),
                        Err(e) => Err(e),
                    }
                }
            },
        }
    }
}

/// The whole CSV import against a starting page sequence: resolve the
/// schema, make sure a first extent exists, feed every line after the title
/// line through `spec_load_rows`, and record the page count in the header
/// page. Returns the final pages, the used page count and the inserted-row
/// count.
pub open spec fn spec_load_outcome(
    pages: Seq<Seq<u8>>,
    catalog: Catalog,
    db_name: Seq<char>,
    table_name: Seq<char>,
    csv: Seq<u8>,
) -> Result<(Seq<Seq<u8>>, int, int), StorageError> {
    match spec_lookup(catalog.databases@, db_name) {
        None => Err(StorageError::NotFound),
        Some(db) => match spec_lookup(db.tables@, table_name) {
            None => Err(StorageError::NotFound),
            Some(table) => {
                let cols = table.columns@;
                if cols.len() == 0 {
                    Err(StorageError::InvalidSchema)
                } else {
                    let base = if pages.len() == 1 {
                        extend_fresh(pages, EXTENT_SIZE as int)
                    } else {
                        pages
                    };
                    let rows = spec_lines(csv).drop_first();
                    match spec_load_rows(base, 1, cols, rows) {
                        Ok((p, _i, c)) => Ok(
                            (
                                p.update(0, seq_write(p[0], 0, spec_u32_to_le_bytes(p.len() as u32))),
                                p.len() as int,
                                c,
                            ),
                        ),
                        Err(e) => Err(e),
                    }
                }
            },
        },
    }
}

/// What a bulk load reports: how many pages the table now uses (header
/// included) and how many rows were inserted.
pub struct LoadSummary {
    pub used_pages: usize,
    pub inserted_rows: usize,
}

impl BufferManager {
    /// Replaces the in-memory pages with the pages a table file's bytes
    /// hold: page 0 is the header, the data pages follow, and a trailing
    /// partial page is dropped. A file too short to hold even the header
    /// page is rejected as `Corruption`, leaving the buffer unchanged.
    pub fn load_table_from_bytes(&mut self, bytes: &Vec<u8>) -> (r: Result<(), StorageError>)
        requires
            old(self).wf(),
        ensures
            final(self).wf(),
            r is Ok <==> bytes@.len() >= PAGE_SIZE,
            r is Ok ==> final(self)@ == spec_chunks(bytes@),
            r is Err ==> *final(self) == *old(self) && r == Err::<(), StorageError>(
                StorageError::Corruption,
            ),
    {
        if bytes.len() < PAGE_SIZE {
            return Err(StorageError::Corruption);
        }
        let ghost n = bytes@.len() as int / PAGE_SIZE as int;
        let mut pages: Vec<Page> = Vec::new();
        let mut off: usize = 0;
        while off <= bytes.len() - PAGE_SIZE
            invariant
                bytes@.len() >= PAGE_SIZE,
                off == pages.len() * PAGE_SIZE,
                off <= bytes@.len(),
                forall|i: int|
                    0 <= i < pages.len() ==> (#[trigger] pages@[i])@ == bytes@.subrange(
                        i * (PAGE_SIZE as int),
                        (i + 1) * (PAGE_SIZE as int),
                    ),
                forall|i: int| 0 <= i < pages.len() ==> (#[trigger] pages@[i]).wf(),
            decreases bytes@.len() - off,
        {
            let chunk = vstd::slice::slice_to_vec(
                vstd::slice::slice_subrange(bytes.as_slice(), off, off + PAGE_SIZE),
            );
            let ghost count = pages.len() as int;
            pages.push(Page { data: chunk });
            proof {
                assert((count + 1) * PAGE_SIZE == count * PAGE_SIZE + PAGE_SIZE);
            }
            off += PAGE_SIZE;
        }
        proof {
            assert(pages.len() == n) by (nonlinear_arith)
                requires
                    pages.len() * (PAGE_SIZE as int) <= bytes@.len(),
                    bytes@.len() - pages.len() * (PAGE_SIZE as int) < PAGE_SIZE,
                    n == bytes@.len() as int / PAGE_SIZE as int,
            ;
            assert(n >= 1) by (nonlinear_arith)
                requires
                    n == bytes@.len() as int / PAGE_SIZE as int,
                    bytes@.len() >= PAGE_SIZE,
            ;
        }
        self.pages = pages;
        proof {
            assert(self@ =~= spec_chunks(bytes@));
        }
        Ok(())
    }

    /// Bulk-loads CSV content into the table's pages, then records the page
    /// count in the header page.
    ///
    /// The schema comes from the catalog: a missing database or table is
    /// `NotFound`, an empty column list `InvalidSchema`, and both leave the
    /// buffer untouched. The first CSV line is discarded as a title. Every
    /// later line is comma-split and trimmed; a blank line, a line whose
    /// field count differs from the column count, or a row too large for
    /// even an empty page is skipped without advancing the inserted-row
    /// count. Each remaining row is encoded and placed from the current
    /// page index forward, allocating extents as `place_tuple` does. A
    /// corrupt page aborts the load with `Corruption`.
    pub fn load_csv_into_pages(
        &mut self,
        catalog: &Catalog,
        db_name: &str,
        table_name: &str,
        csv: &Vec<u8>,
    ) -> (r: Result<LoadSummary, StorageError>)
        requires
            old(self).wf(),
        ensures
            final(self).wf(),
            match spec_load_outcome(old(self)@, *catalog, db_name@, table_name@, csv@) {
                Ok((fp, used, c)) => r matches Ok(s) && final(self)@ == fp && s.used_pages == used
                    && s.inserted_rows == c,
                Err(e) => r == Err::<LoadSummary, StorageError>(e) && (e != StorageError::Corruption
                    ==> *final(self) == *old(self)),
            },
    {
        let columns = match crate::catalog::get_schema(catalog, db_name, table_name) {
            Ok(c) => c,
            Err(e) => {
                return Err(e);
            },
        };
        if columns.len() == 0 {
            return Err(StorageError::InvalidSchema);
        }
        let ghost sch = columns@;
        let lines = split_lines(csv);
        if self.pages.len() == 1 {
            self.allocate_extent();
        }
        let ghost base = self@;
        let ghost rows = spec_lines(csv@).drop_first();
        proof {
            crate::csv::lemma_split_nonempty(csv@, crate::csv::BYTE_LF);
            assert(rows.len() == lines.len() - 1);
            assert(rows.skip(0) =~= rows);
            assert(base.len() >= 1);
        }
        let mut idx: usize = 1;
        let mut inserted: usize = 0;
        let mut m: usize = 1;
        while m < lines.len()
            invariant
                1 <= m <= lines.len(),
                self.wf(),
                1 <= idx <= self@.len(),
                lines.deep_view() == spec_lines(csv@),
                rows == spec_lines(csv@).drop_first(),
                rows.len() == lines.len() - 1,
                sch.len() > 0,
                columns@ == sch,
                inserted <= m - 1,
                (spec_lookup(catalog.databases@, db_name@) matches Some(db) && (spec_lookup(
                    db.tables@,
                    table_name@,
                ) matches Some(t) && t.columns@ == sch)),
                base == (if old(self)@.len() == 1 {
                    extend_fresh(old(self)@, EXTENT_SIZE as int)
                } else {
                    old(self)@
                }),
                spec_load_rows(base, 1, sch, rows) == (match spec_load_rows(
                    self@,
                    idx as int,
                    sch,
                    rows.skip(m - 1),
                ) {
                    Ok((p, i2, c)) => Ok::<_, StorageError>((p, i2, c + inserted)),
                    Err(e) => Err(e),
                }),
            decreases lines.len() - m,
        {
            let ghost row = rows[m - 1];
            let ghost pre_rows = rows.skip(m - 1);
            proof {
                assert(lines.deep_view()[m as int] == lines@[m as int]@);
                assert(pre_rows[0] == row);
                assert(pre_rows.drop_first() =~= rows.skip(m as int));
            }
            let line = &lines[m];
            if is_blank_line(line) {
                proof {
                    assert(spec_row_tuple(sch, row) is None);
                    assert(spec_load_rows(self@, idx as int, sch, pre_rows) == spec_load_rows(
                        self@,
                        idx as int,
                        sch,
                        rows.skip(m as int),
                    ));
                }
                m += 1;
                continue ;
            }
            let fields = split_fields(line);
            if fields.len() != columns.len() {
                proof {
                    assert(spec_fields(row).len() == fields.len());
                    assert(spec_row_tuple(sch, row) is None);
                    assert(spec_load_rows(self@, idx as int, sch, pre_rows) == spec_load_rows(
                        self@,
                        idx as int,
                        sch,
                        rows.skip(m as int),
                    ));
                }
                m += 1;
                continue ;
            }
            let tuple = encode_row(columns, &fields);
            proof {
                assert(tuple@ == spec_encode_row(sch, spec_fields(row)));
            }
            if tuple.len() > PAGE_SIZE - (PAGE_HEADER_SIZE + ITEM_ID_SIZE) as usize {
                proof {
                    assert(spec_row_tuple(sch, row) is None);
                    assert(spec_load_rows(self@, idx as int, sch, pre_rows) == spec_load_rows(
                        self@,
                        idx as int,
                        sch,
                        rows.skip(m as int),
                    ));
                }
                m += 1;
                continue ;
            }
            proof {
                assert(spec_row_tuple(sch, row) == Some(tuple@));
            }
            let ghost pre_pages = self@;
            match self.place_tuple(idx, tuple.as_slice()) {
                Ok((j, _slot)) => {
                    proof {
                        let req = tuple@.len() + ITEM_ID_SIZE;
                        let k = spec_place_alloc_count(pre_pages, idx as int, req as int);
                        let ext = extend_fresh(pre_pages, (EXTENT_SIZE as int) * k);
                        lemma_crossings_nonneg(idx as int, j as int);
                        lemma_crossings_nonneg(idx as int, pre_pages.len() as int);
                        lemma_scan_first_fit(pre_pages, idx as int, req as int);
                        assert(k >= 0);
                        assert(1 <= j);
                        assert((j as int) < ext.len());
                        assert(self@ == ext.update(j as int, spec_page_insert(ext[j as int], tuple@)));
                        assert(self@.len() == ext.len());
                        assert(spec_load_rows(pre_pages, idx as int, sch, pre_rows) == (
                        match spec_load_rows(self@, j as int, sch, rows.skip(m as int)) {
                            Ok((p, i2, c)) => Ok::<_, StorageError>((p, i2, c + 1)),
                            Err(e) => Err(e),
                        }));
                    }
                    idx = j;
                    inserted += 1;
                },
                Err(e) => {
                    proof {
                        assert(spec_load_rows(pre_pages, idx as int, sch, pre_rows) == Err::<
                            (Seq<Seq<u8>>, int, int),
                            StorageError,
                        >(StorageError::Corruption));
                        assert(spec_load_rows(base, 1, sch, rows) == Err::<
                            (Seq<Seq<u8>>, int, int),
                            StorageError,
                        >(StorageError::Corruption));
                    }
                    return Err(e);
                },
            }
            m += 1;
        }
        proof {
            assert(rows.skip(m - 1) =~= Seq::<Seq<u8>>::empty());
            assert(spec_load_rows(self@, idx as int, sch, rows.skip(m - 1)) == Ok::<
                _,
                StorageError,
            >((self@, idx as int, 0int)));
            assert(spec_load_rows(base, 1, sch, rows) == Ok::<_, StorageError>(
                (self@, idx as int, inserted as int),
            ));
        }
        let used = self.pages.len();
        let ghost loaded = self@;
        {
            let header = &mut self.pages[0];
            write_u32_at(&mut header.data, 0, #[verifier::truncate] (used as u32));
        }
        proof {
            assert(self@ =~= loaded.update(
                0,
                seq_write(loaded[0], 0, spec_u32_to_le_bytes(loaded.len() as u32)),
            ));
            assert(forall|i: int| 0 <= i < self.pages.len() ==> (#[trigger] self.pages[i]).wf());
        }
        Ok(LoadSummary { used_pages: used, inserted_rows: inserted })
    }

    /// The byte image of the first `used_pages` pages, header included, laid
    /// at their page-number offsets. Pages beyond `used_pages` are not part
    /// of the image.
    pub fn flush_image(&self, used_pages: usize) -> (r: Vec<u8>)
        requires
            self.wf(),
            used_pages <= self.pages.len(),
        ensures
            r@ == spec_concat_pages(self@, used_pages as int),
            r@.len() == used_pages * PAGE_SIZE,
    {
        let mut out: Vec<u8> = Vec::new();
        let mut i: usize = 0;
        while i < used_pages
            invariant
                i <= used_pages,
                self.wf(),
                used_pages <= self.pages.len(),
                out@ == spec_concat_pages(self@, i as int),
                out@.len() == i * PAGE_SIZE,
            decreases used_pages - i,
        {
            let page = &self.pages[i];
            let mut j: usize = 0;
            let ghost base = out@;
            while j < PAGE_SIZE
                invariant
                    j <= PAGE_SIZE,
                    page.wf(),
                    page == &self.pages@[i as int],
                    out@ == base + page@.subrange(0, j as int),
                decreases PAGE_SIZE - j,
            {
                out.push(page.data[j]);
                proof {
                    assert(out@ =~= base + page@.subrange(0, j + 1));
                }
                j += 1;
            }
            proof {
                assert(page@.subrange(0, PAGE_SIZE as int) =~= page@);
                assert(self@[i as int] == self.pages@[i as int]@);
                assert(out@ == spec_concat_pages(self@, i + 1));
                assert((i + 1) * PAGE_SIZE == i * PAGE_SIZE + PAGE_SIZE);
            }
            i += 1;
        }
        out
    }

    /// The full import pipeline: bulk-load the CSV into the pages, then
    /// produce the byte image of every used page for the table file.
    pub fn load_csv_to_buffer(
        &mut self,
        catalog: &Catalog,
        db_name: &str,
        table_name: &str,
        csv: &Vec<u8>,
    ) -> (r: Result<Vec<u8>, StorageError>)
        requires
            old(self).wf(),
        ensures
            final(self).wf(),
            match spec_load_outcome(old(self)@, *catalog, db_name@, table_name@, csv@) {
                Ok((fp, used, c)) => r matches Ok(image) && final(self)@ == fp && image@
                    == spec_concat_pages(fp, used),
                Err(e) => r == Err::<Vec<u8>, StorageError>(e) && (e != StorageError::Corruption
                    ==> *final(self) == *old(self)),
            },
    {
        let summary = match self.load_csv_into_pages(catalog, db_name, table_name, csv) {
            Ok(s) => s,
            Err(e) => {
                return Err(e);
            },
        };
        proof {
            assert(self@.len() == self.pages@.len());
        }
        Ok(self.flush_image(summary.used_pages))
    }
}

} // verus!
