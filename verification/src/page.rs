//! The slotted page: an 8192-byte buffer with an 8-byte header and a slot
//! array.
//!
//! Bytes `[0, 4)` hold `lower` (little-endian `u32`), the end of the slot
//! array; bytes `[4, 8)` hold `upper`, the start of free space. Slots are
//! 8-byte `{offset, length}` entries growing upward from the header; tuple
//! payloads grow downward from the page tail. The header invariant is
//! `8 <= lower <= upper <= PAGE_SIZE`; free space is `upper - lower`.
//! Pages are append-only: no update, delete or compaction.

use vstd::prelude::*;
use vstd::bytes::spec_u32_to_le_bytes;
use crate::layout::{
    le32_at, lemma_seq_write_le32, lemma_seq_write_le32_frame, read_u32_at, seq_write,
    write_bytes_at, write_u32_at, zero_bytes,
};
use crate::StorageError;

verus! {

pub const PAGE_SIZE: usize = 8192;

pub const PAGE_HEADER_SIZE: u32 = 8;

pub const ITEM_ID_SIZE: u32 = 8;

/// One fixed-size page, held as its raw bytes.
pub struct Page {
    pub data: Vec<u8>,
}

impl View for Page {
    type V = Seq<u8>;

    open spec fn view(&self) -> Seq<u8> {
        self.data@
    }
}

impl Page {
    /// A page buffer always holds exactly `PAGE_SIZE` bytes.
    pub open spec fn wf(&self) -> bool {
        self.data.len() == PAGE_SIZE
    }

    /// A zero-filled page; `init_page` must run before first use.
    pub fn new() -> (r: Page)
        ensures
            r.wf(),
            r@ == Seq::new(PAGE_SIZE as nat, |i: int| 0u8),
    {
        Page { data: zero_bytes(PAGE_SIZE) }
    }
}

/// The `lower` header field of a page image: end of the slot array.
pub open spec fn page_lower(p: Seq<u8>) -> u32 {
    le32_at(p, 0)
}

/// The `upper` header field of a page image: start of free space.
pub open spec fn page_upper(p: Seq<u8>) -> u32 {
    le32_at(p, 4)
}

/// The header invariant: both offsets lie in `[8, PAGE_SIZE]` and do not
/// cross. Anything else is corruption.
pub open spec fn header_ok(p: Seq<u8>) -> bool {
    &&& PAGE_HEADER_SIZE <= page_lower(p)
    &&& page_lower(p) <= page_upper(p)
    &&& page_upper(p) <= PAGE_SIZE
}

/// Free space between the slot array and the payload region.
pub open spec fn page_free(p: Seq<u8>) -> int {
    page_upper(p) - page_lower(p)
}

/// Number of slots on the page.
pub open spec fn slot_count(p: Seq<u8>) -> int {
    (page_lower(p) - PAGE_HEADER_SIZE) / (ITEM_ID_SIZE as int)
}

/// The payload offset stored in slot `i`.
pub open spec fn slot_offset(p: Seq<u8>, i: int) -> u32 {
    le32_at(p, 8 + 8 * i)
}

/// The payload length stored in slot `i`.
pub open spec fn slot_len(p: Seq<u8>, i: int) -> u32 {
    le32_at(p, 12 + 8 * i)
}

/// The payload bytes slot `i` points at.
pub open spec fn tuple_bytes(p: Seq<u8>, i: int) -> Seq<u8> {
    p.subrange(slot_offset(p, i) as int, slot_offset(p, i) + slot_len(p, i))
}

/// Every slot points into the payload region `[upper, PAGE_SIZE)`.
pub open spec fn slots_ok(p: Seq<u8>) -> bool {
    forall|j: int|
        0 <= j < slot_count(p) ==> page_upper(p) <= #[trigger] slot_offset(p, j)
            && slot_offset(p, j) + slot_len(p, j) <= PAGE_SIZE
}

/// A structurally sound page image: right size, sound header, a whole
/// number of slots, and sound slots.
pub open spec fn page_valid(p: Seq<u8>) -> bool {
    &&& p.len() == PAGE_SIZE
    &&& header_ok(p)
    &&& (page_lower(p) - PAGE_HEADER_SIZE) % (ITEM_ID_SIZE as int) == 0
    &&& slots_ok(p)
}

/// The image of a freshly initialized page: all zeroes except
/// `lower = 8`, `upper = PAGE_SIZE`.
pub open spec fn fresh_page() -> Seq<u8> {
    seq_write(
        seq_write(
            Seq::new(PAGE_SIZE as nat, |i: int| 0u8),
            0,
            spec_u32_to_le_bytes(PAGE_HEADER_SIZE),
        ),
        4,
        spec_u32_to_le_bytes(PAGE_SIZE as u32),
    )
}

/// A fresh page has an empty slot array and the whole body free.
pub proof fn lemma_fresh_page()
    ensures
        fresh_page().len() == PAGE_SIZE,
        page_lower(fresh_page()) == PAGE_HEADER_SIZE,
        page_upper(fresh_page()) == PAGE_SIZE,
        header_ok(fresh_page()),
        slot_count(fresh_page()) == 0,
        slots_ok(fresh_page()),
        page_valid(fresh_page()),
        page_free(fresh_page()) == PAGE_SIZE - PAGE_HEADER_SIZE,
{
    let zeroes = Seq::new(PAGE_SIZE as nat, |i: int| 0u8);
    let q1 = seq_write(zeroes, 0, spec_u32_to_le_bytes(PAGE_HEADER_SIZE));
    lemma_seq_write_le32(zeroes, 0, PAGE_HEADER_SIZE);
    lemma_seq_write_le32(q1, 4, PAGE_SIZE as u32);
    lemma_seq_write_le32_frame(q1, 4, spec_u32_to_le_bytes(PAGE_SIZE as u32), 0);
}

/// Sets `lower = 8` and `upper = PAGE_SIZE`; the rest of the page is left
/// as it was. On a zero-filled page this yields `fresh_page()`.
pub fn init_page(page: &mut Page)
    requires
        old(page).wf(),
    ensures
        final(page).wf(),
        final(page)@ == seq_write(
            seq_write(old(page)@, 0, spec_u32_to_le_bytes(PAGE_HEADER_SIZE)),
            4,
            spec_u32_to_le_bytes(PAGE_SIZE as u32),
        ),
        page_lower(final(page)@) == PAGE_HEADER_SIZE,
        page_upper(final(page)@) == PAGE_SIZE,
        header_ok(final(page)@),
        slot_count(final(page)@) == 0,
        page_valid(final(page)@),
{
    write_u32_at(&mut page.data, 0, PAGE_HEADER_SIZE);
    write_u32_at(&mut page.data, 4, PAGE_SIZE as u32);
    proof {
        let q1 = seq_write(old(page)@, 0, spec_u32_to_le_bytes(PAGE_HEADER_SIZE));
        lemma_seq_write_le32(old(page)@, 0, PAGE_HEADER_SIZE);
        lemma_seq_write_le32(q1, 4, PAGE_SIZE as u32);
        lemma_seq_write_le32_frame(q1, 4, spec_u32_to_le_bytes(PAGE_SIZE as u32), 0);
    }
}

/// Free space of a page: `upper - lower`. Header offsets outside
/// `[8, PAGE_SIZE]`, or crossing each other, are surfaced as `Corruption`
/// rather than tripping unchecked arithmetic.
pub fn page_free_space(page: &Page) -> (r: Result<u32, StorageError>)
    requires
        page.wf(),
    ensures
        match r {
            Ok(free) => header_ok(page@) && free == page_free(page@),
            Err(e) => !header_ok(page@) && e == StorageError::Corruption,
        },
{
    let lower = read_u32_at(&page.data, 0);
    let upper = read_u32_at(&page.data, 4);
    if lower < PAGE_HEADER_SIZE || upper < lower || upper > PAGE_SIZE as u32 {
        return Err(StorageError::Corruption);
    }
    Ok(upper - lower)
}

/// The page image after appending `data` as one tuple: `data` is written at
/// `[upper - len, upper)`, a slot `{offset, length}` is written at `lower`,
/// then `lower` advances by 8 and `upper` retreats to the payload start.
pub open spec fn spec_page_insert(p: Seq<u8>, data: Seq<u8>) -> Seq<u8> {
    let lower = page_lower(p) as int;
    let upper = page_upper(p) as int;
    let start = upper - data.len();
    seq_write(
        seq_write(
            seq_write(
                seq_write(
                    seq_write(p, start, data),
                    lower,
                    spec_u32_to_le_bytes(start as u32),
                ),
                lower + 4,
                spec_u32_to_le_bytes(data.len() as u32),
            ),
            0,
            spec_u32_to_le_bytes((lower + 8) as u32),
        ),
        4,
        spec_u32_to_le_bytes(start as u32),
    )
}

/// What one successful insert does to a sound page: `lower` grows by exactly
/// 8, `upper` shrinks by exactly the payload length, the new slot points at
/// the payload just written, and every earlier slot and payload is unchanged.
pub proof fn lemma_page_insert_effect(p: Seq<u8>, data: Seq<u8>)
    requires
        page_valid(p),
        data.len() + ITEM_ID_SIZE <= page_free(p),
    ensures
        spec_page_insert(p, data).len() == PAGE_SIZE,
        page_lower(spec_page_insert(p, data)) == page_lower(p) + ITEM_ID_SIZE,
        page_upper(spec_page_insert(p, data)) == page_upper(p) - data.len(),
        header_ok(spec_page_insert(p, data)),
        slot_count(spec_page_insert(p, data)) == slot_count(p) + 1,
        slot_offset(spec_page_insert(p, data), slot_count(p)) == page_upper(p) - data.len(),
        slot_len(spec_page_insert(p, data), slot_count(p)) == data.len(),
        tuple_bytes(spec_page_insert(p, data), slot_count(p)) == data,
        forall|j: int|
            0 <= j < slot_count(p) ==> #[trigger] slot_offset(spec_page_insert(p, data), j)
                == slot_offset(p, j) && slot_len(spec_page_insert(p, data), j) == slot_len(p, j),
        forall|j: int|
            0 <= j < slot_count(p) ==> #[trigger] tuple_bytes(spec_page_insert(p, data), j)
                == tuple_bytes(p, j),
        page_valid(spec_page_insert(p, data)),
{
    vstd::bytes::lemma_auto_spec_u32_to_from_le_bytes();
    let lower = page_lower(p) as int;
    let upper = page_upper(p) as int;
    let len = data.len() as int;
    let start = upper - len;
    let q = spec_page_insert(p, data);

    let w1 = seq_write(p, start, data);
    let w2 = seq_write(w1, lower, spec_u32_to_le_bytes(start as u32));
    let w3 = seq_write(w2, lower + 4, spec_u32_to_le_bytes(len as u32));
    let w4 = seq_write(w3, 0, spec_u32_to_le_bytes((lower + 8) as u32));

    // lower field of the result
    lemma_seq_write_le32(w3, 0, (lower + 8) as u32);
    lemma_seq_write_le32_frame(w4, 4, spec_u32_to_le_bytes(start as u32), 0);
    assert(page_lower(q) == lower + 8);

    // upper field of the result
    lemma_seq_write_le32(w4, 4, start as u32);
    assert(page_upper(q) == start);

    assert(slot_count(q) == slot_count(p) + 1) by {
        assert((lower + 8 - 8) / 8 == (lower - 8) / 8 + 1);
    };

    // the new slot entry
    lemma_seq_write_le32(w1, lower, start as u32);
    lemma_seq_write_le32_frame(w2, lower + 4, spec_u32_to_le_bytes(len as u32), lower);
    lemma_seq_write_le32_frame(w3, 0, spec_u32_to_le_bytes((lower + 8) as u32), lower);
    lemma_seq_write_le32_frame(w4, 4, spec_u32_to_le_bytes(start as u32), lower);
    assert(8 + 8 * slot_count(p) == lower);
    assert(slot_offset(q, slot_count(p)) == start);

    lemma_seq_write_le32(w2, lower + 4, len as u32);
    lemma_seq_write_le32_frame(w3, 0, spec_u32_to_le_bytes((lower + 8) as u32), lower + 4);
    lemma_seq_write_le32_frame(w4, 4, spec_u32_to_le_bytes(start as u32), lower + 4);
    assert(slot_len(q, slot_count(p)) == len);

    // the payload just written
    assert(tuple_bytes(q, slot_count(p)) =~= data);

    // earlier slots are untouched: they live in [8, lower)
    assert forall|j: int| 0 <= j < slot_count(p) implies #[trigger] slot_offset(q, j)
        == slot_offset(p, j) && slot_len(q, j) == slot_len(p, j) by {
        assert(8 + 8 * j + 8 <= lower);
        lemma_seq_write_le32_frame(p, start, data, 8 + 8 * j);
        lemma_seq_write_le32_frame(w1, lower, spec_u32_to_le_bytes(start as u32), 8 + 8 * j);
        lemma_seq_write_le32_frame(w2, lower + 4, spec_u32_to_le_bytes(len as u32), 8 + 8 * j);
        lemma_seq_write_le32_frame(w3, 0, spec_u32_to_le_bytes((lower + 8) as u32), 8 + 8 * j);
        lemma_seq_write_le32_frame(w4, 4, spec_u32_to_le_bytes(start as u32), 8 + 8 * j);
        lemma_seq_write_le32_frame(p, start, data, 12 + 8 * j);
        lemma_seq_write_le32_frame(w1, lower, spec_u32_to_le_bytes(start as u32), 12 + 8 * j);
        lemma_seq_write_le32_frame(w2, lower + 4, spec_u32_to_le_bytes(len as u32), 12 + 8 * j);
        lemma_seq_write_le32_frame(w3, 0, spec_u32_to_le_bytes((lower + 8) as u32), 12 + 8 * j);
        lemma_seq_write_le32_frame(w4, 4, spec_u32_to_le_bytes(start as u32), 12 + 8 * j);
    };

    // earlier payloads are untouched: they live in [upper, PAGE_SIZE)
    assert forall|j: int| 0 <= j < slot_count(p) implies #[trigger] tuple_bytes(q, j)
        == tuple_bytes(p, j) by {
        assert(page_upper(p) <= slot_offset(p, j));
        assert(tuple_bytes(q, j) =~= tuple_bytes(p, j));
    };
}

/// Appends one tuple to the page. Returns the new slot's index.
///
/// A corrupt header is reported as `Corruption`; a payload that does not fit
/// together with its 8-byte slot is rejected as `InsufficientSpace`. In both
/// error cases the page is left unmodified.
pub fn page_insert(page: &mut Page, data: &[u8]) -> (r: Result<u32, StorageError>)
    requires
        old(page).wf(),
    ensures
        final(page).wf(),
        r is Ok <==> header_ok(old(page)@) && data@.len() + ITEM_ID_SIZE <= page_free(old(page)@),
        r matches Ok(idx) ==> final(page)@ == spec_page_insert(old(page)@, data@)
            && idx == slot_count(old(page)@),
        r is Err ==> final(page)@ == old(page)@,
        r matches Err(e) ==> e == (if header_ok(old(page)@) {
            StorageError::InsufficientSpace
        } else {
            StorageError::Corruption
        }),
{
    let lower = read_u32_at(&page.data, 0);
    let upper = read_u32_at(&page.data, 4);
    if lower < PAGE_HEADER_SIZE || upper < lower || upper > PAGE_SIZE as u32 {
        return Err(StorageError::Corruption);
    }
    if data.len() > PAGE_SIZE {
        return Err(StorageError::InsufficientSpace);
    }
    let len = data.len() as u32;
    if len + ITEM_ID_SIZE > upper - lower {
        return Err(StorageError::InsufficientSpace);
    }

    let start = upper - len;
    write_bytes_at(&mut page.data, start as usize, data);
    write_u32_at(&mut page.data, lower as usize, start);
    write_u32_at(&mut page.data, lower as usize + 4, len);
    write_u32_at(&mut page.data, 0, lower + 8);
    write_u32_at(&mut page.data, 4, start);
    Ok((lower - PAGE_HEADER_SIZE) / ITEM_ID_SIZE)
}

/// Reads the payload of slot `slot_index` out of the page.
///
/// A corrupt header yields `Corruption`; an index past the slot array yields
/// `NotFound`; a slot whose payload would run past the page end yields
/// `Corruption`.
pub fn read_tuple(page: &Page, slot_index: u32) -> (r: Result<Vec<u8>, StorageError>)
    requires
        page.wf(),
    ensures
        match r {
            Ok(v) => {
                &&& header_ok(page@)
                &&& slot_index < slot_count(page@)
                &&& slot_offset(page@, slot_index as int) + slot_len(page@, slot_index as int)
                    <= PAGE_SIZE
                &&& v@ == tuple_bytes(page@, slot_index as int)
            },
            Err(StorageError::NotFound) => header_ok(page@) && slot_index >= slot_count(page@),
            Err(StorageError::Corruption) => !header_ok(page@) || (slot_index < slot_count(page@)
                && slot_offset(page@, slot_index as int) + slot_len(page@, slot_index as int)
                    > PAGE_SIZE),
            Err(_) => false,
        },
{
    let lower = read_u32_at(&page.data, 0);
    let upper = read_u32_at(&page.data, 4);
    if lower < PAGE_HEADER_SIZE || upper < lower || upper > PAGE_SIZE as u32 {
        return Err(StorageError::Corruption);
    }
    let count = (lower - PAGE_HEADER_SIZE) / ITEM_ID_SIZE;
    if slot_index >= count {
        return Err(StorageError::NotFound);
    }
    let base = (PAGE_HEADER_SIZE + slot_index * ITEM_ID_SIZE) as usize;
    let offset = read_u32_at(&page.data, base);
    let length = read_u32_at(&page.data, base + 4);
    if offset as usize > PAGE_SIZE || length as usize > PAGE_SIZE - offset as usize {
        return Err(StorageError::Corruption);
    }
    let payload = vstd::slice::slice_subrange(
        page.data.as_slice(),
        offset as usize,
        offset as usize + length as usize,
    );
    Ok(vstd::slice::slice_to_vec(payload))
}

/// The pages reached by inserting `tuples` in order, starting from `p`;
/// `None` as soon as one of them does not fit (or the header is unsound).
pub open spec fn insert_all(p: Seq<u8>, tuples: Seq<Seq<u8>>) -> Option<Seq<u8>>
    decreases tuples.len(),
{
    if tuples.len() == 0 {
        Some(p)
    } else if header_ok(p) && tuples[0].len() + ITEM_ID_SIZE <= page_free(p) {
        insert_all(spec_page_insert(p, tuples[0]), tuples.drop_first())
    } else {
        None
    }
}

/// Total payload length of a batch of tuples.
pub open spec fn total_len(tuples: Seq<Seq<u8>>) -> int
    decreases tuples.len(),
{
    if tuples.len() == 0 {
        0
    } else {
        tuples[0].len() + total_len(tuples.drop_first())
    }
}

/// For any sequence of successful inserts into a sound page — a fresh page
/// in particular — `lower` increases by exactly 8 and `upper` decreases by
/// exactly the inserted length per insert, and free space never goes
/// negative.
pub proof fn lemma_insert_sequence(p: Seq<u8>, tuples: Seq<Seq<u8>>, q: Seq<u8>)
    requires
        page_valid(p),
        insert_all(p, tuples) == Some(q),
    ensures
        page_valid(q),
        page_lower(q) == page_lower(p) + ITEM_ID_SIZE * tuples.len(),
        page_upper(q) == page_upper(p) - total_len(tuples),
        page_free(q) >= 0,
    decreases tuples.len(),
{
    if tuples.len() == 0 {
    } else {
        let p1 = spec_page_insert(p, tuples[0]);
        lemma_page_insert_effect(p, tuples[0]);
        lemma_insert_sequence(p1, tuples.drop_first(), q);
    }
}

} // verus!
