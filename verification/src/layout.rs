//! Byte-level helpers for the on-page binary layout.
//!
//! All multi-byte fields in a page are little-endian `u32` values. This
//! module centralizes the offset arithmetic and the endianness handling:
//! a spec-level overwrite operator on byte sequences, and verified read and
//! write accessors for `u32` fields inside a byte buffer.

use vstd::prelude::*;
use vstd::bytes::{spec_u32_from_le_bytes, spec_u32_to_le_bytes, u32_from_le_bytes, u32_to_le_bytes};
use vstd::slice::slice_subrange;

verus! {

/// The sequence `p` with `bytes` written at position `pos`; everything
/// outside `[pos, pos + bytes.len())` is unchanged.
pub open spec fn seq_write(p: Seq<u8>, pos: int, bytes: Seq<u8>) -> Seq<u8> {
    Seq::new(p.len(), |i: int| if pos <= i < pos + bytes.len() { bytes[i - pos] } else { p[i] })
}

/// The little-endian `u32` stored at `[pos, pos + 4)` of `p`.
pub open spec fn le32_at(p: Seq<u8>, pos: int) -> u32 {
    spec_u32_from_le_bytes(p.subrange(pos, pos + 4))
}

/// Reading a `u32` field back out of a buffer it was just written to yields
/// the written value, and writing does not disturb any other byte.
pub proof fn lemma_seq_write_le32(p: Seq<u8>, pos: int, value: u32)
    requires
        0 <= pos,
        pos + 4 <= p.len(),
    ensures
        le32_at(seq_write(p, pos, spec_u32_to_le_bytes(value)), pos) == value,
{
    vstd::bytes::lemma_auto_spec_u32_to_from_le_bytes();
    assert(seq_write(p, pos, spec_u32_to_le_bytes(value)).subrange(pos, pos + 4)
        =~= spec_u32_to_le_bytes(value));
}

/// A `u32` field at `other` is untouched by a write at `pos` when the two
/// four-byte regions do not overlap.
pub proof fn lemma_seq_write_le32_frame(p: Seq<u8>, pos: int, bytes: Seq<u8>, other: int)
    requires
        0 <= other,
        other + 4 <= p.len(),
        other + 4 <= pos || pos + bytes.len() <= other,
    ensures
        le32_at(seq_write(p, pos, bytes), other) == le32_at(p, other),
{
    assert(seq_write(p, pos, bytes).subrange(other, other + 4) =~= p.subrange(other, other + 4));
}

/// Reads the little-endian `u32` field at byte offset `pos` of `data`.
pub fn read_u32_at(data: &Vec<u8>, pos: usize) -> (r: u32)
    requires
        pos + 4 <= data.len(),
    ensures
        r == le32_at(data@, pos as int),
{
    let field = slice_subrange(data.as_slice(), pos, pos + 4);
    u32_from_le_bytes(field)
}

/// Writes `value` as a little-endian `u32` field at byte offset `pos`.
pub fn write_u32_at(data: &mut Vec<u8>, pos: usize, value: u32)
    requires
        pos + 4 <= old(data).len(),
    ensures
        final(data)@ == seq_write(old(data)@, pos as int, spec_u32_to_le_bytes(value)),
        final(data).len() == old(data).len(),
{
    let bytes = u32_to_le_bytes(value);
    data.set(pos, bytes[0]);
    data.set(pos + 1, bytes[1]);
    data.set(pos + 2, bytes[2]);
    data.set(pos + 3, bytes[3]);
    proof {
        assert(data@ =~= seq_write(old(data)@, pos as int, spec_u32_to_le_bytes(value)));
    }
}

/// Copies all of `src` into `data` starting at byte offset `pos`.
pub fn write_bytes_at(data: &mut Vec<u8>, pos: usize, src: &[u8])
    requires
        pos + src.len() <= old(data).len(),
    ensures
        final(data)@ == seq_write(old(data)@, pos as int, src@),
        final(data).len() == old(data).len(),
{
    let mut i: usize = 0;
    while i < src.len()
        invariant
            i <= src.len(),
            pos + src.len() <= data.len(),
            data.len() == old(data).len(),
            forall|j: int| 0 <= j < i ==> data@[pos + j] == src@[j],
            forall|j: int| 0 <= j < data.len() && !(pos <= j < pos + i) ==> data@[j] == old(data)@[j],
        decreases src.len() - i,
    {
        let b = *vstd::slice::slice_index_get(src, i);
        data.set(pos + i, b);
        i += 1;
    }
    proof {
        assert(data@ =~= seq_write(old(data)@, pos as int, src@));
    }
}

/// A byte vector's deep view is its view: the elements are plain bytes.
pub broadcast proof fn lemma_bytes_deep_view(v: Vec<u8>)
    ensures
        #[trigger] v.deep_view() == v@,
{
    assert(v.deep_view() =~= v@);
}

/// A buffer of `n` zero bytes.
pub fn zero_bytes(n: usize) -> (r: Vec<u8>)
    ensures
        r@ == Seq::new(n as nat, |i: int| 0u8),
{
    let mut v: Vec<u8> = Vec::new();
    let mut i: usize = 0;
    while i < n
        invariant
            i <= n,
            v@ == Seq::new(i as nat, |j: int| 0u8),
        decreases n - i,
    {
        v.push(0u8);
        proof {
            assert(v@ =~= Seq::new((i + 1) as nat, |j: int| 0u8));
        }
        i += 1;
    }
    v
}

} // verus!
