//! CSV input handling on raw bytes: line splitting, comma splitting, and
//! whitespace trimming.
//!
//! The loader treats CSV content as bytes: it is split into lines on line
//! feeds (a trailing carriage return per line is dropped), each line is
//! split on commas, and each field is trimmed of surrounding ASCII
//! whitespace before it is matched positionally against the schema.

use vstd::prelude::*;
use vstd::slice::{slice_subrange, slice_to_vec};
use crate::codec::BYTE_SPACE;
use crate::layout::lemma_bytes_deep_view;

verus! {

broadcast use lemma_bytes_deep_view;

pub const BYTE_TAB: u8 = 9;

pub const BYTE_LF: u8 = 10;

pub const BYTE_CR: u8 = 13;

pub const BYTE_COMMA: u8 = 44;

/// ASCII whitespace, as trimmed from CSV fields.
pub open spec fn is_ws(b: u8) -> bool {
    b == BYTE_SPACE || b == BYTE_TAB || b == BYTE_CR || b == BYTE_LF
}

/// `s` split at every occurrence of `sep`. Splitting never yields an empty
/// list: an empty input is one empty field.
pub open spec fn spec_split(s: Seq<u8>, sep: u8) -> Seq<Seq<u8>>
    decreases s.len(),
{
    if s.len() == 0 {
        seq![Seq::<u8>::empty()]
    } else if s[0] == sep {
        seq![Seq::<u8>::empty()] + spec_split(s.drop_first(), sep)
    } else {
        let rest = spec_split(s.drop_first(), sep);
        seq![seq![s[0]] + rest[0]] + rest.drop_first()
    }
}

pub proof fn lemma_split_nonempty(s: Seq<u8>, sep: u8)
    ensures
        spec_split(s, sep).len() >= 1,
    decreases s.len(),
{
    if s.len() > 0 {
        lemma_split_nonempty(s.drop_first(), sep);
    }
}

/// Leading ASCII whitespace removed.
pub open spec fn spec_trim_front(s: Seq<u8>) -> Seq<u8>
    decreases s.len(),
{
    if s.len() > 0 && is_ws(s[0]) {
        spec_trim_front(s.drop_first())
    } else {
        s
    }
}

/// Trailing ASCII whitespace removed.
pub open spec fn spec_trim_back(s: Seq<u8>) -> Seq<u8>
    decreases s.len(),
{
    if s.len() > 0 && is_ws(s.last()) {
        spec_trim_back(s.drop_last())
    } else {
        s
    }
}

/// Surrounding ASCII whitespace removed.
pub open spec fn spec_trim(s: Seq<u8>) -> Seq<u8> {
    spec_trim_front(spec_trim_back(s))
}

/// Whether one byte is ASCII whitespace.
pub fn byte_is_ws(b: u8) -> (r: bool)
    ensures
        r == is_ws(b),
{
    b == BYTE_SPACE || b == BYTE_TAB || b == BYTE_CR || b == BYTE_LF
}

/// Removes surrounding ASCII whitespace from a byte string.
pub fn trim_bytes(v: &Vec<u8>) -> (r: Vec<u8>)
    ensures
        r@ == spec_trim(v@),
{
    let mut hi = v.len();
    proof {
        assert(v@.take(hi as int) =~= v@);
    }
    while hi > 0 && byte_is_ws(v[hi - 1])
        invariant
            hi <= v.len(),
            spec_trim_back(v@) == spec_trim_back(v@.take(hi as int)),
        decreases hi,
    {
        proof {
            assert(v@.take(hi as int).last() == v@[hi - 1]);
            assert(v@.take(hi as int).drop_last() =~= v@.take(hi - 1));
        }
        hi -= 1;
    }
    proof {
        if hi > 0 {
            assert(v@.take(hi as int).last() == v@[hi - 1]);
        }
        assert(spec_trim_back(v@) == v@.take(hi as int));
    }
    let ghost back = v@.take(hi as int);
    let mut lo: usize = 0;
    proof {
        assert(back.subrange(0, hi as int) =~= back);
    }
    while lo < hi && byte_is_ws(v[lo])
        invariant
            lo <= hi <= v.len(),
            back == v@.take(hi as int),
            spec_trim_front(back) == spec_trim_front(back.subrange(lo as int, hi as int)),
        decreases hi - lo,
    {
        proof {
            assert(back.subrange(lo as int, hi as int)[0] == v@[lo as int]);
            assert(back.subrange(lo as int, hi as int).drop_first() =~= back.subrange(
                lo + 1,
                hi as int,
            ));
        }
        lo += 1;
    }
    proof {
        if lo < hi {
            assert(back.subrange(lo as int, hi as int)[0] == v@[lo as int]);
        } else {
            assert(back.subrange(lo as int, hi as int) =~= Seq::<u8>::empty());
        }
        assert(spec_trim_front(back) == back.subrange(lo as int, hi as int));
        assert(back.subrange(lo as int, hi as int) =~= v@.subrange(lo as int, hi as int));
    }
    slice_to_vec(slice_subrange(v.as_slice(), lo, hi))
}

/// Whether a line holds nothing but ASCII whitespace.
pub open spec fn spec_is_blank(s: Seq<u8>) -> bool {
    spec_trim(s).len() == 0
}

/// Whether a line holds nothing but ASCII whitespace; such CSV lines are
/// passed over.
pub fn is_blank_line(v: &Vec<u8>) -> (r: bool)
    ensures
        r == spec_is_blank(v@),
{
    let t = trim_bytes(v);
    t.len() == 0
}

/// The comma-separated fields of one line, each trimmed.
pub open spec fn spec_fields(line: Seq<u8>) -> Seq<Seq<u8>> {
    spec_split(line, BYTE_COMMA).map_values(|f: Seq<u8>| spec_trim(f))
}

/// Splits a CSV line on commas and trims each field.
pub fn split_fields(line: &Vec<u8>) -> (r: Vec<Vec<u8>>)
    ensures
        r.deep_view() == spec_fields(line@),
{
    let fields = split_bytes(line, BYTE_COMMA);
    let mut out: Vec<Vec<u8>> = Vec::new();
    let mut i: usize = 0;
    let ghost raw = spec_split(line@, BYTE_COMMA);
    while i < fields.len()
        invariant
            i <= fields.len(),
            fields.deep_view() == raw,
            raw.len() == fields.len(),
            out.len() == i,
            forall|j: int| 0 <= j < i ==> out.deep_view()[j] == spec_trim(raw[j]),
        decreases fields.len() - i,
    {
        let t = trim_bytes(&fields[i]);
        let ghost prev = out@;
        let ghost prev_deep = out.deep_view();
        let ghost tv = t@;
        proof {
            assert(fields.deep_view()[i as int] == fields@[i as int]@);
            assert(tv == spec_trim(raw[i as int]));
        }
        out.push(t);
        proof {
            assert forall|j: int| 0 <= j < i + 1 implies out.deep_view()[j] == spec_trim(raw[j])
            by {
                assert(out.deep_view()[j] == out@[j].deep_view());
                if j < i {
                    assert(out@[j] == prev[j]);
                    assert(prev_deep[j] == prev[j].deep_view());
                    assert(prev_deep[j] == spec_trim(raw[j]));
                } else {
                    assert(out@[j]@ == tv);
                    assert(out@[j].deep_view() =~= out@[j]@);
                }
            }
        }
        i += 1;
    }
    proof {
        assert(out.deep_view() =~= spec_fields(line@));
    }
    out
}

/// Splits a byte string at every occurrence of `sep`.
pub fn split_bytes(s: &Vec<u8>, sep: u8) -> (r: Vec<Vec<u8>>)
    ensures
        r.deep_view() == spec_split(s@, sep),
{
    let mut out: Vec<Vec<u8>> = Vec::new();
    let mut cur: Vec<u8> = Vec::new();
    let mut i: usize = 0;
    let ghost full = spec_split(s@, sep);
    proof {
        assert(s@.skip(0) =~= s@);
    }
    while i < s.len()
        invariant
            i <= s.len(),
            full == spec_split(s@, sep),
            spec_split(s@.skip(i as int), sep).len() >= 1,
            full =~= out.deep_view() + seq![cur@ + spec_split(s@.skip(i as int), sep)[0]]
                + spec_split(s@.skip(i as int), sep).drop_first(),
        decreases s.len() - i,
    {
        let ghost pre = spec_split(s@.skip(i as int), sep);
        let ghost post = spec_split(s@.skip(i + 1), sep);
        proof {
            lemma_split_nonempty(s@.skip(i + 1), sep);
            assert(s@.skip(i as int)[0] == s@[i as int]);
            assert(s@.skip(i as int).drop_first() =~= s@.skip(i + 1));
        }
        let b = s[i];
        if b == sep {
            let ghost old_out = out.deep_view();
            let ghost old_cur = cur@;
            out.push(cur);
            cur = Vec::new();
            proof {
                assert(pre =~= seq![Seq::<u8>::empty()] + post);
                assert(pre[0] =~= Seq::<u8>::empty());
                assert(pre.drop_first() =~= post);
                assert(old_cur + pre[0] =~= old_cur);
                assert(out.deep_view() =~= old_out.push(old_cur));
                assert(cur@ + post[0] =~= post[0]);
                assert(full =~= out.deep_view() + seq![cur@ + post[0]] + post.drop_first());
            }
        } else {
            let ghost old_cur = cur@;
            cur.push(b);
            proof {
                assert(pre =~= seq![seq![s@[i as int]] + post[0]] + post.drop_first());
                assert(cur@ + post[0] =~= old_cur + pre[0]);
                assert(full =~= out.deep_view() + seq![cur@ + post[0]] + post.drop_first());
            }
        }
        i += 1;
    }
    proof {
        assert(s@.skip(s@.len() as int) =~= Seq::<u8>::empty());
        assert(spec_split(s@.skip(s@.len() as int), sep) =~= seq![Seq::<u8>::empty()]);
    }
    let ghost old_out = out.deep_view();
    let ghost last = cur@;
    out.push(cur);
    proof {
        assert(out.deep_view() =~= old_out.push(last));
        assert(last + spec_split(s@.skip(s@.len() as int), sep)[0] =~= last);
        assert(out.deep_view() =~= full);
    }
    out
}

/// One trailing carriage return removed, as a line reader does for CRLF
/// line endings.
pub open spec fn spec_strip_cr(line: Seq<u8>) -> Seq<u8> {
    if line.len() > 0 && line.last() == BYTE_CR {
        line.drop_last()
    } else {
        line
    }
}

/// The lines of a CSV file: its bytes split on line feeds, with one
/// trailing carriage return per line dropped.
pub open spec fn spec_lines(text: Seq<u8>) -> Seq<Seq<u8>> {
    spec_split(text, BYTE_LF).map_values(|line: Seq<u8>| spec_strip_cr(line))
}

/// Splits file content into lines on line feeds, dropping one trailing
/// carriage return per line.
pub fn split_lines(text: &Vec<u8>) -> (r: Vec<Vec<u8>>)
    ensures
        r.deep_view() == spec_lines(text@),
{
    let raw_lines = split_bytes(text, BYTE_LF);
    let mut out: Vec<Vec<u8>> = Vec::new();
    let mut i: usize = 0;
    let ghost raw = spec_split(text@, BYTE_LF);
    while i < raw_lines.len()
        invariant
            i <= raw_lines.len(),
            raw_lines.deep_view() == raw,
            raw.len() == raw_lines.len(),
            out.len() == i,
            forall|j: int| 0 <= j < i ==> out.deep_view()[j] == spec_strip_cr(raw[j]),
        decreases raw_lines.len() - i,
    {
        let src = &raw_lines[i];
        proof {
            assert(raw_lines.deep_view()[i as int] == raw_lines@[i as int]@);
        }
        let n = src.len();
        let line: Vec<u8> = if n > 0 && src[n - 1] == BYTE_CR {
            let stripped = slice_to_vec(slice_subrange(src.as_slice(), 0, n - 1));
            proof {
                assert(stripped@ =~= src@.drop_last());
            }
            stripped
        } else {
            slice_to_vec(src.as_slice())
        };
        let ghost prev = out@;
        let ghost prev_deep = out.deep_view();
        let ghost lv = line@;
        proof {
            assert(lv == spec_strip_cr(raw[i as int]));
        }
        out.push(line);
        proof {
            assert forall|j: int| 0 <= j < i + 1 implies out.deep_view()[j] == spec_strip_cr(
                raw[j],
            ) by {
                assert(out.deep_view()[j] == out@[j].deep_view());
                if j < i {
                    assert(out@[j] == prev[j]);
                    assert(prev_deep[j] == prev[j].deep_view());
                    assert(prev_deep[j] == spec_strip_cr(raw[j]));
                } else {
                    assert(out@[j]@ == lv);
                    assert(out@[j].deep_view() =~= out@[j]@);
                }
            }
        }
        i += 1;
    }
    proof {
        assert(out.deep_view() =~= spec_lines(text@));
    }
    out
}

} // verus!
