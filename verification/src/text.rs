//! Char-indexed queries over text: substring extraction by char range, and
//! the conversion between char indices and UTF-8 byte offsets.

use vstd::prelude::*;

use crate::ranges::{resolve_end, resolve_start, span_resolvable, CharSpan};
use vstd::string::StrSliceExecFns;
use vstd::utf8::encode_scalar;

verus! {

/// A char range `[start, end)` can be extracted from a text of `len` chars:
/// it is non-empty and lies within the text.
pub open spec fn extract_ok(len: int, start: int, end: int) -> bool {
    !(start >= len || end > len || start >= end)
}

/// The substring of `s` at the char range `[start, end)`, or nothing when
/// the range is out of bounds or empty.
pub open spec fn extract_at(s: Seq<char>, start: int, end: int) -> Option<Seq<char>> {
    if extract_ok(s.len() as int, start, end) {
        Some(s.subrange(start, end))
    } else {
        None
    }
}

/// The substring of `s` at a possibly unbounded char range.
pub open spec fn extracted(s: Seq<char>, sp: CharSpan) -> Option<Seq<char>> {
    extract_at(s, resolve_start(sp.start), resolve_end(sp.end, s.len() as int))
}

/// Extract the substring at a resolved char range, or nothing when the range
/// is out of bounds or empty.
pub(crate) fn get_range_resolved<'a>(s: &'a str, start: usize, end: usize) -> (r: Option<&'a str>)
    ensures
        match r {
            Some(t) => extract_at(s@, start as int, end as int) == Some(t@),
            None => extract_at(s@, start as int, end as int) is None,
        },
{
    let len = s.unicode_len();
    if start >= len || end > len || start >= end {
        None
    } else {
        Some(s.substring_char(start, end))
    }
}

/// Returns a range of the given string slice, indexing chars instead of bytes.
pub fn get_range_of<'a>(s: &'a str, range: CharSpan) -> (r: Option<&'a str>)
    requires
        span_resolvable(range),
    ensures
        match r {
            Some(t) => extracted(s@, range) == Some(t@),
            None => extracted(s@, range) is None,
        },
{
    let len = s.unicode_len();
    let (start, end) = range.into_full_range(len);
    get_range_resolved(s, start, end)
}

/// The number of bytes of the UTF-8 encoding of one character.
pub open spec fn char_utf8_len(c: char) -> int {
    encode_scalar(c as u32).len() as int
}

/// The byte offset of char index `i` in the UTF-8 encoding of `s`.
pub open spec fn byte_index_of(s: Seq<char>, i: int) -> int
    decreases i,
{
    if i <= 0 {
        0
    } else {
        byte_index_of(s, i - 1) + char_utf8_len(s[i - 1])
    }
}

/// Each character encodes to between 1 and 4 bytes.
pub proof fn lemma_char_utf8_len(c: char)
    ensures
        1 <= char_utf8_len(c) <= 4,
{
    broadcast use vstd::utf8::char_is_scalar;

    assert(vstd::utf8::is_scalar(c as u32));
}

/// Byte offsets grow strictly with char indices.
pub proof fn lemma_byte_index_monotone(s: Seq<char>, i: int, j: int)
    requires
        0 <= i <= j <= s.len(),
    ensures
        byte_index_of(s, i) <= byte_index_of(s, j),
        i < j ==> byte_index_of(s, i) < byte_index_of(s, j),
    decreases j - i,
{
    if i < j {
        lemma_byte_index_monotone(s, i, j - 1);
        lemma_char_utf8_len(s[j - 1]);
    }
}

/// The byte offset of the end of a text is the length of its UTF-8 encoding.
pub proof fn lemma_byte_index_total(s: Seq<char>, i: int)
    requires
        0 <= i <= s.len(),
    ensures
        vstd::utf8::encode_utf8(s).len() == byte_index_of(s, s.len() as int),
        byte_index_of(s, i) <= byte_index_of(s, s.len() as int),
    decreases s.len(),
{
    if s.len() == 0 {
    } else {
        let t = s.drop_first();
        lemma_byte_index_total(t, if i <= 1 { 0 } else { i - 1 });
        assert forall|j: int| 0 < j <= s.len() implies byte_index_of(s, j) == char_utf8_len(s[0])
            + byte_index_of(t, j - 1) by {
            lemma_byte_index_shift(s, j);
        }
        assert(vstd::utf8::encode_utf8(s).len() == char_utf8_len(s[0]) + vstd::utf8::encode_utf8(
            t,
        ).len());
        if i > 0 {
        } else {
            lemma_byte_index_monotone(s, 0, s.len() as int);
        }
    }
}

proof fn lemma_byte_index_shift(s: Seq<char>, j: int)
    requires
        0 < j <= s.len(),
    ensures
        byte_index_of(s, j) == char_utf8_len(s[0]) + byte_index_of(s.drop_first(), j - 1),
    decreases j,
{
    let t = s.drop_first();
    if j > 1 {
        lemma_byte_index_shift(s, j - 1);
        assert(t[j - 2] == s[j - 1]);
        assert(byte_index_of(s, j) == byte_index_of(s, j - 1) + char_utf8_len(s[j - 1]));
        assert(byte_index_of(t, j - 1) == byte_index_of(t, j - 2) + char_utf8_len(t[j - 2]));
    } else {
        assert(byte_index_of(s, 1) == byte_index_of(s, 0) + char_utf8_len(s[0]));
        assert(byte_index_of(t, 0) == 0);
    }
}

/// Distinct char indices sit at distinct byte offsets.
pub proof fn lemma_byte_index_inj(s: Seq<char>, i: int, j: int)
    requires
        0 <= i <= s.len(),
        0 <= j <= s.len(),
        byte_index_of(s, i) == byte_index_of(s, j),
    ensures
        i == j,
{
    if i < j {
        lemma_byte_index_monotone(s, i, j);
    } else if j < i {
        lemma_byte_index_monotone(s, j, i);
    }
}

/// The char index sitting exactly at byte offset `bs`, provided that offset
/// is scanned (strictly before `be`).
pub open spec fn byte_start_char(s: Seq<char>, bs: int, be: int) -> Option<int> {
    if exists|i: int| 0 <= i < s.len() && byte_index_of(s, i) == bs && bs < be {
        Some(choose|i: int| 0 <= i < s.len() && byte_index_of(s, i) == bs && bs < be)
    } else {
        None
    }
}

/// One past the char index whose encoding ends exactly at byte offset `be`,
/// provided that char's own offset lies in `[bs, be)`.
pub open spec fn byte_end_char(s: Seq<char>, bs: int, be: int) -> Option<int> {
    if exists|i: int|
        0 <= i < s.len() && #[trigger] byte_index_of(s, i + 1) == be && bs <= byte_index_of(s, i)
            < be {
        Some(
            1 + choose|i: int|
                0 <= i < s.len() && #[trigger] byte_index_of(s, i + 1) == be && bs
                    <= byte_index_of(s, i) < be,
        )
    } else {
        None
    }
}

/// Convert a byte-indexed range over `s` into the char range it covers:
/// defined exactly when the start lies on a char boundary and the end right
/// after a char.
pub(crate) fn byte_char_span(s: &str, sp: CharSpan) -> (r: Option<(usize, usize)>)
    requires
        span_resolvable(sp),
    ensures
        ({
            let bs = resolve_start(sp.start);
            let be = resolve_end(sp.end, byte_index_of(s@, s@.len() as int));
            match r {
                Some(p) => byte_start_char(s@, bs, be) == Some(p.0 as int) && byte_end_char(
                    s@,
                    bs,
                    be,
                ) == Some(p.1 as int),
                None => byte_start_char(s@, bs, be) is None || byte_end_char(s@, bs, be) is None,
            }
        }),
{
    let ghost v = s@;
    let blen = s.as_bytes().len();
    proof {
        lemma_byte_index_total(v, 0);
        assert(blen as int == byte_index_of(v, v.len() as int));
    }
    let (bs, be) = sp.into_full_range(blen);
    let len = s.unicode_len();
    let mut start_opt: Option<usize> = None;
    let mut end_opt: Option<usize> = None;
    let mut b: usize = 0;
    let mut i: usize = 0;
    while i < len && b < be
        invariant
            i <= len,
            len == v.len(),
            v == s@,
            b as int == byte_index_of(v, i as int),
            blen as int == byte_index_of(v, v.len() as int),
            bs as int == resolve_start(sp.start),
            be as int == resolve_end(sp.end, byte_index_of(v, v.len() as int)),
            match start_opt {
                Some(cs) => 0 <= cs < i && byte_index_of(v, cs as int) == bs as int && (bs as int)
                    < be as int,
                None => forall|q: int|
                    0 <= q < i ==> !(byte_index_of(v, q) == bs as int && (bs as int) < be as int),
            },
            match end_opt {
                Some(ce) => 1 <= ce <= i && byte_index_of(v, ce as int) == be as int && bs as int
                    <= byte_index_of(v, ce as int - 1) < be as int,
                None => forall|q: int|
                    0 <= q < i ==> !(#[trigger] byte_index_of(v, q + 1) == be as int && bs as int
                        <= byte_index_of(v, q) < be as int),
            },
        decreases len - i,
    {
        let c = s.get_char(i);
        let w = utf8_len(c);
        proof {
            assert(byte_index_of(v, i as int + 1) == byte_index_of(v, i as int) + char_utf8_len(
                v[i as int],
            ));
            lemma_byte_index_monotone(v, i as int + 1, v.len() as int);
        }
        if b >= bs {
            if b == bs {
                start_opt = Some(i);
            }
            if b + w == be {
                end_opt = Some(i + 1);
            }
        }
        b = b + w;
        i = i + 1;
    }
    proof {
        assert forall|q: int| i <= q < v.len() implies byte_index_of(v, q) >= b as int by {
            lemma_byte_index_monotone(v, i as int, q);
        }
    }
    match (start_opt, end_opt) {
        (Some(cs), Some(ce)) => {
            proof {
                let w1 = choose|q: int|
                    0 <= q < v.len() && byte_index_of(v, q) == bs as int && (bs as int)
                        < be as int;
                lemma_byte_index_inj(v, w1, cs as int);
                assert(0 <= ce as int - 1 < v.len() && byte_index_of(v, ce as int - 1 + 1)
                    == be as int && bs as int <= byte_index_of(v, ce as int - 1) < be as int);
                let w2 = choose|q: int|
                    0 <= q < v.len() && #[trigger] byte_index_of(v, q + 1) == be as int
                        && bs as int <= byte_index_of(v, q) < be as int;
                lemma_byte_index_inj(v, w2 + 1, ce as int);
            }
            Some((cs, ce))
        },
        _ => {
            proof {
                assert forall|q: int| 0 <= q < v.len() implies !(byte_index_of(v, q) == bs as int
                    && (bs as int) < be as int) || !(start_opt is None) by {
                    if q >= i {
                        lemma_byte_index_monotone(v, i as int, q);
                    }
                }
                assert forall|q: int| 0 <= q < v.len() implies !(#[trigger] byte_index_of(v, q + 1)
                    == be as int && bs as int <= byte_index_of(v, q) < be as int) || !(end_opt
                    is None) by {
                    if q >= i {
                        lemma_byte_index_monotone(v, i as int, q);
                    }
                }
            }
            None
        },
    }
}

/// The number of bytes of the UTF-8 encoding of one character.
pub fn utf8_len(c: char) -> (r: usize)
    ensures
        r as int == char_utf8_len(c),
{
    proof {
        broadcast use vstd::utf8::char_is_scalar;

        assert(vstd::utf8::is_scalar(c as u32));
    }
    let u = c as u32;
    if u < 0x80 {
        1
    } else if u < 0x800 {
        2
    } else if u < 0x10000 {
        3
    } else {
        4
    }
}

} // verus!
