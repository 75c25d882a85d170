//! The mathematical model of alignment tables and of `(char, change)`
//! transform streams.
//!
//! An alignment table has one `(start, end)` entry per character of the
//! normalized text; the entry is the half-open char range of the original
//! text that the character was derived from.  A transform stream describes a
//! new normalized text: change `0` keeps one previous character, a positive
//! change inserts a character, and change `-n` keeps one previous character
//! and then drops `n`.

use vstd::prelude::*;

verus! {

/// One alignment entry: a half-open char range `[start, end)` of the original text.
pub type Align = (usize, usize);

/// Every entry is a well-formed range within an original text of `olen`
/// chars, and entries are monotonically non-decreasing in both endpoints.
pub open spec fn aligns_wf(a: Seq<Align>, olen: int) -> bool {
    &&& forall|i: int| 0 <= i < a.len() ==> (#[trigger] a[i]).0 <= a[i].1 <= olen
    &&& forall|i: int, j: int|
        #![trigger a[i], a[j]]
        0 <= i <= j < a.len() ==> a[i].0 <= a[j].0 && a[i].1 <= a[j].1
}

/// Sum of the change values of the first `i` stream items.
pub open spec fn offset_sum(d: Seq<(char, isize)>, i: int) -> int
    decreases i,
{
    if i <= 0 {
        0
    } else {
        offset_sum(d, i - 1) + d[i - 1].1
    }
}

/// The previous-text index that stream item `i` lines up with, for a stream
/// preceded by `k` characters deleted from the head of the previous text.
pub open spec fn stream_idx(d: Seq<(char, isize)>, k: int, i: int) -> int {
    i + k - offset_sum(d, i)
}

/// The stream can be applied to a previous text of `n` characters: no change
/// exceeds `1`, and every item lines up inside the previous text (an inserted
/// item may also line up just past its end).
pub open spec fn valid_stream(d: Seq<(char, isize)>, k: int, n: int) -> bool {
    forall|i: int|
        0 <= i < d.len() ==> {
            &&& (#[trigger] d[i]).1 <= 1
            &&& 0 <= stream_idx(d, k, i)
            &&& if d[i].1 > 0 {
                stream_idx(d, k, i) <= n
            } else {
                stream_idx(d, k, i) < n
            }
        }
}

/// The alignment entry chosen for stream item `i`: an inserted character
/// repeats the span of the preceding retained character (zero-width `(0, 0)`
/// at the very head), and every other character takes the entry it lines up
/// with.
pub open spec fn picked_align(a: Seq<Align>, d: Seq<(char, isize)>, k: int, i: int) -> Align {
    let idx = stream_idx(d, k, i);
    if d[i].1 > 0 {
        if idx < 1 {
            (0usize, 0usize)
        } else {
            a[idx - 1]
        }
    } else {
        a[idx]
    }
}

/// The alignment table after applying the stream to a table `a`.
pub open spec fn transformed_aligns(a: Seq<Align>, d: Seq<(char, isize)>, k: int) -> Seq<Align> {
    Seq::new(d.len(), |i: int| picked_align(a, d, k, i))
}

/// The characters of a stream, in order: the new normalized text.
pub open spec fn stream_chars(d: Seq<(char, isize)>) -> Seq<char> {
    Seq::new(d.len(), |i: int| d[i].0)
}

/// The stream that keeps a text unchanged: every character with change `0`.
pub open spec fn ident_stream(s: Seq<char>) -> Seq<(char, isize)> {
    Seq::new(s.len(), |i: int| (s[i], 0isize))
}

/// The subsequence of `s` at the positions where the mask holds.
pub open spec fn mask_select<T>(s: Seq<T>, m: Seq<bool>) -> Seq<T>
    recommends
        s.len() == m.len(),
    decreases s.len(),
{
    if s.len() == 0 || m.len() == 0 {
        Seq::empty()
    } else {
        mask_select(s.drop_last(), m.drop_last()) + if m.last() {
            seq![s.last()]
        } else {
            Seq::empty()
        }
    }
}

/// The text after replacing each char by its expansion under `f`.
pub open spec fn expand_text(s: Seq<char>, f: spec_fn(char) -> Seq<char>) -> Seq<char>
    decreases s.len(),
{
    if s.len() == 0 {
        Seq::empty()
    } else {
        expand_text(s.drop_last(), f) + f(s.last())
    }
}

/// The alignment table after replacing each char by its expansion under `f`:
/// each entry is repeated once per char of the expansion.
pub open spec fn expand_aligns(s: Seq<char>, a: Seq<Align>, f: spec_fn(char) -> Seq<char>) -> Seq<
    Align,
>
    recommends
        a.len() == s.len(),
    decreases s.len(),
{
    if s.len() == 0 {
        Seq::empty()
    } else {
        expand_aligns(s.drop_last(), a.drop_last(), f) + Seq::new(
            f(s.last()).len(),
            |j: int| a[s.len() - 1],
        )
    }
}

/// Expanding each char keeps the text and the table equally long and keeps
/// the table well-formed.
pub proof fn lemma_expand_wf(s: Seq<char>, a: Seq<Align>, f: spec_fn(char) -> Seq<char>, olen: int)
    requires
        aligns_wf(a, olen),
        a.len() == s.len(),
    ensures
        aligns_wf(expand_aligns(s, a, f), olen),
        expand_aligns(s, a, f).len() == expand_text(s, f).len(),
        a.len() > 0 ==> forall|i: int|
            0 <= i < expand_aligns(s, a, f).len() ==> (#[trigger] expand_aligns(s, a, f)[i]).0
                <= a.last().0 && expand_aligns(s, a, f)[i].1 <= a.last().1,
    decreases s.len(),
{
    let r = expand_aligns(s, a, f);
    if s.len() == 0 {
    } else {
        let sd = s.drop_last();
        let ad = a.drop_last();
        assert(aligns_wf(ad, olen));
        lemma_expand_wf(sd, ad, f, olen);
        let rd = expand_aligns(sd, ad, f);
        if ad.len() > 0 {
            assert(ad.last() == a[a.len() as int - 2]);
            assert(ad.last().0 <= a.last().0 && ad.last().1 <= a.last().1);
        }
        assert forall|i: int| 0 <= i < r.len() implies (#[trigger] r[i]).0 <= a.last().0 && r[i].1
            <= a.last().1 by {
            if i < rd.len() {
                assert(r[i] == rd[i]);
            } else {
                assert(r[i] == a.last());
            }
        }
        assert forall|i: int, j: int|
            #![trigger r[i], r[j]]
            0 <= i <= j < r.len() implies r[i].0 <= r[j].0 && r[i].1 <= r[j].1 by {
            if j < rd.len() {
                assert(r[i] == rd[i] && r[j] == rd[j]);
            } else if i < rd.len() {
                assert(r[i] == rd[i] && r[j] == a.last());
            }
        }
        assert forall|i: int| 0 <= i < r.len() implies (#[trigger] r[i]).0 <= r[i].1 <= olen by {
            if i < rd.len() {
                assert(r[i] == rd[i]);
            } else {
                assert(r[i] == a.last());
            }
        }
    }
}

/// The char count of the original text as range conversion sees it: the end
/// of the last alignment entry, or 0 for an empty table.
pub open spec fn orig_extent(a: Seq<Align>) -> int {
    if a.len() == 0 {
        0
    } else {
        a.last().1 as int
    }
}

/// The scan that converts a resolved original-referential range `[rs, re)`:
/// walk entries while `re >= entry.end`, taking as start the last index whose
/// entry starts at or left of `rs`, and as end one past the last index whose
/// entry ends at or left of `re`.
pub open spec fn scan_from(a: Seq<Align>, rs: int, re: int, i: int, acc: (usize, usize)) -> (
    usize,
    usize,
)
    decreases a.len() - i,
{
    if i < 0 || i >= a.len() || re < a[i].1 {
        acc
    } else {
        scan_from(
            a,
            rs,
            re,
            i + 1,
            (
                (if a[i].0 <= rs {
                    i as usize
                } else {
                    acc.0
                }),
                (if a[i].1 <= re {
                    (i + 1) as usize
                } else {
                    acc.1
                }),
            ),
        )
    }
}

/// Conversion of a resolved original-referential range into normalized
/// char offsets.
pub open spec fn convert_orig(a: Seq<Align>, rs: int, re: int) -> (usize, usize) {
    scan_from(a, rs, re, 0, (0usize, 0usize))
}

/// Along the scan the end stays within the table and counts only entries
/// that end at or left of `re`.
pub proof fn lemma_scan_from_props(a: Seq<Align>, rs: int, re: int, i: int, acc: (usize, usize))
    requires
        a.len() <= usize::MAX,
        0 <= i <= a.len(),
        acc.1 as int == i,
        forall|j: int| 0 <= j < acc.1 ==> (#[trigger] a[j]).1 <= re,
    ensures
        ({
            let c = scan_from(a, rs, re, i, acc);
            &&& c.1 as int <= a.len()
            &&& forall|j: int| 0 <= j < c.1 ==> (#[trigger] a[j]).1 <= re
        }),
    decreases a.len() - i,
{
    if i < a.len() && re >= a[i].1 {
        let acc2 = (
            (if a[i].0 <= rs {
                i as usize
            } else {
                acc.0
            }),
            (if a[i].1 <= re {
                (i + 1) as usize
            } else {
                acc.1
            }),
        );
        assert(acc2.1 as int == i + 1);
        lemma_scan_from_props(a, rs, re, i + 1, acc2);
    }
}

/// Conversion of a resolved normalized-referential range `[s, e)` into
/// original char offsets: defined exactly when the range is non-empty and in
/// bounds.
pub open spec fn convert_norm(a: Seq<Align>, s: int, e: int) -> Option<(usize, usize)> {
    if 0 <= s && s < e && e <= a.len() {
        Some((a[s].0, a[e - 1].1))
    } else {
        None
    }
}

pub proof fn lemma_stream_idx_step(d: Seq<(char, isize)>, k: int, i: int)
    requires
        0 <= i,
    ensures
        stream_idx(d, k, i + 1) == stream_idx(d, k, i) + 1 - d[i].1,
{
    assert(offset_sum(d, i + 1) == offset_sum(d, i) + d[i].1);
}

/// Line-up indices never move backwards along a valid stream.
pub proof fn lemma_stream_idx_monotone(d: Seq<(char, isize)>, k: int, n: int, i: int, j: int)
    requires
        valid_stream(d, k, n),
        0 <= i <= j <= d.len(),
    ensures
        stream_idx(d, k, i) <= stream_idx(d, k, j),
    decreases j - i,
{
    if i < j {
        lemma_stream_idx_monotone(d, k, n, i, j - 1);
        lemma_stream_idx_step(d, k, j - 1);
        assert(d[j - 1].1 <= 1);
    }
}

/// Applying a valid stream to a well-formed table yields a well-formed table.
pub proof fn lemma_transform_wf(a: Seq<Align>, d: Seq<(char, isize)>, k: int, olen: int)
    requires
        aligns_wf(a, olen),
        valid_stream(d, k, a.len() as int),
        olen >= 0,
    ensures
        aligns_wf(transformed_aligns(a, d, k), olen),
{
    let t = transformed_aligns(a, d, k);
    let n = a.len() as int;
    assert forall|i: int| 0 <= i < t.len() implies (#[trigger] t[i]).0 <= t[i].1 <= olen by {
        assert(t[i] == picked_align(a, d, k, i));
        let idx = stream_idx(d, k, i);
        if d[i].1 > 0 {
            if idx >= 1 {
                assert(t[i] == a[idx - 1]);
                assert(a[idx - 1].0 <= a[idx - 1].1 <= olen);
            }
        } else {
            assert(t[i] == a[idx]);
            assert(a[idx].0 <= a[idx].1 <= olen);
        }
    }
    assert forall|i: int, j: int|
        #![trigger t[i], t[j]]
        0 <= i <= j < t.len() implies t[i].0 <= t[j].0 && t[i].1 <= t[j].1 by {
        if i < j {
            lemma_stream_idx_monotone(d, k, n, i, j);
            lemma_stream_idx_step(d, k, i);
            lemma_stream_idx_monotone(d, k, n, i + 1, j);
            let xi = stream_idx(d, k, i);
            let xj = stream_idx(d, k, j);
            if d[i].1 > 0 {
                if d[j].1 > 0 {
                    assert(xi <= xj);
                } else {
                    assert(xi <= xj);
                }
            } else {
                assert(stream_idx(d, k, i + 1) == xi + 1 - d[i].1);
                assert(xi + 1 <= xj);
            }
        }
    }
}

proof fn lemma_offset_sum_zero(d: Seq<(char, isize)>, i: int)
    requires
        0 <= i <= d.len(),
        forall|j: int| 0 <= j < i ==> (#[trigger] d[j]).1 == 0,
    ensures
        offset_sum(d, i) == 0,
    decreases i,
{
    if i > 0 {
        lemma_offset_sum_zero(d, i - 1);
    }
}

/// The identity stream of a text is valid for it and leaves both the text
/// and any alignment table of the same length unchanged.
pub proof fn lemma_ident_stream(s: Seq<char>, a: Seq<Align>)
    requires
        a.len() == s.len(),
    ensures
        valid_stream(ident_stream(s), 0, s.len() as int),
        stream_chars(ident_stream(s)) == s,
        transformed_aligns(a, ident_stream(s), 0) == a,
{
    let d = ident_stream(s);
    assert forall|i: int| 0 <= i < d.len() implies (#[trigger] d[i]).1 == 0
        && stream_idx(d, 0, i) == i by {
        lemma_offset_sum_zero(d, i);
    }
    assert(stream_chars(d) =~= s);
    assert(transformed_aligns(a, d, 0) =~= a);
}

/// Two equally long sequences keep equal lengths under one mask.
pub proof fn lemma_mask_select_len<T, U>(s: Seq<T>, a: Seq<U>, m: Seq<bool>)
    requires
        s.len() == a.len(),
    ensures
        mask_select(s, m).len() == mask_select(a, m).len(),
        mask_select(s, m).len() <= s.len(),
    decreases s.len(),
{
    if s.len() != 0 && m.len() != 0 {
        lemma_mask_select_len(s.drop_last(), a.drop_last(), m.drop_last());
    }
}

/// Selecting by a mask preserves well-formedness of an alignment table.
pub proof fn lemma_mask_select_wf(a: Seq<Align>, m: Seq<bool>, olen: int)
    requires
        aligns_wf(a, olen),
    ensures
        aligns_wf(mask_select(a, m), olen),
        a.len() > 0 ==> forall|i: int|
            0 <= i < mask_select(a, m).len() ==> (#[trigger] mask_select(a, m)[i]).0
                <= a.last().0 && mask_select(a, m)[i].1 <= a.last().1,
    decreases a.len(),
{
    let r = mask_select(a, m);
    if a.len() == 0 || m.len() == 0 {
    } else {
        let ad = a.drop_last();
        let md = m.drop_last();
        assert(aligns_wf(ad, olen));
        lemma_mask_select_wf(ad, md, olen);
        let rd = mask_select(ad, md);
        if ad.len() > 0 {
            assert(ad.last() == a[a.len() as int - 2]);
            assert(ad.last().0 <= a.last().0 && ad.last().1 <= a.last().1);
        }
        assert forall|i: int| 0 <= i < r.len() implies (#[trigger] r[i]).0 <= a.last().0
            && r[i].1 <= a.last().1 by {
            if i < rd.len() {
                assert(r[i] == rd[i]);
            } else {
                assert(m.last() && r[i] == a.last());
            }
        }
        assert forall|i: int, j: int|
            #![trigger r[i], r[j]]
            0 <= i <= j < r.len() implies r[i].0 <= r[j].0 && r[i].1 <= r[j].1 by {
            if j < rd.len() {
                assert(r[i] == rd[i] && r[j] == rd[j]);
            } else if i < rd.len() {
                assert(m.last() && r[j] == a.last());
                assert(r[i] == rd[i]);
            }
        }
        assert forall|i: int| 0 <= i < r.len() implies (#[trigger] r[i]).0 <= r[i].1 <= olen by {
            if i < rd.len() {
                assert(r[i] == rd[i]);
            } else {
                assert(r[i] == a.last());
            }
        }
    }
}

} // verus!
