//! A `NormalizedString` keeps an original text, a normalized text derived
//! from it, and a per-character alignment from the normalized text back to
//! char ranges of the original text.

use vstd::prelude::*;

use crate::align::{
    aligns_wf, lemma_transform_wf, picked_align, stream_chars, stream_idx, transformed_aligns,
    valid_stream, Align,
};
use crate::align::{
    convert_norm, convert_orig, lemma_scan_from_props, lemma_stream_idx_step, orig_extent,
    scan_from,
};
use crate::align::{
    expand_aligns, expand_text, lemma_expand_wf, lemma_mask_select_len, lemma_mask_select_wf,
    mask_select,
};
use crate::unicode::{
    char_is_space, char_lower, char_upper, is_space, leading_spaces, lemma_leading_spaces_char,
    lemma_trailing_spaces_char, lower_aligns, lower_of, lower_text, trailing_spaces, upper_aligns,
    upper_of, upper_text,
};
use crate::ranges::{resolve_end, resolve_start, span_resolvable, CharSpan, Range};
use crate::ranges::RangeBound;
use crate::text::{
    byte_char_span, byte_end_char, byte_index_of, byte_start_char, extract_at, extract_ok,
    extracted, get_range_of, get_range_resolved,
};
use crate::unicode::{nfc_of, nfc_pairs, nfd_of, nfd_pairs, nfkc_of, nfkc_pairs, nfkd_of,
    nfkd_pairs, push_char};
use vstd::string::{StrSliceExecFns, StringExecFns};

verus! {

/// A string split in two views: the `original` text as given, the current
/// `normalized` text, and one alignment entry per normalized character
/// giving the char range of `original` it was derived from.
#[derive(Debug, Clone)]
pub struct NormalizedString {
    /// The original version of the string, before any modification.
    original: String,
    /// The normalized version of the string, after all modifications.
    normalized: String,
    /// For each character of the normalized string, the char range of the
    /// original string it maps back to.
    alignments: Vec<(usize, usize)>,
}

impl NormalizedString {
    /// The characters of the original text.
    pub closed spec fn orig(&self) -> Seq<char> {
        self.original@
    }

    /// The characters of the normalized text.
    pub closed spec fn norm(&self) -> Seq<char> {
        self.normalized@
    }

    /// The alignment table.
    pub closed spec fn aligns(&self) -> Seq<Align> {
        self.alignments@
    }

    /// The invariants of the type: one alignment entry per normalized
    /// character, every entry a range within the original text, and entries
    /// monotonically non-decreasing.
    pub open spec fn well_formed(&self) -> bool {
        &&& self.aligns().len() == self.norm().len()
        &&& aligns_wf(self.aligns(), self.orig().len() as int)
    }

    /// The identity alignment table of a text of `len` chars.
    pub open spec fn ident_aligns(len: nat) -> Seq<Align> {
        Seq::new(len, |i: int| ((i as usize, (i + 1) as usize)))
    }

    /// Create a NormalizedString from the given str.
    pub fn from(s: &str) -> (r: NormalizedString)
        ensures
            r.orig() == s@,
            r.norm() == s@,
            r.aligns() == Self::ident_aligns(s@.len()),
            r.well_formed(),
    {
        let len = s.unicode_len();
        let mut alignments: Vec<(usize, usize)> = Vec::new();
        let mut i: usize = 0;
        while i < len
            invariant
                i <= len,
                len == s@.len(),
                alignments@ == Self::ident_aligns(i as nat),
            decreases len - i,
        {
            alignments.push((i, i + 1));
            i = i + 1;
            proof {
                assert(alignments@ =~= Self::ident_aligns(i as nat));
            }
        }
        let r = NormalizedString {
            original: s.to_owned(),
            normalized: s.to_owned(),
            alignments,
        };
        proof {
            assert(aligns_wf(r.aligns(), r.orig().len() as int));
        }
        r
    }

    /// Return the normalized string.
    pub fn get(&self) -> (r: &str)
        ensures
            r@ == self.norm(),
    {
        self.normalized.as_str()
    }

    /// Return the original string.
    pub fn get_original(&self) -> (r: &str)
        ensures
            r@ == self.orig(),
    {
        self.original.as_str()
    }

    /// Returns the length of the normalized string (counting chars not bytes).
    pub fn len(&self) -> (r: usize)
        ensures
            r == self.norm().len(),
    {
        self.normalized.as_str().unicode_len()
    }

    /// Returns the length of the original string (counting chars not bytes).
    pub fn len_original(&self) -> (r: usize)
        ensures
            r == self.orig().len(),
    {
        self.original.as_str().unicode_len()
    }

    /// Whether the normalized string is empty.
    pub fn is_empty(&self) -> (r: bool)
        ensures
            r == (self.norm().len() == 0),
    {
        self.normalized.as_str().is_empty()
    }

    /// The alignment table, one `(start, end)` entry per normalized character.
    pub fn alignments(&self) -> (r: Vec<(usize, usize)>)
        ensures
            r@ == self.aligns(),
    {
        let mut r: Vec<(usize, usize)> = Vec::new();
        let len = self.alignments.len();
        let mut i: usize = 0;
        while i < len
            invariant
                i <= len,
                len == self.aligns().len(),
                r@ == self.aligns().take(i as int),
            decreases len - i,
        {
            r.push(self.alignments[i]);
            i = i + 1;
            proof {
                assert(r@ =~= self.aligns().take(i as int));
            }
        }
        proof {
            assert(self.aligns().take(len as int) =~= self.aligns());
        }
        r
    }

    /// Convert the given offsets range from one referential to the other one:
    /// `Original => Normalized` or `Normalized => Original`.
    pub fn convert_offsets(&self, range: Range) -> (r: Option<(usize, usize)>)
        requires
            span_resolvable(range.spec_span()),
        ensures
            match range {
                Range::Original(sp) => r == Some(
                    convert_orig(
                        self.aligns(),
                        resolve_start(sp.start),
                        resolve_end(sp.end, orig_extent(self.aligns())),
                    ),
                ),
                Range::Normalized(sp) => r == convert_norm(
                    self.aligns(),
                    resolve_start(sp.start),
                    resolve_end(sp.end, self.aligns().len() as int),
                ),
            },
    {
        let ghost a = self.aligns();
        match range {
            Range::Original(sp) => {
                let n = self.alignments.len();
                let max_len: usize = if n == 0 {
                    0
                } else {
                    self.alignments[n - 1].1
                };
                let (rs, re) = sp.into_full_range(max_len);
                let mut start: usize = 0;
                let mut end: usize = 0;
                let mut i: usize = 0;
                while i < n && re >= self.alignments[i].1
                    invariant
                        i <= n,
                        n == a.len(),
                        self.aligns() == a,
                        convert_orig(a, rs as int, re as int) == scan_from(
                            a,
                            rs as int,
                            re as int,
                            i as int,
                            (start, end),
                        ),
                    decreases n - i,
                {
                    if self.alignments[i].0 <= rs {
                        start = i;
                    }
                    if self.alignments[i].1 <= re {
                        end = i + 1;
                    }
                    i = i + 1;
                }
                Some((start, end))
            }
            Range::Normalized(sp) => {
                let n = self.alignments.len();
                let (s, e) = sp.into_full_range(n);
                if s < e && e <= n {
                    Some((self.alignments[s].0, self.alignments[e - 1].1))
                } else {
                    None
                }
            }
        }
    }

    /// Return a range of the normalized string (indexing on char not bytes).
    pub fn get_range(&self, range: Range) -> (r: Option<&str>)
        requires
            span_resolvable(range.spec_span()),
        ensures
            match range {
                Range::Original(sp) => {
                    let c = convert_orig(
                        self.aligns(),
                        resolve_start(sp.start),
                        resolve_end(sp.end, orig_extent(self.aligns())),
                    );
                    match r {
                        Some(t) => extract_at(self.norm(), c.0 as int, c.1 as int) == Some(t@),
                        None => extract_at(self.norm(), c.0 as int, c.1 as int) is None,
                    }
                },
                Range::Normalized(sp) => match r {
                    Some(t) => extracted(self.norm(), sp) == Some(t@),
                    None => extracted(self.norm(), sp) is None,
                },
            },
    {
        match range {
            Range::Original(_) => match self.convert_offsets(range) {
                Some((cs, ce)) => get_range_resolved(self.normalized.as_str(), cs, ce),
                None => None,
            },
            Range::Normalized(sp) => get_range_of(self.normalized.as_str(), sp),
        }
    }

    /// Return a range of the original string (indexing on char not bytes).
    pub fn get_range_original(&self, range: Range) -> (r: Option<&str>)
        requires
            span_resolvable(range.spec_span()),
        ensures
            match range {
                Range::Original(sp) => match r {
                    Some(t) => extracted(self.orig(), sp) == Some(t@),
                    None => extracted(self.orig(), sp) is None,
                },
                Range::Normalized(sp) => {
                    let c = convert_norm(
                        self.aligns(),
                        resolve_start(sp.start),
                        resolve_end(sp.end, self.aligns().len() as int),
                    );
                    match (r, c) {
                        (Some(t), Some(p)) => extract_at(self.orig(), p.0 as int, p.1 as int)
                            == Some(t@),
                        (None, Some(p)) => extract_at(self.orig(), p.0 as int, p.1 as int)
                            is None,
                        (None, None) => true,
                        (Some(t), None) => false,
                    }
                },
            },
    {
        match range {
            Range::Original(sp) => get_range_of(self.original.as_str(), sp),
            Range::Normalized(_) => match self.convert_offsets(range) {
                Some((cs, ce)) => get_range_resolved(self.original.as_str(), cs, ce),
                None => None,
            },
        }
    }

    /// Applies a transformation stream to the current normalized version,
    /// rebasing the alignments onto the previous ones.  The stream yields
    /// each char of the new normalized string with a change of `1` for an
    /// inserted char, `-n` for a char right before `n` removed chars, and `0`
    /// for a char that represents the old one (even if changed);
    /// `initial_offset` is the number of chars removed from the very
    /// beginning.
    pub fn transform(&mut self, dest: Vec<(char, isize)>, initial_offset: usize)
        requires
            old(self).well_formed(),
            valid_stream(dest@, initial_offset as int, old(self).aligns().len() as int),
        ensures
            final(self).orig() == old(self).orig(),
            final(self).norm() == stream_chars(dest@),
            final(self).aligns() == transformed_aligns(
                old(self).aligns(),
                dest@,
                initial_offset as int,
            ),
            final(self).well_formed(),
    {
        let ghost d = dest@;
        let ghost k = initial_offset as int;
        let ghost a = self.alignments@;
        let n = self.alignments.len();
        let len = dest.len();
        let mut new_norm = String::new();
        let mut new_aligns: Vec<(usize, usize)> = Vec::new();
        let mut idx: usize = initial_offset;
        let mut i: usize = 0;
        while i < len
            invariant
                i <= len,
                len == d.len(),
                dest@ == d,
                n == a.len(),
                *self == *old(self),
                self.alignments@ == a,
                valid_stream(d, k, n as int),
                i < len ==> idx as int == stream_idx(d, k, i as int),
                new_norm@ == stream_chars(d).take(i as int),
                new_aligns@ == transformed_aligns(a, d, k).take(i as int),
            decreases len - i,
        {
            let (c, change) = dest[i];
            proof {
                assert(d[i as int].1 <= 1);
                assert(idx as int == stream_idx(d, k, i as int));
            }
            let align: (usize, usize) = if change > 0 {
                if idx < 1 {
                    (0usize, 0usize)
                } else {
                    self.alignments[idx - 1]
                }
            } else {
                self.alignments[idx]
            };
            proof {
                assert(align == picked_align(a, d, k, i as int));
            }
            push_char(&mut new_norm, c);
            new_aligns.push(align);
            if i + 1 < len {
                proof {
                    lemma_stream_idx_step(d, k, i as int);
                    assert(d[i as int + 1].1 <= 1);
                    assert(0 <= stream_idx(d, k, i as int + 1) <= n as int);
                }
                let next: i128 = idx as i128 + 1 - (change as i128);
                proof {
                    assert(next == stream_idx(d, k, i as int + 1));
                    assert(0 <= next <= usize::MAX as i128);
                }
                idx = next as usize;
            }
            i = i + 1;
            proof {
                assert(new_norm@ =~= stream_chars(d).take(i as int));
                assert(new_aligns@ =~= transformed_aligns(a, d, k).take(i as int));
            }
        }
        proof {
            assert(stream_chars(d).take(len as int) =~= stream_chars(d));
            assert(transformed_aligns(a, d, k).take(len as int) =~= transformed_aligns(a, d, k));
            lemma_transform_wf(a, d, k, self.original@.len() as int);
        }
        self.normalized = new_norm;
        self.alignments = new_aligns;
    }

    /// Applies NFD normalization.
    pub fn nfd(&mut self)
        requires
            old(self).well_formed(),
        ensures
            final(self).orig() == old(self).orig(),
            final(self).norm() == stream_chars(nfd_of(old(self).norm())),
            final(self).aligns() == transformed_aligns(
                old(self).aligns(),
                nfd_of(old(self).norm()),
                0,
            ),
            final(self).well_formed(),
            stream_chars(nfd_of(final(self).norm())) == final(self).norm(),
    {
        let dest = nfd_pairs(self.normalized.as_str());
        self.transform(dest, 0);
    }

    /// Applies NFKD normalization.
    pub fn nfkd(&mut self)
        requires
            old(self).well_formed(),
        ensures
            final(self).orig() == old(self).orig(),
            final(self).norm() == stream_chars(nfkd_of(old(self).norm())),
            final(self).aligns() == transformed_aligns(
                old(self).aligns(),
                nfkd_of(old(self).norm()),
                0,
            ),
            final(self).well_formed(),
            stream_chars(nfkd_of(final(self).norm())) == final(self).norm(),
    {
        let dest = nfkd_pairs(self.normalized.as_str());
        self.transform(dest, 0);
    }

    /// Applies NFC normalization.
    pub fn nfc(&mut self)
        requires
            old(self).well_formed(),
        ensures
            final(self).orig() == old(self).orig(),
            final(self).norm() == stream_chars(nfc_of(old(self).norm())),
            final(self).aligns() == transformed_aligns(
                old(self).aligns(),
                nfc_of(old(self).norm()),
                0,
            ),
            final(self).well_formed(),
            stream_chars(nfc_of(final(self).norm())) == final(self).norm(),
    {
        let dest = nfc_pairs(self.normalized.as_str());
        self.transform(dest, 0);
    }

    /// Applies NFKC normalization.
    pub fn nfkc(&mut self)
        requires
            old(self).well_formed(),
        ensures
            final(self).orig() == old(self).orig(),
            final(self).norm() == stream_chars(nfkc_of(old(self).norm())),
            final(self).aligns() == transformed_aligns(
                old(self).aligns(),
                nfkc_of(old(self).norm()),
                0,
            ),
            final(self).well_formed(),
            stream_chars(nfkc_of(final(self).norm())) == final(self).norm(),
    {
        let dest = nfkc_pairs(self.normalized.as_str());
        self.transform(dest, 0);
    }
    /// Applies filtering over our characters: keeps exactly the characters
    /// that `keep` accepts, each with its previous alignment entry.
    pub fn filter<F: Fn(char) -> bool>(&mut self, keep: F)
        requires
            old(self).well_formed(),
            forall|i: int|
                0 <= i < old(self).norm().len() ==> call_requires(keep, (old(self).norm()[i],)),
        ensures
            final(self).orig() == old(self).orig(),
            final(self).well_formed(),
            exists|m: Seq<bool>|
                #![auto]
                {
                    &&& m.len() == old(self).norm().len()
                    &&& (forall|i: int|
                        0 <= i < m.len() ==> call_ensures(keep, (old(self).norm()[i],), m[i]))
                    &&& final(self).norm() == mask_select(old(self).norm(), m)
                    &&& final(self).aligns() == mask_select(old(self).aligns(), m)
                },
    {
        let ghost s = self.normalized@;
        let ghost a = self.alignments@;
        let ghost mut m: Seq<bool> = Seq::empty();
        let len = self.normalized.as_str().unicode_len();
        let mut new_norm = String::new();
        let mut new_aligns: Vec<(usize, usize)> = Vec::new();
        let mut i: usize = 0;
        while i < len
            invariant
                i <= len,
                len == s.len(),
                a.len() == s.len(),
                *self == *old(self),
                self.normalized@ == s,
                self.alignments@ == a,
                forall|j: int| 0 <= j < s.len() ==> call_requires(keep, (s[j],)),
                m.len() == i as nat,
                forall|j: int| 0 <= j < i ==> call_ensures(keep, (s[j],), #[trigger] m[j]),
                new_norm@ == mask_select(s.take(i as int), m),
                new_aligns@ == mask_select(a.take(i as int), m),
            decreases len - i,
        {
            let c = self.normalized.as_str().get_char(i);
            let b = keep(c);
            if b {
                push_char(&mut new_norm, c);
                new_aligns.push(self.alignments[i]);
            }
            proof {
                let m0 = m;
                m = m0.push(b);
                assert(m.drop_last() =~= m0);
                assert(s.take(i as int + 1).drop_last() =~= s.take(i as int));
                assert(a.take(i as int + 1).drop_last() =~= a.take(i as int));
                assert(s.take(i as int + 1).last() == s[i as int]);
                assert(a.take(i as int + 1).last() == a[i as int]);
                assert(new_norm@ =~= mask_select(s.take(i as int + 1), m));
                assert(new_aligns@ =~= mask_select(a.take(i as int + 1), m));
            }
            i = i + 1;
        }
        proof {
            assert(s.take(len as int) =~= s);
            assert(a.take(len as int) =~= a);
            lemma_mask_select_len(s, a, m);
            lemma_mask_select_wf(a, m, self.original@.len() as int);
        }
        self.normalized = new_norm;
        self.alignments = new_aligns;
    }

    /// Map our characters, one for one; the alignments are unchanged.
    pub fn map<F: Fn(char) -> char>(&mut self, f: F)
        requires
            old(self).well_formed(),
            forall|i: int|
                0 <= i < old(self).norm().len() ==> call_requires(f, (old(self).norm()[i],)),
        ensures
            final(self).orig() == old(self).orig(),
            final(self).aligns() == old(self).aligns(),
            final(self).norm().len() == old(self).norm().len(),
            forall|i: int|
                0 <= i < old(self).norm().len() ==> call_ensures(
                    f,
                    (old(self).norm()[i],),
                    #[trigger] final(self).norm()[i],
                ),
            final(self).well_formed(),
    {
        let ghost s = self.normalized@;
        let len = self.normalized.as_str().unicode_len();
        let mut new_norm = String::new();
        let mut i: usize = 0;
        while i < len
            invariant
                i <= len,
                len == s.len(),
                *self == *old(self),
                self.normalized@ == s,
                forall|j: int| 0 <= j < s.len() ==> call_requires(f, (s[j],)),
                new_norm@.len() == i as nat,
                forall|j: int|
                    0 <= j < i ==> call_ensures(f, (s[j],), #[trigger] new_norm@[j]),
            decreases len - i,
        {
            let c = self.normalized.as_str().get_char(i);
            let mapped = f(c);
            push_char(&mut new_norm, mapped);
            i = i + 1;
        }
        self.normalized = new_norm;
    }

    /// Calls the given function for each character; nothing is changed.
    pub fn for_each<F: Fn(char)>(&mut self, f: F)
        requires
            forall|i: int|
                0 <= i < old(self).norm().len() ==> call_requires(f, (old(self).norm()[i],)),
        ensures
            *final(self) == *old(self),
    {
        let len = self.normalized.as_str().unicode_len();
        let mut i: usize = 0;
        while i < len
            invariant
                i <= len,
                len == self.norm().len(),
                *self == *old(self),
                forall|j: int| 0 <= j < self.norm().len() ==> call_requires(f, (self.norm()[j],)),
            decreases len - i,
        {
            let c = self.normalized.as_str().get_char(i);
            f(c);
            i = i + 1;
        }
    }

    /// Lowercase: each char expands to its lowercase mapping, every expanded
    /// char keeping the alignment entry of the char it came from.
    pub fn lowercase(&mut self)
        requires
            old(self).well_formed(),
        ensures
            final(self).orig() == old(self).orig(),
            final(self).norm() == lower_text(old(self).norm()),
            final(self).aligns() == lower_aligns(old(self).norm(), old(self).aligns()),
            final(self).well_formed(),
    {
        let ghost s = self.normalized@;
        let ghost a = self.alignments@;
        let ghost f = |c: char| lower_of(c);
        let len = self.normalized.as_str().unicode_len();
        let mut new_norm = String::new();
        let mut new_aligns: Vec<(usize, usize)> = Vec::new();
        let mut i: usize = 0;
        while i < len
            invariant
                i <= len,
                len == s.len(),
                a.len() == s.len(),
                *self == *old(self),
                self.normalized@ == s,
                self.alignments@ == a,
                f == (|c: char| lower_of(c)),
                new_norm@ == expand_text(s.take(i as int), f),
                new_aligns@ == expand_aligns(s.take(i as int), a.take(i as int), f),
            decreases len - i,
        {
            let c = self.normalized.as_str().get_char(i);
            let align = self.alignments[i];
            let exp = char_lower(c);
            let elen = exp.len();
            let mut j: usize = 0;
            while j < elen
                invariant
                    j <= elen,
                    elen == exp@.len(),
                    exp@ == lower_of(c),
                    align == a[i as int],
                    0 <= i < s.len(),
                    c == s[i as int],
                    f == (|c: char| lower_of(c)),
                    new_norm@ == expand_text(s.take(i as int), f) + exp@.take(j as int),
                    new_aligns@ == expand_aligns(s.take(i as int), a.take(i as int), f)
                        + Seq::new(j as nat, |q: int| a[i as int]),
                decreases elen - j,
            {
                push_char(&mut new_norm, exp[j]);
                new_aligns.push(align);
                j = j + 1;
                proof {
                    assert(new_norm@ =~= expand_text(s.take(i as int), f) + exp@.take(j as int));
                    assert(new_aligns@ =~= expand_aligns(s.take(i as int), a.take(i as int), f)
                        + Seq::new(j as nat, |q: int| a[i as int]));
                }
            }
            i = i + 1;
            proof {
                let st = s.take(i as int);
                let at = a.take(i as int);
                assert(st.drop_last() =~= s.take(i as int - 1));
                assert(at.drop_last() =~= a.take(i as int - 1));
                assert(st.last() == s[i as int - 1] && st.last() == c);
                assert(exp@.take(elen as int) =~= f(st.last()));
                assert(new_norm@ =~= expand_text(st, f));
                assert(Seq::new(elen as nat, |q: int| a[i as int - 1]) =~= Seq::new(
                    f(st.last()).len(),
                    |q: int| at[st.len() - 1],
                ));
                assert(new_aligns@ =~= expand_aligns(st, at, f));
            }
        }
        proof {
            assert(s.take(len as int) =~= s);
            assert(a.take(len as int) =~= a);
            lemma_expand_wf(s, a, f, self.original@.len() as int);
        }
        self.normalized = new_norm;
        self.alignments = new_aligns;
    }

    /// Uppercase: as `lowercase`, with the uppercase mapping.
    pub fn uppercase(&mut self)
        requires
            old(self).well_formed(),
        ensures
            final(self).orig() == old(self).orig(),
            final(self).norm() == upper_text(old(self).norm()),
            final(self).aligns() == upper_aligns(old(self).norm(), old(self).aligns()),
            final(self).well_formed(),
    {
        let ghost s = self.normalized@;
        let ghost a = self.alignments@;
        let ghost f = |c: char| upper_of(c);
        let len = self.normalized.as_str().unicode_len();
        let mut new_norm = String::new();
        let mut new_aligns: Vec<(usize, usize)> = Vec::new();
        let mut i: usize = 0;
        while i < len
            invariant
                i <= len,
                len == s.len(),
                a.len() == s.len(),
                *self == *old(self),
                self.normalized@ == s,
                self.alignments@ == a,
                f == (|c: char| upper_of(c)),
                new_norm@ == expand_text(s.take(i as int), f),
                new_aligns@ == expand_aligns(s.take(i as int), a.take(i as int), f),
            decreases len - i,
        {
            let c = self.normalized.as_str().get_char(i);
            let align = self.alignments[i];
            let exp = char_upper(c);
            let elen = exp.len();
            let mut j: usize = 0;
            while j < elen
                invariant
                    j <= elen,
                    elen == exp@.len(),
                    exp@ == upper_of(c),
                    align == a[i as int],
                    0 <= i < s.len(),
                    c == s[i as int],
                    f == (|c: char| upper_of(c)),
                    new_norm@ == expand_text(s.take(i as int), f) + exp@.take(j as int),
                    new_aligns@ == expand_aligns(s.take(i as int), a.take(i as int), f)
                        + Seq::new(j as nat, |q: int| a[i as int]),
                decreases elen - j,
            {
                push_char(&mut new_norm, exp[j]);
                new_aligns.push(align);
                j = j + 1;
                proof {
                    assert(new_norm@ =~= expand_text(s.take(i as int), f) + exp@.take(j as int));
                    assert(new_aligns@ =~= expand_aligns(s.take(i as int), a.take(i as int), f)
                        + Seq::new(j as nat, |q: int| a[i as int]));
                }
            }
            i = i + 1;
            proof {
                let st = s.take(i as int);
                let at = a.take(i as int);
                assert(st.drop_last() =~= s.take(i as int - 1));
                assert(at.drop_last() =~= a.take(i as int - 1));
                assert(st.last() == s[i as int - 1] && st.last() == c);
                assert(exp@.take(elen as int) =~= f(st.last()));
                assert(new_norm@ =~= expand_text(st, f));
                assert(Seq::new(elen as nat, |q: int| a[i as int - 1]) =~= Seq::new(
                    f(st.last()).len(),
                    |q: int| at[st.len() - 1],
                ));
                assert(new_aligns@ =~= expand_aligns(st, at, f));
            }
        }
        proof {
            assert(s.take(len as int) =~= s);
            assert(a.take(len as int) =~= a);
            lemma_expand_wf(s, a, f, self.original@.len() as int);
        }
        self.normalized = new_norm;
        self.alignments = new_aligns;
    }

    /// Prepend the given string: its chars carry zero-width `(0, 0)` entries.
    pub fn prepend(&mut self, s: &str)
        requires
            old(self).well_formed(),
        ensures
            final(self).orig() == old(self).orig(),
            final(self).norm() == s@ + old(self).norm(),
            final(self).aligns() == Seq::new(s@.len(), |i: int| (0usize, 0usize)) + old(
                self,
            ).aligns(),
            final(self).well_formed(),
    {
        let ghost a = self.alignments@;
        let mut t = s.to_owned();
        t.append(self.normalized.as_str());
        let slen = s.unicode_len();
        let mut na: Vec<(usize, usize)> = Vec::new();
        let mut i: usize = 0;
        while i < slen
            invariant
                i <= slen,
                na@ == Seq::new(i as nat, |j: int| (0usize, 0usize)),
            decreases slen - i,
        {
            na.push((0, 0));
            i = i + 1;
            proof {
                assert(na@ =~= Seq::new(i as nat, |j: int| (0usize, 0usize)));
            }
        }
        let alen = self.alignments.len();
        let ghost zeros = Seq::new(slen as nat, |j: int| (0usize, 0usize));
        let mut p: usize = 0;
        while p < alen
            invariant
                p <= alen,
                alen == a.len(),
                self.alignments@ == a,
                na@ == zeros + a.take(p as int),
            decreases alen - p,
        {
            na.push(self.alignments[p]);
            p = p + 1;
            proof {
                assert(na@ =~= zeros + a.take(p as int));
            }
        }
        proof {
            assert(a.take(alen as int) =~= a);
        }
        self.normalized = t;
        self.alignments = na;
    }

    /// Append the given string: its chars carry zero-width entries at the
    /// end of the last alignment (or `(0, 0)` when there is none).
    pub fn append(&mut self, s: &str)
        requires
            old(self).well_formed(),
        ensures
            final(self).orig() == old(self).orig(),
            final(self).norm() == old(self).norm() + s@,
            ({
                let t: usize = if old(self).aligns().len() == 0 {
                    0usize
                } else {
                    old(self).aligns().last().1
                };
                final(self).aligns() == old(self).aligns() + Seq::new(s@.len(), |i: int| (t, t))
            }),
            final(self).well_formed(),
    {
        let ghost a = self.alignments@;
        self.normalized.append(s);
        let n = self.alignments.len();
        let t: usize = if n == 0 {
            0
        } else {
            self.alignments[n - 1].1
        };
        let slen = s.unicode_len();
        let mut i: usize = 0;
        while i < slen
            invariant
                i <= slen,
                self.alignments@ == a + Seq::new(i as nat, |j: int| (t, t)),
                self.original@ == old(self).original@,
                self.normalized@ == old(self).normalized@ + s@,
            decreases slen - i,
        {
            self.alignments.push((t, t));
            i = i + 1;
            proof {
                assert(self.alignments@ =~= a + Seq::new(i as nat, |j: int| (t, t)));
            }
        }
    }

    /// The resolved original-view and normalized-view char ranges that
    /// slicing with the given range works on, or nothing when the range
    /// cannot be converted.
    pub open spec fn spec_slice_ranges(&self, range: Range) -> Option<((int, int), (int, int))> {
        match range {
            Range::Original(sp) => {
                let os = resolve_start(sp.start);
                let oe = resolve_end(sp.end, self.orig().len() as int);
                let c = convert_orig(
                    self.aligns(),
                    os,
                    resolve_end(sp.end, orig_extent(self.aligns())),
                );
                Some(((os, oe), (c.0 as int, c.1 as int)))
            },
            Range::Normalized(sp) => {
                let ns = resolve_start(sp.start);
                let ne = resolve_end(sp.end, self.aligns().len() as int);
                match convert_norm(self.aligns(), ns, ne) {
                    Some(c) => Some(((c.0 as int, c.1 as int), (ns, ne))),
                    None => None,
                }
            },
        }
    }

    /// No alignment entry of the normalized window starts left of the
    /// original range's start, so rebasing subtracts within bounds.  This
    /// always holds of a normalized-referential range; for an
    /// original-referential one it is the slicing precondition.
    pub open spec fn slice_shift_ok(&self, range: Range) -> bool {
        match range {
            Range::Normalized(_) => true,
            Range::Original(sp) => {
                let os = resolve_start(sp.start);
                let c = convert_orig(
                    self.aligns(),
                    os,
                    resolve_end(sp.end, orig_extent(self.aligns())),
                );
                forall|j: int|
                    c.0 <= j < c.1 && j < self.aligns().len() ==> os <= (
                    #[trigger] self.aligns()[j]).0
            },
        }
    }

    /// What slicing returns: a new value holding the two substrings and the
    /// rebased alignment window, or nothing when a part cannot be extracted.
    pub open spec fn slice_post(&self, range: Range, r: Option<NormalizedString>) -> bool {
        match (r, self.spec_slice_ranges(range)) {
            (Some(ns), Some(parts)) => {
                let os = parts.0.0;
                let oe = parts.0.1;
                let cs = parts.1.0;
                let ce = parts.1.1;
                &&& extract_ok(self.orig().len() as int, os, oe)
                &&& extract_ok(self.norm().len() as int, cs, ce)
                &&& ns.orig() == self.orig().subrange(os, oe)
                &&& ns.norm() == self.norm().subrange(cs, ce)
                &&& ns.aligns() == Seq::new(
                    (ce - cs) as nat,
                    |j: int|
                        (
                            ((self.aligns()[cs + j].0 - os) as usize),
                            ((self.aligns()[cs + j].1 - os) as usize),
                        ),
                )
                &&& ns.well_formed()
            },
            (None, Some(parts)) => !extract_ok(self.orig().len() as int, parts.0.0, parts.0.1)
                || !extract_ok(self.norm().len() as int, parts.1.0, parts.1.1),
            (None, None) => true,
            (Some(_), None) => false,
        }
    }

    /// Return a new NormalizedString that contains only the specified range,
    /// indexing on chars: the two texts are the substrings the range implies,
    /// and the alignments are rebased so that the start of the kept original
    /// substring becomes 0.
    pub fn slice(&self, range: Range) -> (r: Option<NormalizedString>)
        requires
            self.well_formed(),
            span_resolvable(range.spec_span()),
            self.slice_shift_ok(range),
        ensures
            self.slice_post(range, r),
    {
        let ghost a = self.aligns();
        let (ro, rn) = match range {
            Range::Original(sp) => {
                let ro = sp.into_full_range(self.len_original());
                let rn = match self.convert_offsets(range) {
                    Some(p) => p,
                    None => {
                        return None;
                    },
                };
                (ro, rn)
            },
            Range::Normalized(sp) => {
                let ro = match self.convert_offsets(range) {
                    Some(p) => p,
                    None => {
                        return None;
                    },
                };
                let rn = sp.into_full_range(self.len());
                (ro, rn)
            },
        };
        let shift = ro.0;
        let orig_sub = match get_range_resolved(self.original.as_str(), ro.0, ro.1) {
            Some(t) => t.to_owned(),
            None => {
                return None;
            },
        };
        let norm_sub = match get_range_resolved(self.normalized.as_str(), rn.0, rn.1) {
            Some(t) => t.to_owned(),
            None => {
                return None;
            },
        };
        proof {
            assert(self.alignments.len() <= usize::MAX && a.len() == self.alignments.len());
            match range {
                Range::Original(sp) => {
                    lemma_scan_from_props(
                        a,
                        resolve_start(sp.start),
                        resolve_end(sp.end, orig_extent(a)),
                        0,
                        (0usize, 0usize),
                    );
                },
                Range::Normalized(_) => {},
            }
        }
        let mut w: Vec<(usize, usize)> = Vec::new();
        let mut j: usize = rn.0;
        while j < rn.1
            invariant
                rn.0 <= j <= rn.1,
                rn.1 <= a.len(),
                self.aligns() == a,
                self.well_formed(),
                forall|q: int| rn.0 <= q < rn.1 ==> shift <= (#[trigger] a[q]).0,
                w@ == Seq::new(
                    (j - rn.0) as nat,
                    |q: int|
                        (
                            ((a[rn.0 + q].0 - shift) as usize),
                            ((a[rn.0 + q].1 - shift) as usize),
                        ),
                ),
            decreases rn.1 - j,
        {
            let (s0, e0) = self.alignments[j];
            proof {
                assert(a[j as int].0 <= a[j as int].1);
            }
            w.push((s0 - shift, e0 - shift));
            j = j + 1;
            proof {
                assert(w@ =~= Seq::new(
                    (j - rn.0) as nat,
                    |q: int|
                        (
                            ((a[rn.0 + q].0 - shift) as usize),
                            ((a[rn.0 + q].1 - shift) as usize),
                        ),
                ));
            }
        }
        let result = NormalizedString { original: orig_sub, normalized: norm_sub, alignments: w };
        proof {
            let olen2 = result.orig().len() as int;
            assert forall|q: int| rn.0 <= q < rn.1 implies (#[trigger] a[q]).1 <= ro.1 as int by {
                match range {
                    Range::Original(sp) => {
                        assert(a[q].1 <= resolve_end(sp.end, orig_extent(a)));
                    },
                    Range::Normalized(_) => {
                        assert(a[q].0 <= a[rn.1 - 1].0 && a[q].1 <= a[rn.1 - 1].1);
                    },
                }
            }
            assert(aligns_wf(result.aligns(), olen2));
        }
        Some(result)
    }

    /// As `slice_shift_ok`, for a byte-indexed range: the precondition of
    /// `slice_bytes`, on the char range its byte range covers.
    pub open spec fn slice_bytes_ok(&self, range: Range) -> bool {
        match range {
            Range::Normalized(_) => true,
            Range::Original(sp) => {
                let v = self.orig();
                let bs = resolve_start(sp.start);
                let be = resolve_end(sp.end, byte_index_of(v, v.len() as int));
                match (byte_start_char(v, bs, be), byte_end_char(v, bs, be)) {
                    (Some(cs), Some(ce)) => self.slice_shift_ok(
                        Range::Original(
                            CharSpan {
                                start: RangeBound::Included(cs as usize),
                                end: RangeBound::Excluded(ce as usize),
                            },
                        ),
                    ),
                    _ => true,
                }
            },
        }
    }

    /// Return a new NormalizedString that contains only the specified range,
    /// indexing on bytes of the chosen view: the byte offsets must lie
    /// exactly on char boundaries, else nothing is returned.
    pub fn slice_bytes(&self, range: Range) -> (r: Option<NormalizedString>)
        requires
            self.well_formed(),
            span_resolvable(range.spec_span()),
            self.slice_bytes_ok(range),
        ensures
            ({
                let v = match range {
                    Range::Original(_) => self.orig(),
                    Range::Normalized(_) => self.norm(),
                };
                let sp = range.spec_span();
                let bs = resolve_start(sp.start);
                let be = resolve_end(sp.end, byte_index_of(v, v.len() as int));
                match (byte_start_char(v, bs, be), byte_end_char(v, bs, be)) {
                    (Some(cs), Some(ce)) => {
                        let csp = CharSpan {
                            start: RangeBound::Included(cs as usize),
                            end: RangeBound::Excluded(ce as usize),
                        };
                        match range {
                            Range::Original(_) => self.slice_post(Range::Original(csp), r),
                            Range::Normalized(_) => self.slice_post(Range::Normalized(csp), r),
                        }
                    },
                    _ => r is None,
                }
            }),
    {
        match range {
            Range::Original(_) => match byte_char_span(self.original.as_str(), range.unwrap()) {
                Some(p) => self.slice(Range::Original(CharSpan::bounded(p.0, p.1))),
                None => None,
            },
            Range::Normalized(_) => match byte_char_span(
                self.normalized.as_str(),
                range.unwrap(),
            ) {
                Some(p) => self.slice(Range::Normalized(CharSpan::bounded(p.0, p.1))),
                None => None,
            },
        }
    }

    /// Split off ourselves, returning a new value that contains the chars
    /// `[at, len)` of the normalized text; self keeps `[0, at)`.  The original
    /// text is split at the end of the last remaining alignment entry.  The
    /// returned tail keeps its alignment spans unrebased, so in isolation it
    /// need not be well-formed.  A split point past the end returns a fresh
    /// empty value and leaves self unchanged.
    pub fn split_off(&mut self, at: usize) -> (r: NormalizedString)
        requires
            old(self).well_formed(),
        ensures
            at > old(self).norm().len() ==> {
                &&& *final(self) == *old(self)
                &&& r.orig() == Seq::<char>::empty()
                &&& r.norm() == Seq::<char>::empty()
                &&& r.aligns() == Seq::<Align>::empty()
                &&& r.well_formed()
            },
            at <= old(self).norm().len() ==> ({
                let oat: int = if at == 0 {
                    0
                } else {
                    old(self).aligns()[at - 1].1 as int
                };
                &&& final(self).norm() == old(self).norm().take(at as int)
                &&& final(self).aligns() == old(self).aligns().take(at as int)
                &&& final(self).orig() == old(self).orig().take(oat)
                &&& final(self).well_formed()
                &&& r.norm() == old(self).norm().skip(at as int)
                &&& r.aligns() == old(self).aligns().skip(at as int)
                &&& r.orig() == old(self).orig().skip(oat)
            }),
    {
        let ghost s = self.normalized@;
        let ghost a = self.alignments@;
        let len = self.normalized.as_str().unicode_len();
        if at > len {
            let r = NormalizedString::from("");
            proof {
                reveal_strlit("");
                assert(r.orig() =~= Seq::<char>::empty());
                assert(r.norm() =~= Seq::<char>::empty());
                assert(r.aligns() =~= Seq::<Align>::empty());
            }
            return r;
        }
        let tail_norm = self.normalized.as_str().substring_char(at, len).to_owned();
        let head_norm = self.normalized.as_str().substring_char(0, at).to_owned();
        let tail_aligns = self.alignments.split_off(at);
        let oat: usize = if at == 0 {
            0
        } else {
            self.alignments[at - 1].1
        };
        let olen = self.original.as_str().unicode_len();
        proof {
            assert(at > 0 ==> a[at - 1].1 <= olen);
        }
        let tail_orig = self.original.as_str().substring_char(oat, olen).to_owned();
        let head_orig = self.original.as_str().substring_char(0, oat).to_owned();
        self.normalized = head_norm;
        self.original = head_orig;
        proof {
            assert(self.aligns() =~= a.take(at as int));
            assert(tail_aligns@ =~= a.skip(at as int));
            assert forall|j: int| 0 <= j < at implies (#[trigger] a[j]).1 <= oat by {
                if at > 0 {
                    assert(a[j].0 <= a[at - 1].0 && a[j].1 <= a[at - 1].1);
                }
            }
        }
        NormalizedString { original: tail_orig, normalized: tail_norm, alignments: tail_aligns }
    }

    /// Merge with the given NormalizedString by appending it to self: texts
    /// are concatenated and the appended alignments are shifted by
    /// `len() - 1` chars of the normalized text.
    pub fn merge_with(&mut self, other: &NormalizedString)
        requires
            old(self).norm().len() >= 1,
            forall|i: int|
                0 <= i < other.aligns().len() ==> (#[trigger] other.aligns()[i]).1 + old(
                    self,
                ).norm().len() - 1 <= usize::MAX && other.aligns()[i].0 + old(self).norm().len()
                    - 1 <= usize::MAX,
        ensures
            final(self).orig() == old(self).orig() + other.orig(),
            final(self).norm() == old(self).norm() + other.norm(),
            final(self).aligns() == old(self).aligns() + Seq::new(
                other.aligns().len(),
                |i: int|
                    (
                        ((other.aligns()[i].0 + old(self).norm().len() - 1) as usize),
                        ((other.aligns()[i].1 + old(self).norm().len() - 1) as usize),
                    ),
            ),
    {
        let ghost a0 = self.alignments@;
        let ghost ob = other.aligns();
        self.original.append(other.original.as_str());
        let shift = self.normalized.as_str().unicode_len() - 1;
        let n = other.alignments.len();
        let ghost shifted = Seq::new(
            ob.len(),
            |i: int| (((ob[i].0 + shift) as usize), ((ob[i].1 + shift) as usize)),
        );
        let mut i: usize = 0;
        while i < n
            invariant
                i <= n,
                n == ob.len(),
                other.aligns() == ob,
                shift as int == old(self).norm().len() - 1,
                forall|j: int|
                    0 <= j < ob.len() ==> (#[trigger] ob[j]).1 + shift <= usize::MAX && ob[j].0
                        + shift <= usize::MAX,
                self.alignments@ == a0 + shifted.take(i as int),
                self.normalized@ == old(self).normalized@,
                self.original@ == old(self).original@ + other.original@,
                shifted == Seq::new(
                    ob.len(),
                    |q: int| (((ob[q].0 + shift) as usize), ((ob[q].1 + shift) as usize)),
                ),
            decreases n - i,
        {
            let (s0, e0) = other.alignments[i];
            self.alignments.push((s0 + shift, e0 + shift));
            i = i + 1;
            proof {
                assert(self.alignments@ =~= a0 + shifted.take(i as int));
            }
        }
        proof {
            assert(shifted.take(n as int) =~= shifted);
        }
        self.normalized.append(other.normalized.as_str());
    }

    /// Remove any leading space(s) of the normalized string.
    pub fn lstrip(&mut self)
        requires
            old(self).well_formed(),
        ensures
            final(self).orig() == old(self).orig(),
            final(self).norm() == old(self).norm().subrange(
                leading_spaces(old(self).norm()),
                old(self).norm().len() as int,
            ),
            final(self).aligns() == old(self).aligns().subrange(
                leading_spaces(old(self).norm()),
                old(self).norm().len() as int,
            ),
            final(self).well_formed(),
    {
        proof {
            crate::unicode::lemma_spaces_bounds(old(self).norm());
        }
        self.lrstrip(true, false)
    }

    /// Remove any trailing space(s) of the normalized string.
    pub fn rstrip(&mut self)
        requires
            old(self).well_formed(),
        ensures
            final(self).orig() == old(self).orig(),
            final(self).norm() == old(self).norm().subrange(
                0,
                old(self).norm().len() - trailing_spaces(old(self).norm()),
            ),
            final(self).aligns() == old(self).aligns().subrange(
                0,
                old(self).norm().len() - trailing_spaces(old(self).norm()),
            ),
            final(self).well_formed(),
    {
        proof {
            crate::unicode::lemma_spaces_bounds(old(self).norm());
        }
        self.lrstrip(false, true)
    }

    /// Remove any leading and trailing space(s) of the normalized string.
    pub fn strip(&mut self)
        requires
            old(self).well_formed(),
        ensures
            final(self).orig() == old(self).orig(),
            ({
                let e = old(self).norm().len() - trailing_spaces(old(self).norm());
                let l = leading_spaces(old(self).norm());
                let b = if l > e {
                    e
                } else {
                    l
                };
                &&& final(self).norm() == old(self).norm().subrange(b, e)
                &&& final(self).aligns() == old(self).aligns().subrange(b, e)
            }),
            final(self).well_formed(),
    {
        proof {
            crate::unicode::lemma_spaces_bounds(old(self).norm());
        }
        self.lrstrip(true, true)
    }

    /// Remove leading and/or trailing whitespace of the normalized string.
    fn lrstrip(&mut self, left: bool, right: bool)
        requires
            old(self).well_formed(),
        ensures
            final(self).orig() == old(self).orig(),
            ({
                let l: int = if left {
                    leading_spaces(old(self).norm())
                } else {
                    0
                };
                let r: int = if right {
                    trailing_spaces(old(self).norm())
                } else {
                    0
                };
                let e = old(self).norm().len() - r;
                let b = if l > e {
                    e
                } else {
                    l
                };
                &&& final(self).norm() == old(self).norm().subrange(b, e)
                &&& final(self).aligns() == old(self).aligns().subrange(b, e)
            }),
            final(self).well_formed(),
    {
        let ghost s = self.normalized@;
        let ghost a = self.alignments@;
        let len = self.normalized.as_str().unicode_len();
        let mut lead: usize = 0;
        if left {
            while lead < len && char_is_space(self.normalized.as_str().get_char(lead))
                invariant
                    lead <= len,
                    len == s.len(),
                    self.normalized@ == s,
                    *self == *old(self),
                    forall|j: int| 0 <= j < lead ==> is_space(#[trigger] s[j]),
                decreases len - lead,
            {
                lead = lead + 1;
            }
            proof {
                lemma_leading_spaces_char(s, lead as int);
            }
        }
        let mut trail: usize = 0;
        if right {
            while trail < len && char_is_space(self.normalized.as_str().get_char(len - trail - 1))
                invariant
                    trail <= len,
                    len == s.len(),
                    self.normalized@ == s,
                    *self == *old(self),
                    forall|j: int| s.len() - trail <= j < s.len() ==> is_space(#[trigger] s[j]),
                decreases len - trail,
            {
                trail = trail + 1;
            }
            proof {
                lemma_trailing_spaces_char(s, trail as int);
            }
        }
        if lead > 0 || trail > 0 {
            let end = len - trail;
            let begin = if lead > end {
                end
            } else {
                lead
            };
            let new_norm = self.normalized.as_str().substring_char(begin, end).to_owned();
            let mut new_aligns: Vec<(usize, usize)> = Vec::new();
            let mut p: usize = begin;
            while p < end
                invariant
                    begin <= p <= end,
                    end <= a.len(),
                    self.alignments@ == a,
                    *self == *old(self),
                    new_aligns@ == a.subrange(begin as int, p as int),
                decreases end - p,
            {
                new_aligns.push(self.alignments[p]);
                p = p + 1;
                proof {
                    assert(new_aligns@ =~= a.subrange(begin as int, p as int));
                }
            }
            self.normalized = new_norm;
            self.alignments = new_aligns;
        } else {
            proof {
                assert(s.subrange(0, s.len() as int) =~= s);
                assert(a.subrange(0, a.len() as int) =~= a);
            }
        }
    }
}

impl PartialEq for NormalizedString {
    /// Two values are equal when all three components are equal.
    fn eq(&self, other: &NormalizedString) -> (r: bool) {
        if !self.original.eq(&other.original) {
            return false;
        }
        if !self.normalized.eq(&other.normalized) {
            return false;
        }
        let n = self.alignments.len();
        if n != other.alignments.len() {
            return false;
        }
        let mut i: usize = 0;
        while i < n
            invariant
                i <= n,
                n == self.aligns().len(),
                n == other.aligns().len(),
                forall|j: int| 0 <= j < i ==> self.aligns()[j] == other.aligns()[j],
            decreases n - i,
        {
            let (s0, e0) = self.alignments[i];
            let (s1, e1) = other.alignments[i];
            if s0 != s1 || e0 != e1 {
                return false;
            }
            i = i + 1;
        }
        proof {
            assert(self.aligns() =~= other.aligns());
        }
        true
    }
}

impl vstd::std_specs::cmp::PartialEqSpecImpl for NormalizedString {
    open spec fn obeys_eq_spec() -> bool {
        true
    }

    open spec fn eq_spec(&self, other: &NormalizedString) -> bool {
        &&& self.orig() == other.orig()
        &&& self.norm() == other.norm()
        &&& self.aligns() == other.aligns()
    }
}

} // verus!
