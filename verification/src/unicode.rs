//! The boundary to the Unicode facilities that the library relies on: the
//! normalization streams of `unicode_normalization_alignments`, and the
//! per-character case mappings and whitespace class of `std`.
//!
//! Each result that only the outside code can compute is given a name (an
//! uninterpreted spec function); the contracts of the rest of the library
//! speak of those names.

use vstd::prelude::*;

use crate::align::{expand_aligns, expand_text, stream_chars, valid_stream, Align};
use unicode_normalization_alignments::UnicodeNormalization;

verus! {

/// The NFD of a text, as a stream of `(char, change)` pairs.
pub uninterp spec fn nfd_of(s: Seq<char>) -> Seq<(char, isize)>;

/// The NFKD of a text, as a stream of `(char, change)` pairs.
pub uninterp spec fn nfkd_of(s: Seq<char>) -> Seq<(char, isize)>;

/// The NFC of a text, as a stream of `(char, change)` pairs.
pub uninterp spec fn nfc_of(s: Seq<char>) -> Seq<(char, isize)>;

/// The NFKC of a text, as a stream of `(char, change)` pairs.
pub uninterp spec fn nfkc_of(s: Seq<char>) -> Seq<(char, isize)>;

/// The lowercase mapping of a character: one or more characters.
pub uninterp spec fn lower_of(c: char) -> Seq<char>;

/// The uppercase mapping of a character: one or more characters.
pub uninterp spec fn upper_of(c: char) -> Seq<char>;

/// Whether a character has the Unicode whitespace property.
pub uninterp spec fn is_space(c: char) -> bool;

/// The text after replacing each char by its lowercase mapping.
pub open spec fn lower_text(s: Seq<char>) -> Seq<char> {
    expand_text(s, |c: char| lower_of(c))
}

/// The alignment table after replacing each char by its lowercase mapping.
pub open spec fn lower_aligns(s: Seq<char>, a: Seq<Align>) -> Seq<Align> {
    expand_aligns(s, a, |c: char| lower_of(c))
}

/// The text after replacing each char by its uppercase mapping.
pub open spec fn upper_text(s: Seq<char>) -> Seq<char> {
    expand_text(s, |c: char| upper_of(c))
}

/// The alignment table after replacing each char by its uppercase mapping.
pub open spec fn upper_aligns(s: Seq<char>, a: Seq<Align>) -> Seq<Align> {
    expand_aligns(s, a, |c: char| upper_of(c))
}

/// The number of leading whitespace chars of a text.
pub open spec fn leading_spaces(s: Seq<char>) -> int
    decreases s.len(),
{
    if s.len() == 0 || !is_space(s[0]) {
        0
    } else {
        1 + leading_spaces(s.drop_first())
    }
}

/// The number of trailing whitespace chars of a text.
pub open spec fn trailing_spaces(s: Seq<char>) -> int
    decreases s.len(),
{
    if s.len() == 0 || !is_space(s.last()) {
        0
    } else {
        1 + trailing_spaces(s.drop_last())
    }
}

/// Both whitespace counts lie within the text's length.
pub proof fn lemma_spaces_bounds(s: Seq<char>)
    ensures
        0 <= leading_spaces(s) <= s.len(),
        0 <= trailing_spaces(s) <= s.len(),
    decreases s.len(),
{
    if s.len() > 0 {
        lemma_spaces_bounds(s.drop_first());
        lemma_spaces_bounds(s.drop_last());
    }
}

/// `leading_spaces` is the unique prefix of whitespace chars.
pub proof fn lemma_leading_spaces_char(s: Seq<char>, l: int)
    requires
        0 <= l <= s.len(),
        forall|j: int| 0 <= j < l ==> is_space(#[trigger] s[j]),
        l < s.len() ==> !is_space(s[l]),
    ensures
        leading_spaces(s) == l,
    decreases l,
{
    if l == 0 {
    } else {
        assert(is_space(s[0]));
        let t = s.drop_first();
        assert forall|j: int| 0 <= j < l - 1 implies is_space(#[trigger] t[j]) by {
            assert(t[j] == s[j + 1]);
        }
        if l - 1 < t.len() {
            assert(t[l - 1] == s[l]);
        }
        lemma_leading_spaces_char(t, l - 1);
    }
}

/// `trailing_spaces` is the unique suffix of whitespace chars.
pub proof fn lemma_trailing_spaces_char(s: Seq<char>, t: int)
    requires
        0 <= t <= s.len(),
        forall|j: int| s.len() - t <= j < s.len() ==> is_space(#[trigger] s[j]),
        t < s.len() ==> !is_space(s[s.len() - t - 1]),
    ensures
        trailing_spaces(s) == t,
    decreases t,
{
    if t == 0 {
    } else {
        assert(is_space(s.last()));
        let d = s.drop_last();
        assert forall|j: int| d.len() - (t - 1) <= j < d.len() implies is_space(
            #[trigger] d[j],
        ) by {
            assert(d[j] == s[j]);
        }
        if t - 1 < d.len() {
            assert(d[d.len() - (t - 1) - 1] == s[s.len() - t - 1]);
        }
        lemma_trailing_spaces_char(d, t - 1);
    }
}

/// Relies on `unicode_normalization_alignments`: `str::nfd` yields the NFD of
/// the input as `(char, change)` pairs.  Decomposition marks the first
/// character derived from an input character with `0` and the rest with `1`,
/// so changes never exceed `1` and each pair with change `<= 0` consumes one
/// input character: the stream is valid for the input's length.  Unicode
/// normalization is idempotent, so normalizing the emitted text again leaves
/// it unchanged.
#[verifier::external_body]
pub(crate) fn nfd_pairs(s: &str) -> (r: Vec<(char, isize)>)
    ensures
        r@ == nfd_of(s@),
        valid_stream(r@, 0, s@.len() as int),
        stream_chars(nfd_of(stream_chars(r@))) == stream_chars(r@),
{
    s.nfd().collect()
}

/// Relies on `unicode_normalization_alignments`: `str::nfkd`, as `nfd_pairs`.
#[verifier::external_body]
pub(crate) fn nfkd_pairs(s: &str) -> (r: Vec<(char, isize)>)
    ensures
        r@ == nfkd_of(s@),
        valid_stream(r@, 0, s@.len() as int),
        stream_chars(nfkd_of(stream_chars(r@))) == stream_chars(r@),
{
    s.nfkd().collect()
}

/// Relies on `unicode_normalization_alignments`: `str::nfc` yields the NFC of
/// the input as `(char, change)` pairs.  Recomposition merges pairs with
/// `k + change - 1`, which keeps every change at most `1` and keeps the
/// consumed count within the input's length, so the stream stays valid; the
/// emitted text is normalized, so normalizing it again leaves it unchanged.
#[verifier::external_body]
pub(crate) fn nfc_pairs(s: &str) -> (r: Vec<(char, isize)>)
    ensures
        r@ == nfc_of(s@),
        valid_stream(r@, 0, s@.len() as int),
        stream_chars(nfc_of(stream_chars(r@))) == stream_chars(r@),
{
    s.nfc().collect()
}

/// Relies on `unicode_normalization_alignments`: `str::nfkc`, as `nfc_pairs`.
#[verifier::external_body]
pub(crate) fn nfkc_pairs(s: &str) -> (r: Vec<(char, isize)>)
    ensures
        r@ == nfkc_of(s@),
        valid_stream(r@, 0, s@.len() as int),
        stream_chars(nfkc_of(stream_chars(r@))) == stream_chars(r@),
{
    s.nfkc().collect()
}

/// Relies on `char::to_lowercase`: yields the lowercase mapping of the
/// character as one or more characters.
#[verifier::external_body]
pub(crate) fn char_lower(c: char) -> (r: Vec<char>)
    ensures
        r@ == lower_of(c),
        r@.len() >= 1,
{
    c.to_lowercase().collect()
}

/// Relies on `char::to_uppercase`: yields the uppercase mapping of the
/// character as one or more characters.
#[verifier::external_body]
pub(crate) fn char_upper(c: char) -> (r: Vec<char>)
    ensures
        r@ == upper_of(c),
        r@.len() >= 1,
{
    c.to_uppercase().collect()
}

/// Relies on `char::is_whitespace`: whether the character has the Unicode
/// whitespace property.
#[verifier::external_body]
pub(crate) fn char_is_space(c: char) -> (r: bool)
    ensures
        r == is_space(c),
{
    c.is_whitespace()
}

/// Relies on `String::push`: appends exactly the given character.
#[verifier::external_body]
pub(crate) fn push_char(s: &mut String, c: char)
    ensures
        final(s)@ == old(s)@.push(c),
{
    s.push(c);
}

} // verus!
