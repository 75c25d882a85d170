use normalized_string::normalized::NormalizedString;
use normalized_string::ranges::{CharSpan, Range};

#[test]
fn nfd_idempotent() {
    let mut once = NormalizedString::from("élégant");
    once.nfd();
    let mut twice = NormalizedString::from("élégant");
    twice.nfd();
    twice.nfd();
    assert_eq!(once, twice);
}

#[test]
fn nfc_idempotent() {
    let mut once = NormalizedString::from("e\u{301}le\u{301}gant");
    once.nfc();
    let mut twice = NormalizedString::from("e\u{301}le\u{301}gant");
    twice.nfc();
    twice.nfc();
    assert_eq!(once, twice);
}

#[test]
fn nfkd_idempotent() {
    let mut once = NormalizedString::from("ﬃ éloge");
    once.nfkd();
    let mut twice = NormalizedString::from("ﬃ éloge");
    twice.nfkd();
    twice.nfkd();
    assert_eq!(once, twice);
}

#[test]
fn nfkc_idempotent() {
    let mut once = NormalizedString::from("𝔾𝕠𝕠𝕕 ﬃ");
    once.nfkc();
    let mut twice = NormalizedString::from("𝔾𝕠𝕠𝕕 ﬃ");
    twice.nfkc();
    twice.nfkc();
    assert_eq!(once, twice);
}

#[test]
fn nfc_composes() {
    let mut n = NormalizedString::from("e\u{301}");
    n.nfc();
    assert_eq!(n.get(), "é");
    assert_eq!(n.alignments(), vec![(0, 1)]);
}

#[test]
fn nfkd_expands_ligature() {
    let mut n = NormalizedString::from("ﬃ");
    n.nfkd();
    assert_eq!(n.get(), "ffi");
    assert_eq!(n.alignments(), vec![(0, 1), (0, 1), (0, 1)]);
}

#[test]
fn uppercase_expands() {
    let mut n = NormalizedString::from("straße");
    n.uppercase();
    assert_eq!(n.get(), "STRASSE");
    assert_eq!(
        n.alignments(),
        vec![(0, 1), (1, 2), (2, 3), (3, 4), (4, 5), (4, 5), (5, 6)]
    );
}

#[test]
fn lowercase_keeps_alignment() {
    let mut n = NormalizedString::from("HeLLo");
    n.lowercase();
    assert_eq!(n.get(), "hello");
    assert_eq!(
        n.alignments(),
        vec![(0, 1), (1, 2), (2, 3), (3, 4), (4, 5)]
    );
}

#[test]
fn map_preserves_alignment() {
    let mut n = NormalizedString::from("abc");
    n.map(|c| if c == 'b' { 'x' } else { c });
    assert_eq!(n.get(), "axc");
    assert_eq!(n.get_original(), "abc");
    assert_eq!(n.alignments(), vec![(0, 1), (1, 2), (2, 3)]);
}

#[test]
fn for_each_changes_nothing() {
    let mut n = NormalizedString::from("abc");
    n.for_each(|_c| {});
    assert_eq!(n.get(), "abc");
    assert_eq!(n.alignments(), vec![(0, 1), (1, 2), (2, 3)]);
}

#[test]
fn transform_removal_and_head_insertion() {
    let mut n = NormalizedString::from("ab");
    n.transform(vec![('a', -1)], 0);
    assert_eq!(n.get(), "a");
    assert_eq!(n.alignments(), vec![(0, 1)]);

    let mut n = NormalizedString::from("ab");
    n.transform(vec![('x', 1), ('a', 0), ('b', 0)], 0);
    assert_eq!(n.get(), "xab");
    assert_eq!(n.alignments(), vec![(0, 0), (0, 1), (1, 2)]);
}

#[test]
fn transform_initial_offset() {
    let mut n = NormalizedString::from("abc");
    n.transform(vec![('b', 0), ('c', 0)], 1);
    assert_eq!(n.get(), "bc");
    assert_eq!(n.alignments(), vec![(1, 2), (2, 3)]);
}

#[test]
fn strip_all_whitespace() {
    let mut n = NormalizedString::from("   ");
    n.strip();
    assert_eq!(n.get(), "");
    assert_eq!(n.alignments(), vec![]);
    assert!(n.is_empty());
    assert_eq!(n.get_original(), "   ");
}

#[test]
fn empty_range_queries_give_nothing() {
    let n = NormalizedString::from("hello");
    assert_eq!(n.get_range(Range::Normalized(CharSpan::bounded(2, 2))), None);
    assert_eq!(n.get_range(Range::Normalized(CharSpan::bounded(3, 9))), None);
    assert_eq!(
        n.get_range_original(Range::Original(CharSpan::bounded(9, 12))),
        None
    );
}

#[test]
fn split_off_middle() {
    let mut n = NormalizedString::from("hello world");
    let tail = n.split_off(5);
    assert_eq!(n.get(), "hello");
    assert_eq!(n.get_original(), "hello");
    assert_eq!(n.alignments(), vec![(0, 1), (1, 2), (2, 3), (3, 4), (4, 5)]);
    assert_eq!(tail.get(), " world");
    assert_eq!(tail.get_original(), " world");
    assert_eq!(
        tail.alignments(),
        vec![(5, 6), (6, 7), (7, 8), (8, 9), (9, 10), (10, 11)]
    );
}

#[test]
fn split_off_past_end() {
    let mut n = NormalizedString::from("hey");
    let tail = n.split_off(7);
    assert_eq!(n.get(), "hey");
    assert_eq!(n.get_original(), "hey");
    assert!(tail.is_empty());
    assert_eq!(tail.get_original(), "");
}

#[test]
fn merge_shift_quirk() {
    let mut a = NormalizedString::from("ab");
    a.prepend(" ");
    let b = NormalizedString::from("cd");
    a.merge_with(&b);
    assert_eq!(a.get(), " abcd");
    assert_eq!(a.get_original(), "abcd");
    assert_eq!(
        a.alignments(),
        vec![(0, 0), (0, 1), (1, 2), (2, 3), (3, 4)]
    );
}

#[test]
fn prepend_and_append_on_empty() {
    let mut n = NormalizedString::from("");
    n.append("ab");
    assert_eq!(n.get(), "ab");
    assert_eq!(n.alignments(), vec![(0, 0), (0, 0)]);

    let mut n = NormalizedString::from("");
    n.prepend("ab");
    assert_eq!(n.get(), "ab");
    assert_eq!(n.alignments(), vec![(0, 0), (0, 0)]);
}

#[test]
fn slice_bytes_rejects_mid_char() {
    let n = NormalizedString::from("élan");
    assert!(n.slice_bytes(Range::Original(CharSpan::bounded(1, 3))).is_none());
    assert!(n.slice_bytes(Range::Normalized(CharSpan::bounded(0, 1))).is_none());
    let sliced = n.slice_bytes(Range::Original(CharSpan::bounded(0, 2))).unwrap();
    assert_eq!(sliced.get(), "é");
    assert_eq!(sliced.get_original(), "é");
    assert_eq!(sliced.alignments(), vec![(0, 1)]);
}

#[test]
fn bounded_and_unbounded_spans_agree() {
    let n = NormalizedString::from("Hello world");
    assert_eq!(
        n.get_range(Range::Normalized(CharSpan::to_end(5))),
        Some("Hello")
    );
    assert_eq!(
        n.get_range(Range::Normalized(CharSpan::from_start(6))),
        Some("world")
    );
    assert_eq!(
        n.get_range(Range::Normalized(CharSpan::full())),
        Some("Hello world")
    );
    assert_eq!(
        n.get_range(Range::Normalized(CharSpan::bounded(0, 5))),
        n.get_range(Range::Normalized(CharSpan::to_end(5)))
    );
}

#[test]
fn filter_then_lengths_agree() {
    let mut n = NormalizedString::from("a1b2c3");
    n.filter(|c| c.is_alphabetic());
    assert_eq!(n.get(), "abc");
    assert_eq!(n.len(), 3);
    assert_eq!(n.len_original(), 6);
    assert_eq!(n.alignments(), vec![(0, 1), (2, 3), (4, 5)]);
}
