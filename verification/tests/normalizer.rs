use normalized_string::normalized::NormalizedString;
use normalized_string::ranges::{CharSpan, Range};
use normalized_string::text::get_range_of;
use unicode_categories::UnicodeCategories;

#[test]
fn new_chars() {
    let mut n = NormalizedString::from("élégant");
    n.nfd();
    assert_eq!(
        n.alignments(),
        vec![
            (0, 1),
            (0, 1),
            (1, 2),
            (2, 3),
            (2, 3),
            (3, 4),
            (4, 5),
            (5, 6),
            (6, 7)
        ]
    );
}

#[test]
fn unchanged() {
    let mut n = NormalizedString::from("élégant");
    n.nfd();
    n.filter(|c| !c.is_mark_nonspacing());
    assert_eq!(
        n.alignments(),
        vec![(0, 1), (1, 2), (2, 3), (3, 4), (4, 5), (5, 6), (6, 7)]
    );
}

#[test]
fn removed_chars() {
    let mut n = NormalizedString::from("élégant");
    n.filter(|c| c != 'n');
    assert_eq!(
        n.alignments(),
        vec![(0, 1), (1, 2), (2, 3), (3, 4), (4, 5), (6, 7)]
    );
}

#[test]
fn mixed_addition_and_removal() {
    let mut n = NormalizedString::from("élégant");
    n.nfd();
    n.filter(|c| !c.is_mark_nonspacing() && c != 'n');
    assert_eq!(
        n.alignments(),
        vec![(0, 1), (1, 2), (2, 3), (3, 4), (4, 5), (6, 7)]
    );
}

#[test]
fn range_conversion() {
    let mut n = NormalizedString::from("    __Hello__   ");
    n.filter(|c| !c.is_whitespace());
    n.lowercase();
    let hello_n = n.convert_offsets(Range::Original(CharSpan::bounded(6, 11)));
    assert_eq!(hello_n, Some((2, 7)));
    let (hs, he) = hello_n.unwrap();
    assert_eq!(
        n.get_range(Range::Normalized(CharSpan::bounded(hs, he))),
        Some("hello")
    );
    assert_eq!(
        n.get_range_original(Range::Normalized(CharSpan::bounded(hs, he))),
        Some("Hello")
    );
    assert_eq!(
        n.get_range(Range::Original(CharSpan::bounded(6, 11))),
        Some("hello")
    );
    assert_eq!(
        n.get_range_original(Range::Original(CharSpan::bounded(6, 11))),
        Some("Hello")
    );
}

#[test]
fn original_range() {
    let mut n = NormalizedString::from("Hello_______ World!");
    n.filter(|c| c != '_');
    n.lowercase();
    let world_n = n
        .get_range(Range::Normalized(CharSpan::bounded(6, 11)))
        .unwrap();
    assert_eq!(world_n, "world");
    let world_o = n
        .get_range_original(Range::Normalized(CharSpan::bounded(6, 11)))
        .unwrap();
    assert_eq!(world_o, "World");
    let offsets = n
        .convert_offsets(Range::Normalized(CharSpan::bounded(6, 11)))
        .unwrap();
    let original_range = Range::Original(CharSpan::bounded(offsets.0, offsets.1));
    assert_eq!(n.get_range(original_range).unwrap(), "world");
    assert_eq!(n.get_range_original(original_range).unwrap(), "World");
    assert_eq!(
        original_range.unwrap().into_full_range(n.len_original()),
        (13, 18)
    );
}

#[test]
fn added_around_edges() {
    let mut n = NormalizedString::from("Hello");
    n.transform(
        vec![
            (' ', 1),
            ('H', 0),
            ('e', 0),
            ('l', 0),
            ('l', 0),
            ('o', 0),
            (' ', 1),
        ],
        0,
    );
    assert_eq!(n.get(), " Hello ");
    let end = n.get().len() - 1;
    assert_eq!(
        n.get_range_original(Range::Normalized(CharSpan::bounded(1, end))),
        Some("Hello")
    );
}

#[test]
fn remove_at_beginning() {
    let mut n = NormalizedString::from("     Hello");
    n.filter(|c| !c.is_whitespace());
    assert_eq!(
        n.get_range_original(Range::Normalized(CharSpan::bounded(1, "Hello".len()))),
        Some("ello")
    );
    assert_eq!(
        n.get_range_original(Range::Normalized(CharSpan::bounded(0, n.get().len()))),
        Some("Hello")
    );
}

#[test]
fn remove_at_end() {
    let mut n = NormalizedString::from("Hello    ");
    n.filter(|c| !c.is_whitespace());
    assert_eq!(
        n.get_range_original(Range::Normalized(CharSpan::bounded(0, 4))),
        Some("Hell")
    );
    assert_eq!(
        n.get_range_original(Range::Normalized(CharSpan::bounded(0, n.get().len()))),
        Some("Hello")
    );
}

#[test]
fn removed_around_both_edges() {
    let mut n = NormalizedString::from("  Hello  ");
    n.filter(|c| !c.is_whitespace());
    assert_eq!(n.get(), "Hello");
    assert_eq!(
        n.get_range_original(Range::Normalized(CharSpan::bounded(0, "Hello".len()))),
        Some("Hello")
    );
    assert_eq!(
        n.get_range_original(Range::Normalized(CharSpan::bounded(1, "Hell".len()))),
        Some("ell")
    );
}

#[test]
fn lstrip() {
    let mut n = NormalizedString::from("  This is an example  ");
    n.lstrip();
    assert_eq!(n.get(), "This is an example  ");
    assert_eq!(
        n.get_range_original(Range::Normalized(CharSpan::bounded(0, n.get().len()))),
        Some("This is an example  ")
    );
}

#[test]
fn rstrip() {
    let mut n = NormalizedString::from("  This is an example  ");
    n.rstrip();
    assert_eq!(n.get(), "  This is an example");
    assert_eq!(
        n.get_range_original(Range::Normalized(CharSpan::bounded(0, n.get().len()))),
        Some("  This is an example")
    );
}

#[test]
fn strip() {
    let mut n = NormalizedString::from("  This is an example  ");
    n.strip();
    assert_eq!(n.get(), "This is an example");
    assert_eq!(
        n.get_range_original(Range::Normalized(CharSpan::bounded(0, n.get().len()))),
        Some("This is an example")
    );
}

#[test]
fn prepend() {
    let mut n = NormalizedString::from("there");
    n.prepend("Hey ");
    assert_eq!(n.get(), "Hey there");
    assert_eq!(
        n.alignments(),
        vec![
            (0, 0),
            (0, 0),
            (0, 0),
            (0, 0),
            (0, 1),
            (1, 2),
            (2, 3),
            (3, 4),
            (4, 5)
        ]
    );
    assert_eq!(
        n.convert_offsets(Range::Normalized(CharSpan::bounded(0, 4))),
        Some((0, 0))
    );
}

#[test]
fn append() {
    let mut n = NormalizedString::from("Hey");
    n.append(" there");
    assert_eq!(n.get(), "Hey there");
    assert_eq!(
        n.alignments(),
        vec![
            (0, 1),
            (1, 2),
            (2, 3),
            (3, 3),
            (3, 3),
            (3, 3),
            (3, 3),
            (3, 3),
            (3, 3)
        ]
    );
    assert_eq!(
        n.convert_offsets(Range::Normalized(CharSpan::bounded(3, " there".len()))),
        Some((3, 3))
    );
}

#[test]
fn get_range() {
    let s = String::from("Hello my name is John 👋");
    assert_eq!(get_range_of(&s, CharSpan::full()), Some(&s[..]));
    assert_eq!(get_range_of(&s, CharSpan::from_start(17)), Some("John 👋"));
}

#[test]
fn merge() {
    let mut s = NormalizedString::from("A sentence that will be merged");
    s.prepend(" ");

    let mut merged = NormalizedString::from("A sentence");
    let s2 = NormalizedString::from(" that will");
    let s3 = NormalizedString::from(" be merged");
    merged.prepend(" ");
    merged.merge_with(&s2);
    merged.merge_with(&s3);

    assert_eq!(s, merged);
}

#[test]
fn slice() {
    let mut s = NormalizedString::from("𝔾𝕠𝕠𝕕 𝕞𝕠𝕣𝕟𝕚𝕟𝕘");
    s.nfkc();

    let sliced = s.slice(Range::Original(CharSpan::bounded(0, 4))).unwrap();
    assert_eq!(sliced.get_original(), "𝔾𝕠𝕠𝕕");
    assert_eq!(sliced.get(), "Good");
    assert_eq!(sliced.alignments(), vec![(0, 1), (1, 2), (2, 3), (3, 4)]);

    let sliced = s.slice(Range::Normalized(CharSpan::bounded(0, 4))).unwrap();
    assert_eq!(sliced.get_original(), "𝔾𝕠𝕠𝕕");
    assert_eq!(sliced.get(), "Good");
    assert_eq!(sliced.alignments(), vec![(0, 1), (1, 2), (2, 3), (3, 4)]);

    let mut s = NormalizedString::from("   Good Morning!   ");
    s.strip();

    let slice = s.slice(Range::Original(CharSpan::full())).unwrap();
    assert_eq!(
        slice.get_range_original(Range::Normalized(CharSpan::bounded(0, 4))),
        Some("Good")
    );
    let slice = s.slice(Range::Normalized(CharSpan::full())).unwrap();
    assert_eq!(
        slice.get_range_original(Range::Normalized(CharSpan::bounded(0, 4))),
        Some("Good")
    );

    let slice = s.slice(Range::Original(CharSpan::bounded(4, 15))).unwrap();
    assert_eq!(
        slice.get_range_original(Range::Normalized(CharSpan::bounded(0, 3))),
        Some("ood")
    );

    let slice = s.slice(Range::Original(CharSpan::bounded(3, 16))).unwrap();
    assert_eq!(
        slice.get_range_original(Range::Normalized(CharSpan::bounded(0, 4))),
        Some("Good")
    );
}

#[test]
fn slice_bytes() {
    let mut s = NormalizedString::from("𝔾𝕠𝕠𝕕 𝕞𝕠𝕣𝕟𝕚𝕟𝕘");
    s.nfkc();

    let sliced = s
        .slice_bytes(Range::Original(CharSpan::bounded(0, 16)))
        .unwrap();
    assert_eq!(sliced.get_original(), "𝔾𝕠𝕠𝕕");
    assert_eq!(sliced.get(), "Good");
    assert_eq!(sliced.alignments(), vec![(0, 1), (1, 2), (2, 3), (3, 4)]);

    let sliced = s
        .slice_bytes(Range::Original(CharSpan::from_start(17)))
        .unwrap();
    assert_eq!(sliced.get_original(), "𝕞𝕠𝕣𝕟𝕚𝕟𝕘");
    assert_eq!(sliced.get(), "morning");
    assert_eq!(
        sliced.alignments(),
        vec![(0, 1), (1, 2), (2, 3), (3, 4), (4, 5), (5, 6), (6, 7)]
    );

    let sliced = s
        .slice_bytes(Range::Normalized(CharSpan::bounded(0, 4)))
        .unwrap();
    assert_eq!(sliced.get_original(), "𝔾𝕠𝕠𝕕");
    assert_eq!(sliced.get(), "Good");
    assert_eq!(sliced.alignments(), vec![(0, 1), (1, 2), (2, 3), (3, 4)]);

    assert!(s
        .slice_bytes(Range::Original(CharSpan::bounded(0, 10)))
        .is_none());
}
