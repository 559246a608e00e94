use syntax_highlighter::pegvm::{CharSet, CharSetError};

#[test]
fn empty_contains_nothing() {
    let s = CharSet::empty();
    assert!(!s.contains_char('\0'));
    assert!(!s.contains_char('A'));
    assert!(!s.contains_char(char::MAX));
    assert!(s.is_empty());
    assert_eq!(s.interval_count(), 0);
}

#[test]
fn any_contains_all_non_surrogates() {
    let s = CharSet::any();
    assert!(s.contains_char('\0'));
    assert!(s.contains_char('A'));
    assert!(s.contains_char('世'));
    assert!(s.contains_char(char::MAX));
    assert!(!s.contains(0xD800));
    assert_eq!(s.interval_count(), 1);
}

#[test]
fn singleton() {
    let s = CharSet::singleton('世');
    assert!(s.contains_char('世'));
    assert!(!s.contains_char('\u{4E15}'));
    assert!(!s.contains_char('\u{4E17}'));
    assert_eq!(s.interval_count(), 1);
}

#[test]
fn ascii_range() {
    let s = CharSet::single_range('A', 'Z').unwrap();
    assert!(s.contains_char('A'));
    assert!(s.contains_char('M'));
    assert!(s.contains_char('Z'));
    assert!(!s.contains_char('@'));
    assert!(!s.contains_char('['));
}

#[test]
fn from_ranges_normalises_unsorted() {
    let s = CharSet::from_ranges(&[('a', 'z'), ('0', '9'), ('A', 'Z')]).unwrap();
    assert_eq!(s.interval_count(), 3);
    assert_eq!(s.ranges(), &[('0', '9'), ('A', 'Z'), ('a', 'z')]);
}

#[test]
fn from_ranges_merges_overlapping() {
    let s = CharSet::from_ranges(&[('\u{10}', '\u{20}'), ('\u{15}', '\u{25}')]).unwrap();
    assert_eq!(s.interval_count(), 1);
    assert_eq!(s.ranges(), &[('\u{10}', '\u{25}')]);
}

#[test]
fn from_ranges_merges_adjacent() {
    let s = CharSet::from_ranges(&[('\u{10}', '\u{20}'), ('\u{21}', '\u{30}')]).unwrap();
    assert_eq!(s.interval_count(), 1);
    assert_eq!(s.ranges(), &[('\u{10}', '\u{30}')]);
}

#[test]
fn inverted_rejected() {
    assert_eq!(
        CharSet::single_range('\u{20}', '\u{10}'),
        Err(CharSetError::InvertedRange('\u{20}', '\u{10}'))
    );
}

#[test]
fn surrogate_gap_bridged_by_adjacent_ranges() {
    let s = CharSet::from_ranges(&[('\0', '\u{D7FF}'), ('\u{E000}', '\u{FFFF}')]).unwrap();
    assert_eq!(s.interval_count(), 1);
    assert_eq!(s.ranges(), &[('\0', '\u{FFFF}')]);
}

#[test]
fn union_simple() {
    let a = CharSet::from_ranges(&[('\u{10}', '\u{20}')]).unwrap();
    let b = CharSet::from_ranges(&[('\u{30}', '\u{40}')]).unwrap();
    let u = a.union(&b);
    assert_eq!(u.ranges(), &[('\u{10}', '\u{20}'), ('\u{30}', '\u{40}')]);
}

#[test]
fn union_merges_adjacent() {
    let a = CharSet::from_ranges(&[('\u{10}', '\u{1F}')]).unwrap();
    let b = CharSet::from_ranges(&[('\u{20}', '\u{30}')]).unwrap();
    let u = a.union(&b);
    assert_eq!(u.ranges(), &[('\u{10}', '\u{30}')]);
}

#[test]
fn negate_empty_is_any() {
    let neg = CharSet::empty().negate();
    assert_eq!(neg, CharSet::any());
}

#[test]
fn negate_any_is_empty() {
    let neg = CharSet::any().negate();
    assert_eq!(neg, CharSet::empty());
}

#[test]
fn negate_single_range() {
    let s = CharSet::from_ranges(&[('A', 'Z')]).unwrap();
    let n = s.negate();
    assert!(n.contains_char('@'));
    assert!(!n.contains_char('A'));
    assert!(!n.contains_char('Z'));
    assert!(n.contains_char('['));
    assert!(n.contains_char(char::MAX));
}

#[test]
fn contains_boundary() {
    let s = CharSet::from_ranges(&[('\u{80}', char::MAX)]).unwrap();
    assert!(!s.contains_char('\u{7F}'));
    assert!(s.contains_char('\u{80}'));
    assert!(s.contains_char(char::MAX));
}

#[test]
fn debug_format() {
    let s = CharSet::from_ranges(&[('A', 'Z'), ('a', 'a')]).unwrap();
    let dbg = s.debug_string();
    assert_eq!(dbg, "CharSet[U+0041-U+005A,U+0061]");
}

#[test]
fn negate_twice_gives_back_the_set() {
    let s = CharSet::from_ranges(&[('0', '9'), ('\u{E000}', '\u{E0FF}')]).unwrap();
    assert_eq!(s.negate().negate(), s);
}

#[test]
fn union_is_commutative_on_examples() {
    let a = CharSet::from_ranges(&[('a', 'f'), ('x', 'z')]).unwrap();
    let b = CharSet::from_ranges(&[('d', 'k')]).unwrap();
    assert_eq!(a.union(&b), b.union(&a));
    assert_eq!(a.union(&b).ranges(), &[('a', 'k'), ('x', 'z')]);
}

#[test]
fn from_chars_collects_each_char() {
    let s = CharSet::from_chars(&['c', 'a', 'b', 'z']);
    assert_eq!(s.ranges(), &[('a', 'c'), ('z', 'z')]);
}

#[test]
fn negate_twice_gives_the_same_set() {
    let a = CharSet::from_chars(&['a', 'q', '世']);
    let nn = a.negate().negate();
    for c in ['a', 'b', 'q', '世', '\u{0}', '\u{10FFFF}'] {
        assert_eq!(nn.contains_char(c), a.contains_char(c));
    }
    assert!(nn.same_as(&a));
}
