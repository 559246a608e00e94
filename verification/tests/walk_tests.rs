use syntax_highlighter::pegvm::{Capture, CaptureKind};
use syntax_highlighter::walk::walk;

fn cap(kind: u16, start: usize, end: usize) -> Capture {
    Capture { kind: CaptureKind(kind), start, end }
}

fn collect(input: &str, captures: &[Capture], kinds: &[String]) -> Vec<(usize, usize, Option<String>)> {
    walk(input, captures, kinds).into_iter().map(|s| (s.start, s.end, s.kind)).collect()
}

fn assert_tiles(input: &str, segs: &[(usize, usize, Option<String>)]) {
    if input.is_empty() {
        assert!(segs.is_empty(), "empty input must emit no segments, got {segs:?}");
        return;
    }
    assert!(!segs.is_empty(), "non-empty input must emit at least one segment");
    assert_eq!(segs[0].0, 0, "first segment must start at 0");
    for pair in segs.windows(2) {
        assert_eq!(pair[0].1, pair[1].0, "segments must be contiguous (gap between {} and {})", pair[0].1, pair[1].0);
        assert!(pair[0].0 < pair[0].1, "segment must be non-empty: {:?}", pair[0]);
    }
    assert_eq!(segs.last().unwrap().1, input.len(), "last segment must end at input.len()");
}

#[test]
fn empty_input_emits_no_segments() {
    let segs = collect("", &[], &[]);
    assert!(segs.is_empty());
}

#[test]
fn no_captures_emits_one_unkinded_segment_covering_input() {
    let input = "hello";
    let segs = collect(input, &[], &[]);
    assert_tiles(input, &segs);
    assert_eq!(segs, vec![(0, 5, None)]);
}

#[test]
fn single_capture_in_middle_emits_three_segments() {
    let input = "abcdef";
    let kinds = vec!["k".to_string()];
    let captures = vec![cap(0, 2, 4)];
    let segs = collect(input, &captures, &kinds);
    assert_tiles(input, &segs);
    assert_eq!(segs, vec![(0, 2, None), (2, 4, Some("k".to_string())), (4, 6, None)]);
}

#[test]
fn capture_covering_whole_input_emits_one_kinded_segment() {
    let input = "abc";
    let kinds = vec!["k".to_string()];
    let captures = vec![cap(0, 0, 3)];
    let segs = collect(input, &captures, &kinds);
    assert_tiles(input, &segs);
    assert_eq!(segs, vec![(0, 3, Some("k".to_string()))]);
}

#[test]
fn nested_captures_emit_inner_kind_inside_outer() {
    let input = "abcdefghij";
    let kinds = vec!["outer".to_string(), "inner".to_string()];
    let captures = vec![cap(0, 0, 10), cap(1, 3, 7)];
    let segs = collect(input, &captures, &kinds);
    assert_tiles(input, &segs);
    assert_eq!(
        segs,
        vec![
            (0, 3, Some("outer".to_string())),
            (3, 7, Some("inner".to_string())),
            (7, 10, Some("outer".to_string())),
        ]
    );
}

#[test]
fn nested_captures_with_shared_end_close_inner_first() {
    let input = "abcdefghij";
    let kinds = vec!["outer".to_string(), "inner".to_string()];
    let captures = vec![cap(0, 0, 10), cap(1, 5, 10)];
    let segs = collect(input, &captures, &kinds);
    assert_tiles(input, &segs);
    assert_eq!(segs, vec![(0, 5, Some("outer".to_string())), (5, 10, Some("inner".to_string()))]);
}

#[test]
fn overlapping_captures_still_tile_input() {
    let input = "abcdefghij";
    let kinds = vec!["a".to_string(), "b".to_string()];
    let captures = vec![cap(0, 0, 6), cap(1, 4, 10)];
    let segs = collect(input, &captures, &kinds);
    assert_tiles(input, &segs);
}

#[test]
fn partial_parse_trailing_tail_is_unkinded() {
    let input = "abcdefghij";
    let kinds = vec!["k".to_string()];
    let captures = vec![cap(0, 0, 5)];
    let segs = collect(input, &captures, &kinds);
    assert_tiles(input, &segs);
    assert_eq!(segs, vec![(0, 5, Some("k".to_string())), (5, 10, None)]);
}

#[test]
fn adjacent_captures_emit_back_to_back_kinded_segments() {
    let input = "abcdefghi";
    let kinds = vec!["a".to_string(), "b".to_string()];
    let captures = vec![cap(0, 0, 3), cap(1, 3, 6)];
    let segs = collect(input, &captures, &kinds);
    assert_tiles(input, &segs);
    assert_eq!(
        segs,
        vec![(0, 3, Some("a".to_string())), (3, 6, Some("b".to_string())), (6, 9, None)]
    );
}

#[test]
fn multibyte_input_is_tiled_by_bytes() {
    let input = "é世x";
    let kinds = vec!["k".to_string()];
    let captures = vec![cap(0, 2, 5)];
    let segs = collect(input, &captures, &kinds);
    assert_tiles(input, &segs);
    assert_eq!(segs, vec![(0, 2, None), (2, 5, Some("k".to_string())), (5, 6, None)]);
}

#[test]
fn adjacent_siblings_of_one_kind_stay_separate_segments() {
    let kinds = vec!["k".to_string()];
    let segs = collect("abcd", &[cap(0, 0, 2), cap(0, 2, 4)], &kinds);
    assert_eq!(
        segs,
        vec![(0, 2, Some("k".to_string())), (2, 4, Some("k".to_string()))]
    );
}
