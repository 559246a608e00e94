use syntax_highlighter::pegvm::incremental::MemoEntry;
use syntax_highlighter::pegvm::{Capture, CaptureKind, Edit, MemoCache, MemoId};

fn cap(start: usize, end: usize) -> Capture {
    Capture { kind: CaptureKind(0), start, end }
}

fn success(end_sp: usize, examined_max: usize, captures: Vec<Capture>) -> MemoEntry {
    MemoEntry { end_sp: Some(end_sp), examined_max, captures }
}

fn failure(examined_max: usize) -> MemoEntry {
    MemoEntry { end_sp: None, examined_max, captures: vec![] }
}

fn populate(pairs: Vec<((MemoId, usize), MemoEntry)>) -> MemoCache {
    let mut cache = MemoCache::new();
    for ((id, sp), e) in pairs {
        cache.insert(id, sp, e);
    }
    cache
}

#[test]
fn noop_edit_leaves_everything_intact() {
    let mut cache = populate(vec![
        ((MemoId(0), 0), success(10, 12, vec![cap(0, 10)])),
        ((MemoId(1), 5), success(8, 8, vec![])),
    ]);
    cache.apply_edit(Edit { start: 7, old_end: 7, new_end: 7 });
    assert_eq!(cache.len(), 2);
    assert_eq!(cache.get(MemoId(0), 0).unwrap().examined_max, 12);
    assert_eq!(cache.get(MemoId(1), 5).unwrap().end_sp, Some(8));
}

#[test]
fn entry_fully_before_edit_is_kept_unshifted() {
    let mut cache = populate(vec![((MemoId(0), 0), success(5, 5, vec![cap(1, 4)]))]);
    cache.apply_edit(Edit::insertion(10, 3));
    let e = cache.get(MemoId(0), 0).expect("must survive");
    assert_eq!(e.end_sp, Some(5));
    assert_eq!(e.examined_max, 5);
    assert_eq!(e.captures, vec![cap(1, 4)]);
}

#[test]
fn entry_starting_after_edit_is_shifted() {
    let mut cache = populate(vec![((MemoId(2), 20), success(25, 30, vec![cap(22, 24)]))]);
    cache.apply_edit(Edit::insertion(5, 5));
    assert!(cache.get(MemoId(2), 20).is_none(), "old key gone");
    let e = cache.get(MemoId(2), 25).expect("entry present under shifted key");
    assert_eq!(e.end_sp, Some(30));
    assert_eq!(e.examined_max, 35);
    assert_eq!(e.captures, vec![cap(27, 29)]);
}

#[test]
fn deletion_shifts_entries_left() {
    let mut cache = populate(vec![((MemoId(0), 20), success(25, 30, vec![cap(20, 25)]))]);
    cache.apply_edit(Edit::deletion(5, 10));
    let e = cache.get(MemoId(0), 15).expect("entry present under shifted key");
    assert_eq!(e.end_sp, Some(20));
    assert_eq!(e.examined_max, 25);
    assert_eq!(e.captures, vec![cap(15, 20)]);
}

#[test]
fn entry_spanning_edit_is_invalidated() {
    let mut cache = populate(vec![((MemoId(0), 0), success(18, 20, vec![cap(0, 18)]))]);
    cache.apply_edit(Edit::replacement(10, 12, 2));
    assert_eq!(cache.len(), 0, "entry must be dropped");
}

#[test]
fn entry_starting_inside_edit_is_invalidated() {
    let mut cache = populate(vec![((MemoId(0), 8), success(10, 10, vec![]))]);
    cache.apply_edit(Edit::replacement(5, 12, 7));
    assert_eq!(cache.len(), 0);
}

#[test]
fn entry_ending_at_edit_boundary_is_kept() {
    let mut cache = populate(vec![((MemoId(0), 0), success(10, 10, vec![]))]);
    cache.apply_edit(Edit::replacement(10, 12, 5));
    let e = cache.get(MemoId(0), 0).expect("entry must survive");
    assert_eq!(e.examined_max, 10);
}

#[test]
fn failure_entry_with_eof_read_is_invalidated_on_append() {
    let mut cache = populate(vec![((MemoId(0), 0), failure(6))]);
    cache.apply_edit(Edit::insertion(5, 3));
    assert_eq!(cache.len(), 0, "EOF-sensitive failure must be dropped");
}

#[test]
fn failure_entry_with_bounded_read_survives_append() {
    let mut cache = populate(vec![((MemoId(0), 0), failure(3))]);
    cache.apply_edit(Edit::insertion(5, 3));
    let e = cache.get(MemoId(0), 0).expect("failure must survive");
    assert_eq!(e.end_sp, None);
    assert_eq!(e.examined_max, 3);
}

#[test]
fn insert_at_zero_shifts_everything() {
    let mut cache = populate(vec![
        ((MemoId(0), 0), success(5, 5, vec![cap(0, 5)])),
        ((MemoId(1), 10), success(15, 18, vec![cap(11, 14)])),
    ]);
    cache.apply_edit(Edit::insertion(0, 4));
    assert_eq!(cache.len(), 2);
    assert_eq!(cache.get(MemoId(0), 4).unwrap().end_sp, Some(9));
    assert_eq!(cache.get(MemoId(0), 4).unwrap().captures, vec![cap(4, 9)]);
    assert_eq!(cache.get(MemoId(1), 14).unwrap().examined_max, 22);
}

#[test]
fn replacement_of_equal_length_does_not_shift_but_invalidates() {
    let mut cache = populate(vec![
        ((MemoId(0), 0), success(20, 20, vec![cap(0, 20)])),
        ((MemoId(1), 25), success(30, 30, vec![cap(25, 30)])),
    ]);
    cache.apply_edit(Edit::replacement(10, 15, 5));
    assert!(cache.get(MemoId(0), 0).is_none(), "spanning entry dropped");
    let e = cache.get(MemoId(1), 25).expect("after-edit entry survives");
    assert_eq!(e.end_sp, Some(30));
    assert_eq!(e.captures, vec![cap(25, 30)]);
}

#[test]
fn same_start_sp_multiple_memo_ids_shift_together() {
    let mut cache = populate(vec![
        ((MemoId(0), 10), success(15, 15, vec![])),
        ((MemoId(1), 10), success(12, 12, vec![])),
    ]);
    cache.apply_edit(Edit::insertion(5, 2));
    assert!(cache.get(MemoId(0), 10).is_none());
    assert!(cache.get(MemoId(1), 10).is_none());
    assert_eq!(cache.get(MemoId(0), 12).unwrap().end_sp, Some(17));
    assert_eq!(cache.get(MemoId(1), 12).unwrap().end_sp, Some(14));
}

#[test]
fn edit_constructors_record_their_spans() {
    assert_eq!(Edit::insertion(4, 3), Edit { start: 4, old_end: 4, new_end: 7 });
    assert_eq!(Edit::deletion(2, 9), Edit { start: 2, old_end: 9, new_end: 2 });
    assert_eq!(Edit::replacement(2, 9, 1), Edit { start: 2, old_end: 9, new_end: 3 });
}
