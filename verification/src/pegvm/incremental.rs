//! Persistent memoization cache for incremental reparsing.
//!
//! Each memo entry carries `examined_max`, the farthest input position
//! its rule invocation looked at. For an edit replacing
//! `[edit.start, edit.old_end)` with content ending at `edit.new_end`:
//!
//! - an entry at `(memo_id, start_sp)` is **invalidated** iff
//!   `start_sp < edit.old_end && examined_max > edit.start`;
//! - an entry with `start_sp >= edit.old_end` is **shifted** by
//!   `new_end - old_end` (key, `end_sp`, `examined_max` and captures);
//! - every other entry lies before the edit and is kept unchanged.
use vstd::prelude::*;

use super::instruction::MemoId;
use super::vm::Capture;

verus! {

/// One edit of the parser's input, by byte offsets.
///
/// Invariant: `start <= old_end` and `start <= new_end`.
#[derive(Debug, Clone, Copy, PartialEq, Eq, Structural)]
pub struct Edit {
    pub start: usize,
    pub old_end: usize,
    pub new_end: usize,
}

impl Edit {
    /// Insertion of `inserted_len` bytes at `at`.
    pub fn insertion(at: usize, inserted_len: usize) -> (e: Edit)
        requires
            at + inserted_len <= usize::MAX,
        ensures
            e == (Edit { start: at, old_end: at, new_end: (at + inserted_len) as usize }),
    {
        Edit { start: at, old_end: at, new_end: at + inserted_len }
    }

    /// Deletion of `[start, old_end)`.
    pub fn deletion(start: usize, old_end: usize) -> (e: Edit)
        requires
            start <= old_end,
        ensures
            e == (Edit { start, old_end, new_end: start }),
    {
        Edit { start, old_end, new_end: start }
    }

    /// Replacement of `[start, old_end)` with `new_len` bytes.
    pub fn replacement(start: usize, old_end: usize, new_len: usize) -> (e: Edit)
        requires
            start <= old_end,
            start + new_len <= usize::MAX,
        ensures
            e == (Edit { start, old_end, new_end: (start + new_len) as usize }),
    {
        Edit { start, old_end, new_end: start + new_len }
    }

    /// The edit changes nothing.
    pub open spec fn spec_is_noop(self) -> bool {
        self.start == self.old_end && self.start == self.new_end
    }

    fn is_noop(self) -> (b: bool)
        ensures
            b == self.spec_is_noop(),
    {
        self.start == self.old_end && self.start == self.new_end
    }
}

/// A memo-table entry for a rule invocation at a specific input position.
///
/// `end_sp.is_some()` encodes success and carries where the rule stopped,
/// plus the (closed) captures it produced; `None` encodes a cached failure.
/// `examined_max` is the farthest input position the invocation looked at.
#[derive(Debug, Clone)]
pub struct MemoEntry {
    pub end_sp: Option<usize>,
    pub examined_max: usize,
    pub captures: Vec<Capture>,
}

/// One keyed entry of the memo table.
#[derive(Debug, Clone)]
pub struct MemoRecord {
    pub memo_id: MemoId,
    pub start_sp: usize,
    pub entry: MemoEntry,
}

/// Position `x` moved by the edit's length change (wrapping, as offsets do).
pub open spec fn shift_pos(x: usize, e: Edit) -> usize {
    x.wrapping_sub(e.old_end).wrapping_add(e.new_end)
}

/// Capture moved by the edit.
pub open spec fn shift_capture(c: Capture, e: Edit) -> Capture {
    Capture { kind: c.kind, start: shift_pos(c.start, e), end: shift_pos(c.end, e) }
}

/// The captures of an entry moved by the edit.
pub open spec fn shift_captures(cs: Seq<Capture>, e: Edit) -> Seq<Capture> {
    cs.map_values(|c: Capture| shift_capture(c, e))
}

/// The edit invalidates an entry at `start_sp` that examined up to `examined_max`.
pub open spec fn invalidates(e: Edit, start_sp: usize, examined_max: usize) -> bool {
    start_sp < e.old_end && examined_max > e.start
}

/// Abstract value of a record: key, end, watermark and captures.
pub type RecordView = (MemoId, usize, Option<usize>, usize, Seq<Capture>);

impl MemoRecord {
    pub open spec fn view(&self) -> RecordView {
        (self.memo_id, self.start_sp, self.entry.end_sp, self.entry.examined_max, self.entry.captures@)
    }
}

/// What the edit does to one surviving record.
pub open spec fn edited_record(r: RecordView, e: Edit) -> RecordView {
    if r.1 >= e.old_end {
        (
            r.0,
            shift_pos(r.1, e),
            match r.2 {
                Some(x) => Some(shift_pos(x, e)),
                None => None,
            },
            shift_pos(r.3, e),
            shift_captures(r.4, e),
        )
    } else {
        r
    }
}

/// The records that survive the edit, moved as the edit requires, in order.
pub open spec fn edited_records(rs: Seq<RecordView>, e: Edit) -> Seq<RecordView>
    decreases rs.len(),
{
    if rs.len() == 0 {
        Seq::empty()
    } else {
        let rest = edited_records(rs.drop_last(), e);
        let r = rs.last();
        if invalidates(e, r.1, r.3) {
            rest
        } else {
            rest.push(edited_record(r, e))
        }
    }
}

/// The entry stored for `(memo_id, start_sp)`: the first record with that key.
pub open spec fn lookup(rs: Seq<RecordView>, memo_id: MemoId, start_sp: usize) -> Option<RecordView>
    decreases rs.len(),
{
    if rs.len() == 0 {
        None
    } else if rs[0].0 == memo_id && rs[0].1 == start_sp {
        Some(rs[0])
    } else {
        lookup(rs.drop_first(), memo_id, start_sp)
    }
}

/// `i` is the first record of `rs` stored under `(memo_id, start_sp)`.
pub open spec fn first_with_key(rs: Seq<RecordView>, i: int, memo_id: MemoId, start_sp: usize) -> bool {
    &&& 0 <= i < rs.len()
    &&& rs[i].0 == memo_id
    &&& rs[i].1 == start_sp
    &&& forall|j: int| 0 <= j < i ==> !(#[trigger] rs[j].0 == memo_id && rs[j].1 == start_sp)
}

/// `after` is `rs` with `r` stored under its key: the first record with
/// that key replaced by `r`, or `r` appended when there is none.
pub open spec fn stored_as(rs: Seq<RecordView>, r: RecordView, after: Seq<RecordView>) -> bool {
    ||| lookup(rs, r.0, r.1) is None && after == rs.push(r)
    ||| exists|i: int| #[trigger] first_with_key(rs, i, r.0, r.1) && after == rs.update(i, r)
}

/// Memoization table carried across incremental reparses.
#[derive(Debug, Clone)]
pub struct MemoCache {
    records: Vec<MemoRecord>,
}

impl MemoCache {
    /// The records, in insertion order.
    pub closed spec fn view(&self) -> Seq<RecordView> {
        self.records@.map_values(|r: MemoRecord| r.view())
    }

    pub fn new() -> (c: MemoCache)
        ensures
            c.view() == Seq::<RecordView>::empty(),
    {
        let c = MemoCache { records: Vec::new() };
        proof {
            assert(c.view() =~= Seq::<RecordView>::empty());
        }
        c
    }

    pub fn len(&self) -> (n: usize)
        ensures
            n == self.view().len(),
    {
        self.records.len()
    }

    pub fn is_empty(&self) -> (b: bool)
        ensures
            b == (self.view().len() == 0),
    {
        self.records.len() == 0
    }

    /// Index of the first record with the key, if any.
    fn find(&self, memo_id: MemoId, start_sp: usize) -> (r: Option<usize>)
        ensures
            match r {
                Some(i) => i < self.view().len() && lookup(self.view(), memo_id, start_sp) == Some(
                    self.view()[i as int],
                ) && self.view()[i as int].0 == memo_id && self.view()[i as int].1 == start_sp
                    && forall|j: int| 0 <= j < i ==> !(#[trigger] self.view()[j].0 == memo_id
                    && self.view()[j].1 == start_sp),
                None => lookup(self.view(), memo_id, start_sp) is None,
            },
    {
        let mut i: usize = 0;
        proof {
            assert(self.view().skip(0) == self.view());
        }
        while i < self.records.len()
            invariant
                i <= self.records.len(),
                lookup(self.view(), memo_id, start_sp) == lookup(self.view().skip(i as int), memo_id, start_sp),
                forall|j: int| 0 <= j < i ==> !(#[trigger] self.view()[j].0 == memo_id
                    && self.view()[j].1 == start_sp),
            decreases self.records.len() - i,
        {
            let r = &self.records[i];
            proof {
                let rest = self.view().skip(i as int);
                assert(rest[0] == self.view()[i as int]);
                assert(rest.drop_first() == self.view().skip(i + 1));
            }
            if r.memo_id == memo_id && r.start_sp == start_sp {
                return Some(i);
            }
            i += 1;
        }
        proof {
            assert(self.view().skip(i as int).len() == 0);
        }
        None
    }

    /// The entry stored for `(memo_id, start_sp)`.
    pub fn get(&self, memo_id: MemoId, start_sp: usize) -> (r: Option<&MemoEntry>)
        ensures
            match r {
                Some(e) => lookup(self.view(), memo_id, start_sp) == Some(
                    (memo_id, start_sp, e.end_sp, e.examined_max, e.captures@),
                ),
                None => lookup(self.view(), memo_id, start_sp) is None,
            },
    {
        match self.find(memo_id, start_sp) {
            Some(i) => Some(&self.records[i].entry),
            None => None,
        }
    }

    /// Store `entry` under `(memo_id, start_sp)`, replacing the entry
    /// already stored there, if any.
    pub fn insert(&mut self, memo_id: MemoId, start_sp: usize, entry: MemoEntry)
        ensures
            stored_as(
                old(self).view(),
                (memo_id, start_sp, entry.end_sp, entry.examined_max, entry.captures@),
                final(self).view(),
            ),
            lookup(final(self).view(), memo_id, start_sp) == Some(
                (memo_id, start_sp, entry.end_sp, entry.examined_max, entry.captures@),
            ),
            final(self).view().len() == old(self).view().len() + (if lookup(
                old(self).view(),
                memo_id,
                start_sp,
            ) is Some {
                0int
            } else {
                1int
            }),
    {
        let rec = MemoRecord { memo_id, start_sp, entry };
        match self.find(memo_id, start_sp) {
            Some(i) => {
                let ghost old_view = self.view();
                self.records.set(i, rec);
                proof {
                    assert(self.view() == old_view.update(i as int, rec.view()));
                    assert(first_with_key(old_view, i as int, memo_id, start_sp));
                    lemma_lookup_update(old_view, i as int, rec.view());
                }
            },
            None => {
                let ghost old_view = self.view();
                self.records.push(rec);
                proof {
                    assert(self.view() == old_view.push(rec.view()));
                    lemma_lookup_push(old_view, rec.view());
                }
            },
        }
    }

    /// Apply `edit` to every cached entry: drop those whose examined span
    /// crosses the edit, shift those after it, keep those before it.
    pub fn apply_edit(&mut self, edit: Edit)
        ensures
            edit.spec_is_noop() ==> final(self).view() == old(self).view(),
            !edit.spec_is_noop() ==> final(self).view() == edited_records(old(self).view(), edit),
    {
        if edit.is_noop() {
            return;
        }
        let n = self.records.len();
        let mut next: Vec<MemoRecord> = Vec::new();
        let mut i: usize = 0;
        while i < n
            invariant
                n == self.records.len(),
                i <= n,
                next@.map_values(|r: MemoRecord| r.view()) == edited_records(
                    self.view().take(i as int),
                    edit,
                ),
            decreases n - i,
        {
            let rec = &self.records[i];
            let ghost prefix = self.view().take(i as int);
            proof {
                assert(self.view().take(i + 1).drop_last() == prefix);
                assert(self.view().take(i + 1).last() == rec.view());
            }
            if rec.start_sp < edit.old_end && rec.entry.examined_max > edit.start {
                // invalidated
            } else if rec.start_sp >= edit.old_end {
                let shifted = shift_record(rec, edit);
                let ghost before = next@;
                next.push(shifted);
                proof {
                    assert(next@.map_values(|r: MemoRecord| r.view()) == before.map_values(
                        |r: MemoRecord| r.view(),
                    ).push(shifted.view()));
                }
            } else {
                let ghost before = next@;
                next.push(rec.clone_record());
                proof {
                    assert(next@.map_values(|r: MemoRecord| r.view()) == before.map_values(
                        |r: MemoRecord| r.view(),
                    ).push(rec.view()));
                }
            }
            i += 1;
        }
        proof {
            assert(self.view().take(n as int) == self.view());
        }
        self.records = next;
    }
}

impl MemoRecord {
    /// Field-by-field copy.
    pub fn clone_record(&self) -> (r: MemoRecord)
        ensures
            r.view() == self.view(),
    {
        MemoRecord {
            memo_id: self.memo_id,
            start_sp: self.start_sp,
            entry: MemoEntry {
                end_sp: self.entry.end_sp,
                examined_max: self.entry.examined_max,
                captures: copy_captures(&self.entry.captures),
            },
        }
    }
}

/// Element-wise copy of a capture list.
pub fn copy_captures(cs: &Vec<Capture>) -> (out: Vec<Capture>)
    ensures
        out@ == cs@,
{
    let mut out: Vec<Capture> = Vec::with_capacity(cs.len());
    let mut i: usize = 0;
    while i < cs.len()
        invariant
            i <= cs.len(),
            out@ == cs@.take(i as int),
        decreases cs.len() - i,
    {
        out.push(cs[i]);
        i += 1;
        proof {
            assert(out@ == cs@.take(i as int));
        }
    }
    proof {
        assert(cs@.take(cs@.len() as int) == cs@);
    }
    out
}

fn shift(x: usize, e: Edit) -> (r: usize)
    ensures
        r == shift_pos(x, e),
{
    x.wrapping_sub(e.old_end).wrapping_add(e.new_end)
}

fn shift_record(rec: &MemoRecord, e: Edit) -> (r: MemoRecord)
    requires
        rec.start_sp >= e.old_end,
    ensures
        r.view() == edited_record(rec.view(), e),
{
    let mut caps: Vec<Capture> = Vec::with_capacity(rec.entry.captures.len());
    let mut i: usize = 0;
    while i < rec.entry.captures.len()
        invariant
            i <= rec.entry.captures.len(),
            caps@ == shift_captures(rec.entry.captures@.take(i as int), e),
        decreases rec.entry.captures.len() - i,
    {
        let c = rec.entry.captures[i];
        caps.push(Capture { kind: c.kind, start: shift(c.start, e), end: shift(c.end, e) });
        i += 1;
        proof {
            assert(caps@ =~= shift_captures(rec.entry.captures@.take(i as int), e));
        }
    }
    proof {
        assert(rec.entry.captures@.take(rec.entry.captures@.len() as int) == rec.entry.captures@);
    }
    let end_sp = match rec.entry.end_sp {
        Some(x) => Some(shift(x, e)),
        None => None,
    };
    MemoRecord {
        memo_id: rec.memo_id,
        start_sp: shift(rec.start_sp, e),
        entry: MemoEntry { end_sp, examined_max: shift(rec.entry.examined_max, e), captures: caps },
    }
}

/// Storing a record under one key leaves what every other key finds.
pub(crate) proof fn lemma_stored_as_other(
    rs: Seq<RecordView>,
    r: RecordView,
    after: Seq<RecordView>,
    memo_id: MemoId,
    start_sp: usize,
)
    requires
        stored_as(rs, r, after),
        !(memo_id == r.0 && start_sp == r.1),
    ensures
        lookup(after, memo_id, start_sp) == lookup(rs, memo_id, start_sp),
{
    if lookup(rs, r.0, r.1) is None && after == rs.push(r) {
        lemma_lookup_push_other(rs, r, memo_id, start_sp);
    } else {
        let i = choose|i: int| #[trigger] first_with_key(rs, i, r.0, r.1) && after == rs.update(i, r);
        lemma_lookup_update_other(rs, i, r, memo_id, start_sp);
    }
}

proof fn lemma_lookup_push_other(rs: Seq<RecordView>, r: RecordView, memo_id: MemoId, start_sp: usize)
    requires
        !(memo_id == r.0 && start_sp == r.1),
    ensures
        lookup(rs.push(r), memo_id, start_sp) == lookup(rs, memo_id, start_sp),
    decreases rs.len(),
{
    if rs.len() > 0 {
        assert(rs.push(r).drop_first() == rs.drop_first().push(r));
        lemma_lookup_push_other(rs.drop_first(), r, memo_id, start_sp);
    } else {
        assert(rs.push(r).drop_first() =~= rs);
    }
}

proof fn lemma_lookup_update_other(
    rs: Seq<RecordView>,
    i: int,
    r: RecordView,
    memo_id: MemoId,
    start_sp: usize,
)
    requires
        0 <= i < rs.len(),
        rs[i].0 == r.0 && rs[i].1 == r.1,
        !(memo_id == r.0 && start_sp == r.1),
    ensures
        lookup(rs.update(i, r), memo_id, start_sp) == lookup(rs, memo_id, start_sp),
    decreases rs.len(),
{
    if i > 0 {
        assert(rs.update(i, r).drop_first() == rs.drop_first().update(i - 1, r));
        lemma_lookup_update_other(rs.drop_first(), i - 1, r, memo_id, start_sp);
    } else {
        assert(rs.update(0, r).drop_first() == rs.drop_first());
    }
}

proof fn lemma_lookup_update(rs: Seq<RecordView>, i: int, r: RecordView)
    requires
        0 <= i < rs.len(),
        rs[i].0 == r.0 && rs[i].1 == r.1,
        forall|j: int| 0 <= j < i ==> !(#[trigger] rs[j].0 == r.0 && rs[j].1 == r.1),
    ensures
        lookup(rs.update(i, r), r.0, r.1) == Some(r),
        rs.update(i, r).len() == rs.len(),
    decreases rs.len(),
{
    if i > 0 {
        assert(rs.update(i, r).drop_first() == rs.drop_first().update(i - 1, r));
        assert forall|j: int| 0 <= j < i - 1 implies !(#[trigger] rs.drop_first()[j].0 == r.0
            && rs.drop_first()[j].1 == r.1) by {
            assert(rs.drop_first()[j] == rs[j + 1]);
        }
        assert(!(rs[0].0 == r.0 && rs[0].1 == r.1));
        lemma_lookup_update(rs.drop_first(), i - 1, r);
    }
}

proof fn lemma_lookup_push(rs: Seq<RecordView>, r: RecordView)
    requires
        lookup(rs, r.0, r.1) is None,
    ensures
        lookup(rs.push(r), r.0, r.1) == Some(r),
    decreases rs.len(),
{
    if rs.len() > 0 {
        assert(rs.push(r).drop_first() == rs.drop_first().push(r));
        lemma_lookup_push(rs.drop_first(), r);
    }
}

} // verus!
