//! The PEG virtual machine: a backtracking bytecode interpreter with
//! packrat memoization, bounded left recursion, recovery scopes and
//! farthest-failure reporting.
#![verifier::loop_isolation(false)]
use vstd::prelude::*;

use super::incremental::{MemoCache, MemoEntry, lookup};
use super::instruction::{CaptureKind, Instruction, LabelId, MemoId, RuleKind};
use super::program::Program;
use super::utf8::decode_scalar;

verus! {

/// One half-open byte span `start..end` tagged with a capture kind.
/// Captures are emitted in `CaptureBegin` order: start-ascending, a
/// parent before its children.
#[derive(Debug, Clone, Copy, PartialEq, Eq, Structural)]
pub struct Capture {
    pub kind: CaptureKind,
    pub start: usize,
    pub end: usize,
}

/// A capture whose end may not be known yet.
#[derive(Debug, Clone, Copy)]
struct OpenCapture {
    kind: CaptureKind,
    start: usize,
    end: Option<usize>,
}

/// The converged match of a left-recursive rule's previous iteration.
#[derive(Debug)]
struct LSeed {
    end_sp: usize,
    captures: Vec<Capture>,
}

#[derive(Debug)]
enum StackEntry {
    Backtrack { ip: usize, sp: usize, capture_len: usize },
    Return { ip: usize },
    Memo { memo_id: MemoId, start_sp: usize, capture_start_len: usize },
    LFrame {
        memo_id: MemoId,
        start_sp: usize,
        capture_start_len: usize,
        return_addr: usize,
        seed: Option<LSeed>,
    },
    RecoverScope {
        label: LabelId,
        baseline_sp: usize,
        baseline_capture_len: usize,
        scoped_max_sp: usize,
        scoped_max_captures_len: usize,
        scoped_saved_lower: usize,
        scoped_saved_above: Vec<OpenCapture>,
    },
}

/// Outcome of running a program against an input.
///
/// `complete`: the VM reached `End`; `matched` is the input position there.
/// Otherwise `matched` is the farthest position the VM reached and
/// `captures` are those valid at that point, open ones closed there.
#[derive(Debug, Clone, PartialEq, Eq)]
pub struct MatchResult {
    pub matched: usize,
    pub captures: Vec<Capture>,
    pub complete: bool,
    /// One record per fired recovery, when tracking was enabled.
    pub recovery_diagnostics: Vec<RecoveryDiagnostic>,
}

/// A record of one recovery firing.
#[derive(Debug, Clone, PartialEq, Eq)]
pub struct RecoveryDiagnostic {
    /// The catch's diagnostic label.
    pub label: LabelId,
    /// Input position where the failed attempt got furthest; the
    /// recovery body runs from here.
    pub position: usize,
    /// Memoized rules in flight when the recovery fired, outermost first.
    pub rule_stack: Vec<MemoId>,
}

/// Diagnostic counters for the memoization cache.
#[derive(Debug, Clone, Copy, Default, PartialEq, Eq)]
pub struct MemoStats {
    /// Entries in the table at the end of the run.
    pub entries: usize,
    /// `RuleEnter` probes answered by the table.
    pub hits: usize,
    /// `RuleEnter` probes on `Memo` rules that had to run the body.
    pub misses: usize,
}

/// The PEG virtual machine over one program and one input.
pub struct VM<'p, 'i> {
    program: &'p Program,
    input: &'i [u8],
    ip: usize,
    sp: usize,
    stack: Vec<StackEntry>,
    captures: Vec<OpenCapture>,
    max_sp: usize,
    max_captures_len: usize,
    saved_lower: usize,
    saved_above: Vec<OpenCapture>,
    memo: MemoCache,
    memo_hits: usize,
    memo_misses: usize,
    memo_threshold: usize,
    memo_examined: Vec<usize>,
    step_budget: u64,
    track_recovery_diagnostics: bool,
    recovery_diagnostics: Vec<RecoveryDiagnostic>,
}

/// A stack entry refers only to input positions inside `len`.
spec fn entry_fits(e: StackEntry, len: nat) -> bool {
    match e {
        StackEntry::Backtrack { sp, .. } => sp <= len,
        StackEntry::Return { .. } => true,
        StackEntry::Memo { start_sp, .. } => start_sp <= len,
        StackEntry::LFrame { start_sp, seed, .. } => start_sp <= len && match seed {
            Some(s) => s.end_sp <= len,
            None => true,
        },
        StackEntry::RecoverScope { baseline_sp, scoped_max_sp, .. } => baseline_sp <= len
            && scoped_max_sp <= len,
    }
}

/// The examined-position stack after a probe reached `pos`: the top
/// entry rises to `pos` when `pos` lies beyond it.
spec fn bumped(s: Seq<usize>, pos: usize) -> Seq<usize> {
    if s.len() > 0 && pos > s.last() {
        s.update(s.len() - 1, pos)
    } else {
        s
    }
}

/// One past a read of `n` bytes at `sp`, saturated at `usize::MAX`.
spec fn read_end(sp: usize, n: usize) -> usize {
    if sp + n <= usize::MAX {
        (sp + n) as usize
    } else {
        usize::MAX
    }
}

/// A closed capture put back into the live buffer.
spec fn reopened(c: Capture) -> OpenCapture {
    OpenCapture { kind: c.kind, start: c.start, end: Some(c.end) }
}

spec fn reopen_all(cs: Seq<Capture>) -> Seq<OpenCapture> {
    cs.map_values(|c: Capture| reopened(c))
}

/// A live capture closed at `at` when it is still open.
spec fn closed(c: OpenCapture, at: usize) -> Capture {
    Capture {
        kind: c.kind,
        start: c.start,
        end: match c.end {
            Some(e) => e,
            None => at,
        },
    }
}

spec fn close_all(cs: Seq<OpenCapture>, at: usize) -> Seq<Capture> {
    cs.map_values(|c: OpenCapture| closed(c, at))
}

spec fn is_scope(e: StackEntry) -> bool {
    e is RecoverScope
}

spec fn is_lframe(e: StackEntry) -> bool {
    e is LFrame
}

/// `e` is the left-recursion frame of `memo_id` entered at `sp`.
spec fn lr_frame_of(e: StackEntry, memo_id: MemoId, sp: usize) -> bool {
    match e {
        StackEntry::LFrame { memo_id: id, start_sp, .. } => id == memo_id && start_sp == sp,
        _ => false,
    }
}

/// The seed an LR frame holds: its end and captures.
spec fn seed_of(e: StackEntry) -> Option<(usize, Seq<Capture>)> {
    match e {
        StackEntry::LFrame { seed, .. } => match seed {
            Some(s) => Some((s.end_sp, s.captures@)),
            None => None,
        },
        _ => None,
    }
}

/// Rule ids of the `Memo` and `LFrame` entries, bottom first.
spec fn memo_ids(s: Seq<StackEntry>) -> Seq<MemoId>
    decreases s.len(),
{
    if s.len() == 0 {
        Seq::empty()
    } else {
        let rest = memo_ids(s.drop_last());
        match s.last() {
            StackEntry::Memo { memo_id, .. } => rest.push(memo_id),
            StackEntry::LFrame { memo_id, .. } => rest.push(memo_id),
            _ => rest,
        }
    }
}

/// `after` is `before` with the entry stored at the key.
spec fn memo_stores(
    after: Seq<super::incremental::RecordView>,
    before: Seq<super::incremental::RecordView>,
    memo_id: MemoId,
    start_sp: usize,
    end_sp: Option<usize>,
    examined: usize,
    caps: Seq<Capture>,
) -> bool {
    &&& super::incremental::stored_as(before, (memo_id, start_sp, end_sp, examined, caps), after)
    &&& lookup(after, memo_id, start_sp) == Some((memo_id, start_sp, end_sp, examined, caps))
    &&& after.len() == before.len() + (if lookup(before, memo_id, start_sp) is Some {
        0int
    } else {
        1int
    })
}

/// A successful rule is cached: `Lr` always, `Memo` when it consumed at
/// least `threshold` bytes.
spec fn should_cache(kind: RuleKind, start_sp: usize, end_sp: usize, threshold: usize) -> bool {
    match kind {
        RuleKind::Lr => true,
        RuleKind::Memo => end_sp >= start_sp && end_sp - start_sp >= threshold,
    }
}

/// `cs[lo..hi]` listed from the top down: `cs[hi - 1]` first.
spec fn descending<T>(cs: Seq<T>, lo: int, hi: int) -> Seq<T>
    decreases hi - lo,
{
    if hi <= lo {
        Seq::empty()
    } else {
        descending(cs, lo + 1, hi).push(cs[lo])
    }
}

/// `new` is `old` after the watermark advanced to `sp` with `len` live
/// captures: a recovery scope whose deepest point lies behind `sp` moves
/// its own watermark there; every other entry stays.
spec fn snapped(new: StackEntry, old: StackEntry, sp: usize, len: usize) -> bool {
    match old {
        StackEntry::RecoverScope { label, baseline_sp, baseline_capture_len, scoped_max_sp, .. } => {
            if sp > scoped_max_sp {
                match new {
                    StackEntry::RecoverScope {
                        label: l,
                        baseline_sp: b,
                        baseline_capture_len: bc,
                        scoped_max_sp: m,
                        scoped_max_captures_len: mc,
                        scoped_saved_lower: lo,
                        scoped_saved_above: above,
                    } => l == label && b == baseline_sp && bc == baseline_capture_len && m == sp && mc == len
                        && lo == len && above@.len() == 0,
                    _ => false,
                }
            } else {
                new == old
            }
        },
        _ => new == old,
    }
}

/// `new` is `old` after the live captures from `new_len` on were given
/// up: a recovery scope whose saved range starts above both `new_len` and
/// its baseline first keeps the captures down to that bound, top first.
spec fn protected(new: StackEntry, old: StackEntry, caps: Seq<OpenCapture>, new_len: usize) -> bool {
    match old {
        StackEntry::RecoverScope {
            label,
            baseline_sp,
            baseline_capture_len,
            scoped_max_sp,
            scoped_max_captures_len,
            scoped_saved_lower,
            scoped_saved_above,
        } => {
            let clamped = if new_len > baseline_capture_len {
                new_len
            } else {
                baseline_capture_len
            };
            if clamped < scoped_saved_lower {
                let hi = if scoped_saved_lower < caps.len() {
                    scoped_saved_lower as int
                } else {
                    caps.len() as int
                };
                match new {
                    StackEntry::RecoverScope {
                        label: l,
                        baseline_sp: b,
                        baseline_capture_len: bc,
                        scoped_max_sp: m,
                        scoped_max_captures_len: mc,
                        scoped_saved_lower: lo,
                        scoped_saved_above: above,
                    } => l == label && b == baseline_sp && bc == baseline_capture_len && m == scoped_max_sp
                        && mc == scoped_max_captures_len && lo == clamped && above@ == scoped_saved_above@
                        + descending(caps, clamped as int, hi),
                    _ => false,
                }
            } else {
                new == old
            }
        },
        _ => new == old,
    }
}

/// The captures from `from` on, closed at `at`; none when `from` lies
/// past the end.
spec fn closed_from(cs: Seq<OpenCapture>, from: usize, at: usize) -> Seq<Capture> {
    if from <= cs.len() {
        close_all(cs.subrange(from as int, cs.len() as int), at)
    } else {
        Seq::empty()
    }
}

/// The watermark a finished rule pops off the examined stack (`dflt` when
/// the stack is empty), and the stack left after the pop.
spec fn popped_examined(s: Seq<usize>, dflt: usize) -> (usize, Seq<usize>) {
    if s.len() > 0 {
        (s.last(), s.drop_last())
    } else {
        (dflt, s)
    }
}

/// `e` is the packrat frame of `memo_id`.
spec fn memo_frame_of(e: StackEntry, memo_id: MemoId) -> bool {
    match e {
        StackEntry::Memo { memo_id: id, .. } => id == memo_id,
        _ => false,
    }
}

/// `e` is a packrat frame entered at `start_sp` for `memo_id`.
spec fn memo_frame_key(e: StackEntry, memo_id: MemoId, start_sp: usize) -> bool {
    match e {
        StackEntry::Memo { memo_id: id, start_sp: at, .. } => id == memo_id && at == start_sp,
        _ => false,
    }
}

/// Some packrat frame of `s` at index `lo` or above was entered at
/// `start_sp` for `memo_id`.
spec fn memo_frame_in(s: Seq<StackEntry>, lo: int, memo_id: MemoId, start_sp: usize) -> bool {
    exists|j: int| lo <= j < s.len() && #[trigger] memo_frame_key(s[j], memo_id, start_sp)
}

/// The record found under `(memo_id, start_sp)` is a failure.
spec fn failure_recorded(rs: Seq<super::incremental::RecordView>, memo_id: MemoId, start_sp: usize) -> bool {
    match lookup(rs, memo_id, start_sp) {
        Some(r) => r.2 is None && r.4.len() == 0,
        None => false,
    }
}

proof fn lemma_memo_frame_in_step(s: Seq<StackEntry>, n: int, memo_id: MemoId, start_sp: usize)
    requires
        0 < n <= s.len(),
    ensures
        memo_frame_in(s, n - 1, memo_id, start_sp) <==> (memo_frame_in(s, n, memo_id, start_sp)
            || memo_frame_key(s[n - 1], memo_id, start_sp)),
{
    if memo_frame_in(s, n - 1, memo_id, start_sp) {
        let j = choose|j: int| n - 1 <= j < s.len() && #[trigger] memo_frame_key(s[j], memo_id, start_sp);
        if j >= n {
            assert(memo_frame_in(s, n, memo_id, start_sp));
        }
    }
    if memo_frame_in(s, n, memo_id, start_sp) {
        let j = choose|j: int| n <= j < s.len() && #[trigger] memo_frame_key(s[j], memo_id, start_sp);
        assert(n - 1 <= j < s.len() && memo_frame_key(s[j], memo_id, start_sp));
    }
    if memo_frame_key(s[n - 1], memo_id, start_sp) {
        assert(n - 1 <= n - 1 < s.len() && memo_frame_key(s[n - 1], memo_id, start_sp));
    }
}

/// `x + 1`, saturated at `usize::MAX`.
spec fn sat_inc(x: usize) -> usize {
    if x < usize::MAX {
        (x + 1) as usize
    } else {
        usize::MAX
    }
}

/// The record stored for `(memo_id, sp)` when its end lies between `sp`
/// and `len`, or records a failure.
spec fn usable_hit(
    rs: Seq<super::incremental::RecordView>,
    memo_id: MemoId,
    sp: usize,
    len: nat,
) -> Option<super::incremental::RecordView> {
    match lookup(rs, memo_id, sp) {
        Some(r) => if (match r.2 {
            Some(e) => e >= sp && e <= len,
            None => true,
        }) {
            Some(r)
        } else {
            None
        },
        None => None,
    }
}

/// `i` is the topmost left-recursion frame of `memo_id` entered at `sp`.
spec fn top_lr_frame_at(s: Seq<StackEntry>, i: int, memo_id: MemoId, sp: usize) -> bool {
    &&& 0 <= i < s.len()
    &&& lr_frame_of(s[i], memo_id, sp)
    &&& forall|j: int| i < j < s.len() ==> !lr_frame_of(#[trigger] s[j], memo_id, sp)
}

/// `x` is what a lookup reports of the seed held by frame `e`.
spec fn seed_matches(e: StackEntry, x: Option<(usize, Vec<Capture>)>) -> bool {
    match x {
        None => seed_of(e) is None,
        Some((end, caps)) => seed_of(e) == Some((end, caps@)),
    }
}

/// The first `n` items of `cs`, or all of them when there are fewer.
spec fn kept_prefix<T>(cs: Seq<T>, n: usize) -> Seq<T> {
    if n <= cs.len() {
        cs.take(n as int)
    } else {
        cs
    }
}

/// `i` is the topmost left-recursion frame of `s`.
spec fn top_lframe_at(s: Seq<StackEntry>, i: int) -> bool {
    &&& 0 <= i < s.len()
    &&& is_lframe(s[i])
    &&& forall|j: int| i < j < s.len() ==> !is_lframe(#[trigger] s[j])
}

/// A displaced capture restored into the live buffer, closed at `at`
/// when it was still open.
spec fn sealed(c: OpenCapture, at: usize) -> OpenCapture {
    OpenCapture {
        kind: c.kind,
        start: c.start,
        end: Some(
            match c.end {
                Some(e) => e,
                None => at,
            },
        ),
    }
}

spec fn seal_all(cs: Seq<OpenCapture>, at: usize) -> Seq<OpenCapture> {
    cs.map_values(|c: OpenCapture| sealed(c, at))
}

/// `i` is the topmost recovery scope of `s`.
spec fn top_scope_at(s: Seq<StackEntry>, i: int) -> bool {
    &&& 0 <= i < s.len()
    &&& is_scope(s[i])
    &&& forall|j: int| i < j < s.len() ==> !is_scope(#[trigger] s[j])
}

/// A frame that failure resumes at: a backtrack point, or a
/// left-recursion frame holding a seed.
spec fn resume_point(e: StackEntry) -> bool {
    match e {
        StackEntry::Backtrack { .. } => true,
        StackEntry::LFrame { seed, .. } => seed is Some,
        _ => false,
    }
}

/// `k` is the topmost frame of `s` that failure resumes at.
spec fn unwound_to(s: Seq<StackEntry>, k: int) -> bool {
    &&& 0 <= k < s.len()
    &&& resume_point(s[k])
    &&& forall|j: int| k < j < s.len() ==> !resume_point(#[trigger] s[j])
}

/// Bytes taken by the scalar at the front of `bytes`: its encoded length,
/// or one byte of invalid UTF-8.
spec fn scalar_width(bytes: Seq<u8>) -> int {
    if vstd::utf8::valid_first_scalar(bytes) {
        vstd::utf8::length_of_first_scalar(bytes)
    } else {
        1
    }
}

/// `i` is the innermost capture of `cs` still open.
spec fn top_open_at(cs: Seq<OpenCapture>, i: int) -> bool {
    &&& 0 <= i < cs.len()
    &&& cs[i].end is None
    &&& forall|j: int| i < j < cs.len() ==> (#[trigger] cs[j]).end is Some
}

/// `set` holds the scalar whose code point is `code`.
spec fn holds_scalar(set: Set<char>, code: u32) -> bool {
    exists|ch: char| ch as int == code as int && #[trigger] set.contains(ch)
}

/// An instruction that moves no watermark and touches neither the memo
/// table nor its counters.
spec fn plain(instr: Instruction) -> bool {
    match instr {
        Instruction::BackCommit(_) => false,
        Instruction::RuleEnter(..) => false,
        Instruction::MemoClose(_) => false,
        Instruction::LRTail(..) => false,
        Instruction::RecoverToScopedMax => false,
        _ => true,
    }
}

/// An instruction that probes the input.
spec fn reads_input(instr: Instruction) -> bool {
    match instr {
        Instruction::Byte(_) => true,
        Instruction::Any => true,
        Instruction::CharSet(_) => true,
        _ => false,
    }
}

/// Every key that finds a record in `a` still finds one in `b`.
pub open spec fn keys_kept(a: Seq<super::incremental::RecordView>, b: Seq<super::incremental::RecordView>) -> bool {
    forall|m: MemoId, p: usize| #[trigger] lookup(a, m, p) is Some ==> lookup(b, m, p) is Some
}

proof fn lemma_keys_kept_trans(
    a: Seq<super::incremental::RecordView>,
    b: Seq<super::incremental::RecordView>,
    c: Seq<super::incremental::RecordView>,
)
    requires
        keys_kept(a, b),
        keys_kept(b, c),
    ensures
        keys_kept(a, c),
{
    assert forall|m: MemoId, p: usize| #[trigger] lookup(a, m, p) is Some implies lookup(c, m, p) is Some by {
        assert(lookup(b, m, p) is Some);
    }
}

proof fn lemma_stores_keep_keys(
    after: Seq<super::incremental::RecordView>,
    before: Seq<super::incremental::RecordView>,
    memo_id: MemoId,
    start_sp: usize,
    end_sp: Option<usize>,
    examined: usize,
    caps: Seq<Capture>,
)
    requires
        memo_stores(after, before, memo_id, start_sp, end_sp, examined, caps),
    ensures
        keys_kept(before, after),
{
    assert forall|m: MemoId, p: usize| #[trigger] lookup(before, m, p) is Some implies lookup(after, m, p) is Some by {
        if !(m == memo_id && p == start_sp) {
            super::incremental::lemma_stored_as_other(before, (memo_id, start_sp, end_sp, examined, caps), after, m, p);
        }
    }
}

/// A stack holding a recovery scope at `j` has a topmost one.
proof fn lemma_topmost_scope(s: Seq<StackEntry>, j: int)
    requires
        0 <= j < s.len(),
        is_scope(s[j]),
    ensures
        exists|i: int| #[trigger] top_scope_at(s, i),
    decreases s.len() - j,
{
    if forall|k: int| j < k < s.len() ==> !is_scope(#[trigger] s[k]) {
        assert(top_scope_at(s, j));
    } else {
        let k = choose|k: int| j < k < s.len() && is_scope(#[trigger] s[k]);
        lemma_topmost_scope(s, k);
    }
}

/// A stack holding a left-recursion frame at `j` has a topmost one.
proof fn lemma_topmost_lframe(s: Seq<StackEntry>, j: int)
    requires
        0 <= j < s.len(),
        is_lframe(s[j]),
    ensures
        exists|i: int| #[trigger] top_lframe_at(s, i),
    decreases s.len() - j,
{
    if forall|k: int| j < k < s.len() ==> !is_lframe(#[trigger] s[k]) {
        assert(top_lframe_at(s, j));
    } else {
        let k = choose|k: int| j < k < s.len() && is_lframe(#[trigger] s[k]);
        lemma_topmost_lframe(s, k);
    }
}

/// Default memo threshold applied by [`VM::new`].
pub const DEFAULT_MEMO_THRESHOLD: usize = 128;

/// A run of `program` over `input`, starting from the memo records
/// `memo` with the default threshold and diagnostics tracked as
/// `tracking`, can end with `r`.
pub open spec fn run_outcome(
    program: Program,
    input: Seq<u8>,
    memo: Seq<super::incremental::RecordView>,
    tracking: bool,
    r: (MatchResult, MemoStats, MemoCache),
) -> bool {
    exists|vm: VM<'static, 'static>|
        #[trigger] vm.starts(program, input, memo, DEFAULT_MEMO_THRESHOLD, tracking) && vm.runs_to(r)
}

fn close_open(c: OpenCapture, close_at: usize) -> (r: Capture)
    ensures
        r == closed(c, close_at),
        r.kind == c.kind,
        r.start == c.start,
        r.end == match c.end {
            Some(e) => e,
            None => close_at,
        },
{
    Capture {
        kind: c.kind,
        start: c.start,
        end: match c.end {
            Some(e) => e,
            None => close_at,
        },
    }
}

fn close_captures(open: &Vec<OpenCapture>, close_at: usize) -> (out: Vec<Capture>)
    ensures
        out.len() == open.len(),
        out@ == close_all(open@, close_at),
{
    let mut out: Vec<Capture> = Vec::with_capacity(open.len());
    let mut i: usize = 0;
    while i < open.len()
        invariant
            i <= open.len(),
            out.len() == i,
            out@ == close_all(open@.take(i as int), close_at),
        decreases open.len() - i,
    {
        proof {
            assert(close_all(open@.take(i + 1), close_at) =~= close_all(open@.take(i as int), close_at).push(
                closed(open@[i as int], close_at),
            ));
        }
        out.push(close_open(open[i], close_at));
        i += 1;
    }
    proof {
        assert(open@.take(open@.len() as int) =~= open@);
    }
    out
}

impl<'p, 'i> VM<'p, 'i> {
    /// Structural invariant: every stored input position lies in the input.
    pub closed spec fn inv(&self) -> bool {
        &&& self.sp <= self.input@.len()
        &&& self.max_sp <= self.input@.len()
        &&& forall|i: int| 0 <= i < self.stack@.len() ==> entry_fits(
            #[trigger] self.stack@[i],
            self.input@.len(),
        )
    }

    /// The program, input and step budget are those of `other`.
    spec fn same_frame(&self, other: Self) -> bool {
        &&& self.program == other.program
        &&& self.input == other.input
        &&& self.step_budget == other.step_budget
    }

    /// Every field that is not a growable buffer is that of `o`.
    spec fn same_scalars(&self, o: Self) -> bool {
        &&& self.program == o.program
        &&& self.input == o.input
        &&& self.ip == o.ip
        &&& self.sp == o.sp
        &&& self.max_sp == o.max_sp
        &&& self.max_captures_len == o.max_captures_len
        &&& self.saved_lower == o.saved_lower
        &&& self.memo_hits == o.memo_hits
        &&& self.memo_misses == o.memo_misses
        &&& self.memo_threshold == o.memo_threshold
        &&& self.step_budget == o.step_budget
        &&& self.track_recovery_diagnostics == o.track_recovery_diagnostics
    }

    /// The watermark buffer and the diagnostics are those of `o`.
    spec fn same_side_buffers(&self, o: Self) -> bool {
        &&& self.saved_above@ == o.saved_above@
        &&& self.recovery_diagnostics@ == o.recovery_diagnostics@
    }

    /// The registers other than `ip` and `sp`, and the side buffers, are
    /// those of `o`.
    spec fn same_run_state(&self, o: Self) -> bool {
        &&& self.program == o.program
        &&& self.input == o.input
        &&& self.max_sp == o.max_sp
        &&& self.max_captures_len == o.max_captures_len
        &&& self.saved_lower == o.saved_lower
        &&& self.memo_hits == o.memo_hits
        &&& self.memo_misses == o.memo_misses
        &&& self.memo_threshold == o.memo_threshold
        &&& self.step_budget == o.step_budget
        &&& self.track_recovery_diagnostics == o.track_recovery_diagnostics
        &&& self.same_side_buffers(o)
    }

    /// Tracking is as in `o`, and without tracking no diagnostic was added.
    spec fn keeps_diagnostics(&self, o: Self) -> bool {
        &&& self.track_recovery_diagnostics == o.track_recovery_diagnostics
        &&& !o.track_recovery_diagnostics ==> self.recovery_diagnostics@ == o.recovery_diagnostics@
    }

    /// Everything but `ip` is that of `o`.
    spec fn same_but_ip(&self, o: Self) -> bool {
        &&& self.same_run_state(o)
        &&& self.sp == o.sp
        &&& self.stack@ == o.stack@
        &&& self.captures@ == o.captures@
        &&& self.memo == o.memo
        &&& self.memo_examined@ == o.memo_examined@
    }

    /// Only the examined-position stack may differ from `o`.
    spec fn same_except_examined(&self, o: Self) -> bool {
        &&& self.same_scalars(o)
        &&& self.same_side_buffers(o)
        &&& self.stack@ == o.stack@
        &&& self.captures@ == o.captures@
        &&& self.memo == o.memo
    }

    /// Only the backtrack stack may differ from `o`.
    spec fn same_except_stack(&self, o: Self) -> bool {
        &&& self.same_scalars(o)
        &&& self.same_side_buffers(o)
        &&& self.memo_examined@ == o.memo_examined@
        &&& self.captures@ == o.captures@
        &&& self.memo == o.memo
    }

    /// Only the live captures may differ from `o`.
    spec fn same_except_captures(&self, o: Self) -> bool {
        &&& self.same_scalars(o)
        &&& self.same_side_buffers(o)
        &&& self.memo_examined@ == o.memo_examined@
        &&& self.stack@ == o.stack@
        &&& self.memo == o.memo
    }

    /// Only the memo table may differ from `o`.
    spec fn same_except_memo(&self, o: Self) -> bool {
        &&& self.same_scalars(o)
        &&& self.same_side_buffers(o)
        &&& self.memo_examined@ == o.memo_examined@
        &&& self.stack@ == o.stack@
        &&& self.captures@ == o.captures@
    }

    /// `self` is `o` after the farthest-failure watermarks caught up with
    /// the current position.
    spec fn snapshot_of(&self, o: Self) -> bool {
        &&& self.program == o.program
        &&& self.input == o.input
        &&& self.ip == o.ip
        &&& self.sp == o.sp
        &&& self.memo_hits == o.memo_hits
        &&& self.memo_misses == o.memo_misses
        &&& self.memo_threshold == o.memo_threshold
        &&& self.step_budget == o.step_budget
        &&& self.track_recovery_diagnostics == o.track_recovery_diagnostics
        &&& self.captures@ == o.captures@
        &&& self.memo == o.memo
        &&& self.memo_examined@ == o.memo_examined@
        &&& self.recovery_diagnostics@ == o.recovery_diagnostics@
        &&& if o.sp > o.max_sp {
            &&& self.max_sp == o.sp
            &&& self.max_captures_len == o.captures@.len()
            &&& self.saved_lower == o.captures@.len()
            &&& self.saved_above@.len() == 0
        } else {
            &&& self.max_sp == o.max_sp
            &&& self.max_captures_len == o.max_captures_len
            &&& self.saved_lower == o.saved_lower
            &&& self.saved_above@ == o.saved_above@
        }
        &&& self.stack@.len() == o.stack@.len()
        &&& forall|i: int|
            #![trigger self.stack@[i]]
            0 <= i < o.stack@.len() ==> snapped(self.stack@[i], o.stack@[i], o.sp, o.captures@.len() as usize)
    }

    /// `self` is `o` after the watermarks took over the live captures from
    /// `new_len` on; the live captures themselves are not described.
    spec fn protected_of(&self, o: Self, new_len: usize) -> bool {
        &&& self.program == o.program
        &&& self.input == o.input
        &&& self.ip == o.ip
        &&& self.sp == o.sp
        &&& self.max_sp == o.max_sp
        &&& self.max_captures_len == o.max_captures_len
        &&& self.memo_hits == o.memo_hits
        &&& self.memo_misses == o.memo_misses
        &&& self.memo_threshold == o.memo_threshold
        &&& self.step_budget == o.step_budget
        &&& self.track_recovery_diagnostics == o.track_recovery_diagnostics
        &&& self.memo == o.memo
        &&& self.memo_examined@ == o.memo_examined@
        &&& self.recovery_diagnostics@ == o.recovery_diagnostics@
        &&& if new_len < o.saved_lower {
            &&& self.saved_lower == new_len
            &&& self.saved_above@ == o.saved_above@ + descending(
                o.captures@,
                new_len as int,
                if o.saved_lower < o.captures@.len() {
                    o.saved_lower as int
                } else {
                    o.captures@.len() as int
                },
            )
        } else {
            &&& self.saved_lower == o.saved_lower
            &&& self.saved_above@ == o.saved_above@
        }
        &&& self.stack@.len() == o.stack@.len()
        &&& forall|i: int|
            #![trigger self.stack@[i]]
            0 <= i < o.stack@.len() ==> protected(self.stack@[i], o.stack@[i], o.captures@, new_len)
    }

    /// The farthest position reached, counting the current one.
    spec fn watermark(&self) -> usize {
        if self.sp > self.max_sp {
            self.sp
        } else {
            self.max_sp
        }
    }

    /// The captures alive at the watermark: the live ones below the saved
    /// bound, then the displaced ones in the order they were alive.
    spec fn deepest_captures(&self) -> Seq<OpenCapture> {
        let lower0 = if self.sp > self.max_sp {
            self.captures@.len() as int
        } else {
            self.saved_lower as int
        };
        let above = if self.sp > self.max_sp {
            Seq::empty()
        } else {
            self.saved_above@
        };
        let lower = if lower0 < self.captures@.len() {
            lower0
        } else {
            self.captures@.len() as int
        };
        self.captures@.take(lower) + descending(above, 0, above.len() as int)
    }

    /// The input this VM runs over.
    pub closed spec fn input_view(&self) -> Seq<u8> {
        self.input@
    }

    /// The memo table the VM starts from.
    pub closed spec fn memo_view(&self) -> Seq<super::incremental::RecordView> {
        self.memo.view()
    }

    /// The memo threshold in force.
    pub closed spec fn threshold(&self) -> usize {
        self.memo_threshold
    }

    /// Diagnostics tracking is enabled.
    pub closed spec fn tracking(&self) -> bool {
        self.track_recovery_diagnostics
    }

    /// The recovery diagnostics recorded so far.
    pub closed spec fn diagnostics(&self) -> Seq<RecoveryDiagnostic> {
        self.recovery_diagnostics@
    }

    /// `self` is a machine about to run `program` over `input` from the
    /// memo records `memo`, with memo threshold `threshold` and diagnostics
    /// tracked as `tracking`: at the first instruction and position, with
    /// empty stacks, no captures, no statistics and the full step budget.
    pub closed spec fn starts(
        &self,
        program: Program,
        input: Seq<u8>,
        memo: Seq<super::incremental::RecordView>,
        threshold: usize,
        tracking: bool,
    ) -> bool {
        &&& *self.program == program
        &&& self.input@ == input
        &&& self.memo.view() == memo
        &&& self.memo_threshold == threshold
        &&& self.track_recovery_diagnostics == tracking
        &&& self.ip == 0
        &&& self.sp == 0
        &&& self.stack@.len() == 0
        &&& self.captures@.len() == 0
        &&& self.max_sp == 0
        &&& self.max_captures_len == 0
        &&& self.saved_lower == 0
        &&& self.saved_above@.len() == 0
        &&& self.memo_hits == 0
        &&& self.memo_misses == 0
        &&& self.memo_examined@.len() == 0
        &&& self.step_budget == 0xFFFF_FFFF_FFFF_FFFFu64
        &&& self.recovery_diagnostics@.len() == 0
    }

    pub fn new(program: &'p Program, input: &'i [u8]) -> (vm: Self)
        ensures
            vm.inv(),
            vm.starts(*program, input@, Seq::empty(), DEFAULT_MEMO_THRESHOLD, false),
            vm.input_view() == input@,
            vm.memo_view() == Seq::<super::incremental::RecordView>::empty(),
            vm.threshold() == DEFAULT_MEMO_THRESHOLD,
            !vm.tracking(),
            vm.diagnostics() == Seq::<RecoveryDiagnostic>::empty(),
    {
        VM {
            program,
            input,
            ip: 0,
            sp: 0,
            stack: Vec::new(),
            captures: Vec::new(),
            max_sp: 0,
            max_captures_len: 0,
            saved_lower: 0,
            saved_above: Vec::new(),
            memo: MemoCache::new(),
            memo_hits: 0,
            memo_misses: 0,
            memo_threshold: DEFAULT_MEMO_THRESHOLD,
            memo_examined: Vec::new(),
            step_budget: 0xFFFF_FFFF_FFFF_FFFF,
            track_recovery_diagnostics: false,
            recovery_diagnostics: Vec::new(),
        }
    }

    /// Override the memo threshold; `0` caches every successful rule.
    pub fn with_memo_threshold(self, bytes: usize) -> (vm: Self)
        requires
            self.inv(),
        ensures
            vm.inv(),
            forall|program: Program, input: Seq<u8>, memo: Seq<super::incremental::RecordView>, t: usize, tracking: bool|
                #[trigger] self.starts(program, input, memo, t, tracking) ==> vm.starts(
                    program,
                    input,
                    memo,
                    bytes,
                    tracking,
                ),
            vm.input_view() == self.input_view(),
            vm.memo_view() == self.memo_view(),
            vm.threshold() == bytes,
            vm.tracking() == self.tracking(),
            vm.diagnostics() == self.diagnostics(),
    {
        let mut vm = self;
        vm.memo_threshold = bytes;
        vm
    }

    /// Opt into one [`RecoveryDiagnostic`] per fired recovery.
    pub fn with_track_recovery_diagnostics(self, enable: bool) -> (vm: Self)
        requires
            self.inv(),
        ensures
            vm.inv(),
            forall|program: Program, input: Seq<u8>, memo: Seq<super::incremental::RecordView>, t: usize, tracking: bool|
                #[trigger] self.starts(program, input, memo, t, tracking) ==> vm.starts(
                    program,
                    input,
                    memo,
                    t,
                    enable,
                ),
            vm.input_view() == self.input_view(),
            vm.memo_view() == self.memo_view(),
            vm.threshold() == self.threshold(),
            vm.tracking() == enable,
            vm.diagnostics() == self.diagnostics(),
    {
        let mut vm = self;
        vm.track_recovery_diagnostics = enable;
        vm
    }

    /// A VM whose memo table starts as `cache`.
    pub fn new_with_cache(program: &'p Program, input: &'i [u8], cache: MemoCache) -> (vm: Self)
        ensures
            vm.inv(),
            vm.starts(*program, input@, cache.view(), DEFAULT_MEMO_THRESHOLD, false),
            vm.input_view() == input@,
            vm.memo_view() == cache.view(),
            vm.threshold() == DEFAULT_MEMO_THRESHOLD,
            !vm.tracking(),
            vm.diagnostics() == Seq::<RecoveryDiagnostic>::empty(),
    {
        let mut vm = Self::new(program, input);
        vm.memo = cache;
        vm
    }

    pub fn run(self) -> (r: MatchResult)
        requires
            self.inv(),
        ensures
            r.matched <= self.input_view().len(),
            !self.tracking() ==> r.recovery_diagnostics@ == self.diagnostics(),
            exists|s: MemoStats, c: MemoCache| #[trigger] self.runs_to((r, s, c)),
    {
        let (result, stats, memo) = self.run_core();
        assert(self.runs_to((result, stats, memo)));
        result
    }

    pub fn run_with_memo_stats(self) -> (r: (MatchResult, MemoStats))
        requires
            self.inv(),
        ensures
            r.0.matched <= self.input_view().len(),
            !self.tracking() ==> r.0.recovery_diagnostics@ == self.diagnostics(),
            exists|c: MemoCache| #[trigger] self.runs_to((r.0, r.1, c)),
    {
        let (result, stats, memo) = self.run_core();
        let r = (result, stats);
        assert(self.runs_to((r.0, r.1, memo)));
        r
    }

    /// Run to completion and hand back the memo table for reuse after an edit.
    pub fn run_with_cache(self) -> (r: (MatchResult, MemoStats, MemoCache))
        requires
            self.inv(),
        ensures
            r.0.matched <= self.input_view().len(),
            r.1.entries == r.2.view().len(),
            !self.tracking() ==> r.0.recovery_diagnostics@ == self.diagnostics(),
            self.runs_to(r),
    {
        self.run_core()
    }

    /// Raise the innermost memoized rule's examined watermark to `pos`.
    fn bump_top_memo_examined(&mut self, pos: usize)
        requires
            old(self).inv(),
        ensures
            final(self).inv(),
            final(self).same_except_examined(*old(self)),
            final(self).memo_examined@ == bumped(old(self).memo_examined@, pos),
    {
        let n = self.memo_examined.len();
        if n > 0 {
            let top = self.memo_examined[n - 1];
            if pos > top {
                self.memo_examined.set(n - 1, pos);
            }
        }
    }

    /// Record a probe of `n` bytes at the current position.
    fn track_read(&mut self, n: usize)
        requires
            old(self).inv(),
        ensures
            final(self).inv(),
            final(self).same_except_examined(*old(self)),
            final(self).memo_examined@ == bumped(old(self).memo_examined@, read_end(old(self).sp, n)),
    {
        let pos = if self.sp <= usize::MAX - n { self.sp + n } else { usize::MAX };
        self.bump_top_memo_examined(pos);
    }

    /// Advance the farthest-failure watermark (global and per scope).
    fn maybe_snapshot(&mut self)
        requires
            old(self).inv(),
        ensures
            final(self).inv(),
            final(self).snapshot_of(*old(self)),
    {
        if self.sp > self.max_sp {
            self.max_sp = self.sp;
            let len = self.captures.len();
            self.max_captures_len = len;
            self.saved_lower = len;
            self.saved_above = Vec::new();
        }
        let ghost mid = *self;
        let cur_sp = self.sp;
        let cur_len = self.captures.len();
        let n = self.stack.len();
        let mut i: usize = 0;
        while i < n
            invariant
                self.inv(),
                i <= n,
                n == self.stack@.len(),
                cur_sp == self.sp,
                cur_sp == old(self).sp,
                cur_len == old(self).captures@.len(),
                mid.stack@ == old(self).stack@,
                self.same_scalars(mid),
                self.same_side_buffers(mid),
                self.memo_examined@ == mid.memo_examined@,
                self.captures@ == mid.captures@,
                self.memo == mid.memo,
                forall|j: int|
                    #![trigger self.stack@[j]]
                    0 <= j < i ==> snapped(self.stack@[j], mid.stack@[j], cur_sp, cur_len),
                forall|j: int| #![trigger self.stack@[j]] i <= j < n ==> self.stack@[j] == mid.stack@[j],
            decreases n - i,
        {
            let ghost before = self.stack@;
            let mut e = StackEntry::Return { ip: 0 };
            std::mem::swap(&mut e, &mut self.stack[i]);
            let ghost e0 = e;
            assert(e0 == before[i as int]);
            assert(entry_fits(e0, self.input@.len()));
            let e2 = match e {
                StackEntry::RecoverScope {
                    label,
                    baseline_sp,
                    baseline_capture_len,
                    scoped_max_sp,
                    scoped_max_captures_len,
                    scoped_saved_lower,
                    scoped_saved_above,
                } => {
                    if cur_sp > scoped_max_sp {
                        StackEntry::RecoverScope {
                            label,
                            baseline_sp,
                            baseline_capture_len,
                            scoped_max_sp: cur_sp,
                            scoped_max_captures_len: cur_len,
                            scoped_saved_lower: cur_len,
                            scoped_saved_above: Vec::new(),
                        }
                    } else {
                        StackEntry::RecoverScope {
                            label,
                            baseline_sp,
                            baseline_capture_len,
                            scoped_max_sp,
                            scoped_max_captures_len,
                            scoped_saved_lower,
                            scoped_saved_above,
                        }
                    }
                },
                other => other,
            };
            assert(snapped(e2, e0, cur_sp, cur_len));
            let mut e3 = e2;
            std::mem::swap(&mut e3, &mut self.stack[i]);
            assert(self.stack@ == before.update(i as int, e2));
            i += 1;
        }
    }

    /// Before truncating `captures` to `new_len`, displace the captures the
    /// farthest-failure watermarks still need.
    fn protect_max_captures(&mut self, new_len: usize)
        requires
            old(self).inv(),
        ensures
            final(self).inv(),
            final(self).protected_of(*old(self), new_len),
            final(self).captures@ == old(self).captures@,
    {
        if new_len < self.saved_lower {
            let hi = if self.saved_lower < self.captures.len() {
                self.saved_lower
            } else {
                self.captures.len()
            };
            let mut k = hi;
            while k > new_len
                invariant
                    k <= hi,
                    hi >= new_len ==> k >= new_len,
                    hi < new_len ==> k == hi,
                    hi <= self.captures.len(),
                    self.inv(),
                    self.same_scalars(*old(self)),
                    self.captures@ == old(self).captures@,
                    self.stack@ == old(self).stack@,
                    self.memo == old(self).memo,
                    self.memo_examined@ == old(self).memo_examined@,
                    self.recovery_diagnostics@ == old(self).recovery_diagnostics@,
                    self.saved_above@ == old(self).saved_above@ + descending(
                        old(self).captures@,
                        k as int,
                        hi as int,
                    ),
                decreases k,
            {
                k -= 1;
                self.saved_above.push(self.captures[k]);
                proof {
                    assert(descending(old(self).captures@, k as int, hi as int) == descending(
                        old(self).captures@,
                        k + 1,
                        hi as int,
                    ).push(old(self).captures@[k as int]));
                    assert(self.saved_above@ =~= old(self).saved_above@ + descending(
                        old(self).captures@,
                        k as int,
                        hi as int,
                    ));
                }
            }
            proof {
                if hi < new_len {
                    assert(descending(old(self).captures@, new_len as int, hi as int) == Seq::<
                        OpenCapture,
                    >::empty());
                }
            }
            self.saved_lower = new_len;
        }
        let ghost mid = *self;
        let n = self.stack.len();
        let mut i: usize = 0;
        while i < n
            invariant
                self.inv(),
                i <= n,
                n == self.stack@.len(),
                mid.stack@ == old(self).stack@,
                self.same_scalars(mid),
                self.same_side_buffers(mid),
                self.memo_examined@ == mid.memo_examined@,
                self.captures@ == old(self).captures@,
                self.memo == mid.memo,
                forall|j: int|
                    #![trigger self.stack@[j]]
                    0 <= j < i ==> protected(self.stack@[j], mid.stack@[j], old(self).captures@, new_len),
                forall|j: int| #![trigger self.stack@[j]] i <= j < n ==> self.stack@[j] == mid.stack@[j],
            decreases n - i,
        {
            let ghost before = self.stack@;
            let mut e = StackEntry::Return { ip: 0 };
            std::mem::swap(&mut e, &mut self.stack[i]);
            let ghost e0 = e;
            assert(e0 == before[i as int]);
            let e2 = match e {
                StackEntry::RecoverScope {
                    label,
                    baseline_sp,
                    baseline_capture_len,
                    scoped_max_sp,
                    scoped_max_captures_len,
                    scoped_saved_lower,
                    scoped_saved_above,
                } => {
                    let clamped = if new_len > baseline_capture_len {
                        new_len
                    } else {
                        baseline_capture_len
                    };
                    let mut saved = scoped_saved_above;
                    let mut lower = scoped_saved_lower;
                    if clamped < lower {
                        let hi = if lower < self.captures.len() {
                            lower
                        } else {
                            self.captures.len()
                        };
                        let ghost base = saved@;
                        let mut k = hi;
                        while k > clamped
                            invariant
                                k <= hi,
                                hi >= clamped ==> k >= clamped,
                                hi < clamped ==> k == hi,
                                hi <= self.captures.len(),
                                self.captures@ == old(self).captures@,
                                saved@ == base + descending(old(self).captures@, k as int, hi as int),
                            decreases k,
                        {
                            k -= 1;
                            saved.push(self.captures[k]);
                            proof {
                                assert(descending(old(self).captures@, k as int, hi as int) == descending(
                                    old(self).captures@,
                                    k + 1,
                                    hi as int,
                                ).push(old(self).captures@[k as int]));
                                assert(saved@ =~= base + descending(old(self).captures@, k as int, hi as int));
                            }
                        }
                        proof {
                            if hi < clamped {
                                assert(descending(old(self).captures@, clamped as int, hi as int) == Seq::<
                                    OpenCapture,
                                >::empty());
                            }
                        }
                        lower = clamped;
                    }
                    StackEntry::RecoverScope {
                        label,
                        baseline_sp,
                        baseline_capture_len,
                        scoped_max_sp,
                        scoped_max_captures_len,
                        scoped_saved_lower: lower,
                        scoped_saved_above: saved,
                    }
                },
                other => other,
            };
            assert(protected(e2, e0, old(self).captures@, new_len));
            let mut e3 = e2;
            std::mem::swap(&mut e3, &mut self.stack[i]);
            assert(self.stack@ == before.update(i as int, e2));
            i += 1;
        }
    }

    /// Truncate the live captures to `new_len`, protecting the watermark.
    fn truncate_captures(&mut self, new_len: usize)
        requires
            old(self).inv(),
        ensures
            final(self).inv(),
            final(self).protected_of(*old(self), new_len),
            final(self).captures@ == (if new_len <= old(self).captures@.len() {
                old(self).captures@.take(new_len as int)
            } else {
                old(self).captures@
            }),
    {
        self.protect_max_captures(new_len);
        self.captures.truncate(new_len);
    }

    /// Replay already-closed captures into the live buffer.
    fn replay(&mut self, caps: &Vec<Capture>)
        requires
            old(self).inv(),
        ensures
            final(self).inv(),
            final(self).same_except_captures(*old(self)),
            final(self).captures@ == old(self).captures@ + reopen_all(caps@),
    {
        let mut i: usize = 0;
        while i < caps.len()
            invariant
                self.inv(),
                i <= caps.len(),
                self.same_except_captures(*old(self)),
                self.captures@ == old(self).captures@ + reopen_all(caps@.take(i as int)),
            decreases caps.len() - i,
        {
            let c = caps[i];
            proof {
                assert(reopen_all(caps@.take(i + 1)) =~= reopen_all(caps@.take(i as int)).push(reopened(c)));
            }
            self.captures.push(OpenCapture { kind: c.kind, start: c.start, end: Some(c.end) });
            i += 1;
            proof {
                assert(self.captures@ =~= old(self).captures@ + reopen_all(caps@.take(i as int)));
            }
        }
        proof {
            assert(caps@.take(caps@.len() as int) =~= caps@);
        }
    }

    /// Record a cached outcome, replacing any earlier one at the key.
    fn memo_put(&mut self, memo_id: MemoId, start_sp: usize, entry: MemoEntry)
        requires
            old(self).inv(),
        ensures
            final(self).inv(),
            final(self).same_except_memo(*old(self)),
            memo_stores(
                final(self).memo.view(),
                old(self).memo.view(),
                memo_id,
                start_sp,
                entry.end_sp,
                entry.examined_max,
                entry.captures@,
            ),
    {
        self.memo.insert(memo_id, start_sp, entry);
    }

    /// `after` is `self` after unwinding to the most recent backtrack
    /// point (`resumed`), or after exhausting the stack. Every packrat
    /// frame unwound on the way leaves a failure record at its key, and no
    /// other key changes; the watermark stored with each failure, and the
    /// watermark updates, are not described here.
    spec fn fails_to(&self, after: Self, resumed: bool) -> bool {
        &&& after.same_frame(*self)
        &&& after.keeps_diagnostics(*self)
        &&& after.memo_hits == self.memo_hits
        &&& after.memo_misses == self.memo_misses
        &&& after.memo_threshold == self.memo_threshold
        &&& after.recovery_diagnostics@ == self.recovery_diagnostics@
        &&& !resumed ==> after.sp == self.sp && after.max_sp == self.watermark()
        &&& forall|m: MemoId, p: usize|
            memo_frame_in(self.stack@, after.stack@.len() as int, m, p) ==> failure_recorded(
                after.memo.view(),
                m,
                p,
            )
        &&& forall|m: MemoId, p: usize|
            !memo_frame_in(self.stack@, after.stack@.len() as int, m, p) ==> lookup(
                after.memo.view(),
                m,
                p,
            ) == lookup(self.memo.view(), m, p)
        &&& !resumed ==> after.stack@.len() == 0 && forall|j: int|
            0 <= j < self.stack@.len() ==> !resume_point(#[trigger] self.stack@[j])
        &&& resumed ==> exists|k: int|
            #[trigger] unwound_to(self.stack@, k) && after.stack@.len() == k && match self.stack@[k] {
                StackEntry::Backtrack { ip, sp, capture_len } => {
                    &&& after.ip == ip
                    &&& after.sp == sp
                    &&& after.captures@ == kept_prefix(self.captures@, capture_len)
                },
                StackEntry::LFrame { capture_start_len, return_addr, seed, .. } => match seed {
                    Some(s) => {
                        &&& after.ip == return_addr
                        &&& after.sp == s.end_sp
                        &&& after.captures@ == kept_prefix(self.captures@, capture_start_len)
                            + reopen_all(s.captures@)
                    },
                    None => false,
                },
                _ => false,
            }
    }

    /// Unwind to the most recent backtrack point. Returns `false` when the
    /// stack is exhausted (the whole match failed); the effect is
    /// `fails_to`.
    fn fail(&mut self) -> (resumed: bool)
        requires
            old(self).inv(),
        ensures
            final(self).inv(),
            old(self).fails_to(*final(self), resumed),
    {
        self.maybe_snapshot();
        while self.stack.len() > 0
            invariant
                self.inv(),
                self.same_frame(*old(self)),
                self.stack@.len() <= old(self).stack@.len(),
                self.captures@ == old(self).captures@,
                self.keeps_diagnostics(*old(self)),
                self.memo_hits == old(self).memo_hits,
                self.memo_misses == old(self).memo_misses,
                self.memo_threshold == old(self).memo_threshold,
                self.recovery_diagnostics@ == old(self).recovery_diagnostics@,
                self.sp == old(self).sp,
                self.max_sp == old(self).watermark(),
                forall|j: int|
                    #![trigger self.stack@[j]]
                    0 <= j < self.stack@.len() ==> snapped(
                        self.stack@[j],
                        old(self).stack@[j],
                        old(self).sp,
                        old(self).captures@.len() as usize,
                    ),
                forall|j: int|
                    self.stack@.len() <= j < old(self).stack@.len() ==> !resume_point(
                        #[trigger] old(self).stack@[j],
                    ),
                forall|m: MemoId, p: usize|
                    memo_frame_in(old(self).stack@, self.stack@.len() as int, m, p) ==> failure_recorded(
                        self.memo.view(),
                        m,
                        p,
                    ),
                forall|m: MemoId, p: usize|
                    !memo_frame_in(old(self).stack@, self.stack@.len() as int, m, p) ==> lookup(
                        self.memo.view(),
                        m,
                        p,
                    ) == lookup(old(self).memo.view(), m, p),
            decreases self.stack@.len(),
        {
            let ghost st = self.stack@;
            let ghost memo0 = self.memo.view();
            let entry = self.stack.pop().unwrap();
            proof {
                let n = st.len() as int;
                assert(snapped(st[n - 1], old(self).stack@[n - 1], old(self).sp, old(self).captures@.len() as usize));
                assert forall|m: MemoId, p: usize|
                    memo_frame_in(old(self).stack@, n - 1, m, p) <==> (memo_frame_in(old(self).stack@, n, m, p)
                        || memo_frame_key(entry, m, p)) by {
                    lemma_memo_frame_in_step(old(self).stack@, n, m, p);
                    assert(memo_frame_key(entry, m, p) == memo_frame_key(old(self).stack@[n - 1], m, p));
                }
            }
            proof {
                assert(entry == st[st.len() - 1]);
                assert(snapped(st[st.len() - 1], old(self).stack@[st.len() - 1], old(self).sp, old(self).captures@.len() as usize));
                if resume_point(old(self).stack@[st.len() - 1]) {
                    assert(entry == old(self).stack@[st.len() - 1]);
                    assert(unwound_to(old(self).stack@, st.len() - 1));
                }
                assert(entry_fits(st[st.len() - 1], self.input@.len()));
                assert forall|i: int| 0 <= i < self.stack@.len() implies entry_fits(
                    #[trigger] self.stack@[i],
                    self.input@.len(),
                ) by {
                    assert(self.stack@[i] == st[i]);
                }
            }
            match entry {
                StackEntry::Backtrack { ip, sp, capture_len } => {
                    self.ip = ip;
                    self.sp = sp;
                    self.truncate_captures(capture_len);
                    return true;
                },
                StackEntry::Memo { memo_id, start_sp, capture_start_len: _ } => {
                    let examined_max = match self.memo_examined.pop() {
                        Some(x) => x,
                        None => start_sp,
                    };
                    self.memo_put(
                        memo_id,
                        start_sp,
                        MemoEntry { end_sp: None, examined_max, captures: Vec::new() },
                    );
                    proof {
                        assert forall|m: MemoId, p: usize| !(m == memo_id && p == start_sp) implies lookup(
                            self.memo.view(),
                            m,
                            p,
                        ) == lookup(memo0, m, p) by {
                            super::incremental::lemma_stored_as_other(
                                memo0,
                                (memo_id, start_sp, None, examined_max, Seq::<Capture>::empty()),
                                self.memo.view(),
                                m,
                                p,
                            );
                        }
                    }
                    self.bump_top_memo_examined(examined_max);
                    assert forall|m: MemoId, p: usize| memo_frame_key(entry, m, p) implies failure_recorded(
                        self.memo.view(),
                        m,
                        p,
                    ) by {
                        assert(m == memo_id && p == start_sp);
                    }
                },
                StackEntry::Return { .. } => {},
                StackEntry::RecoverScope { .. } => {},
                StackEntry::LFrame { memo_id: _, start_sp, capture_start_len, return_addr, seed } => {
                    let examined_max = match self.memo_examined.pop() {
                        Some(x) => x,
                        None => start_sp,
                    };
                    self.bump_top_memo_examined(examined_max);
                    if let Some(s) = seed {
                        self.truncate_captures(capture_start_len);
                        self.replay(&s.captures);
                        self.sp = s.end_sp;
                        self.ip = return_addr;
                        self.maybe_snapshot();
                        return true;
                    }
                },
            }
            proof {
                let n = st.len() as int;
                assert forall|m: MemoId, p: usize|
                    memo_frame_in(old(self).stack@, self.stack@.len() as int, m, p) implies failure_recorded(
                        self.memo.view(),
                        m,
                        p,
                    ) by {
                    if !memo_frame_key(entry, m, p) {
                        assert(memo_frame_in(old(self).stack@, n, m, p));
                        assert(failure_recorded(memo0, m, p));
                        assert(lookup(self.memo.view(), m, p) == lookup(memo0, m, p));
                    } else {
                        assert(failure_recorded(self.memo.view(), m, p));
                    }
                }
                assert forall|m: MemoId, p: usize|
                    !memo_frame_in(old(self).stack@, self.stack@.len() as int, m, p) implies lookup(
                        self.memo.view(),
                        m,
                        p,
                    ) == lookup(old(self).memo.view(), m, p) by {
                    assert(!memo_frame_key(entry, m, p));
                    assert(!memo_frame_in(old(self).stack@, n, m, p));
                    assert(lookup(self.memo.view(), m, p) == lookup(memo0, m, p));
                }
            }
        }
        false
    }

    /// Pop the top entry if it is a backtrack point.
    fn pop_backtrack(&mut self) -> (r: Option<(usize, usize, usize)>)
        requires
            old(self).inv(),
        ensures
            final(self).inv(),
            final(self).same_except_stack(*old(self)),
            r matches Some((_, sp, _)) ==> sp <= final(self).input_view().len(),
            match r {
                Some((ip, sp, capture_len)) => old(self).stack@.len() > 0 && old(self).stack@.last()
                    == (StackEntry::Backtrack { ip, sp, capture_len }) && final(self).stack@ == old(
                    self,
                ).stack@.drop_last(),
                None => !(old(self).stack@.len() > 0 && old(self).stack@.last() is Backtrack)
                    && final(self).stack@ == old(self).stack@,
            },
    {
        let n = self.stack.len();
        if n == 0 {
            return None;
        }
        let is_bt = match &self.stack[n - 1] {
            StackEntry::Backtrack { .. } => true,
            _ => false,
        };
        if !is_bt {
            return None;
        }
        let ghost st = self.stack@;
        let e = self.stack.pop().unwrap();
        proof {
            assert(e == st[st.len() - 1]);
            assert(entry_fits(st[st.len() - 1], self.input@.len()));
            assert forall|i: int| 0 <= i < self.stack@.len() implies entry_fits(
                #[trigger] self.stack@[i],
                self.input@.len(),
            ) by {
                assert(self.stack@[i] == st[i]);
            }
        }
        match e {
            StackEntry::Backtrack { ip, sp, capture_len } => Some((ip, sp, capture_len)),
            _ => None,
        }
    }

    fn push_entry(&mut self, e: StackEntry)
        requires
            old(self).inv(),
            entry_fits(e, old(self).input_view().len()),
        ensures
            final(self).inv(),
            final(self).same_except_stack(*old(self)),
            final(self).stack@ == old(self).stack@.push(e),
    {
        let ghost st = self.stack@;
        self.stack.push(e);
        proof {
            assert forall|i: int| 0 <= i < self.stack@.len() implies entry_fits(
                #[trigger] self.stack@[i],
                self.input@.len(),
            ) by {
                if i < st.len() {
                    assert(self.stack@[i] == st[i]);
                }
            }
        }
    }

    /// Index of the topmost entry satisfying the frame kind, if any.
    fn top_recover_scope(&self) -> (r: Option<usize>)
        ensures
            match r {
                Some(i) => i < self.stack@.len() && is_scope(self.stack@[i as int]) && forall|j: int|
                    i < j < self.stack@.len() ==> !is_scope(#[trigger] self.stack@[j]),
                None => forall|j: int| 0 <= j < self.stack@.len() ==> !is_scope(#[trigger] self.stack@[j]),
            },
    {
        let mut i = self.stack.len();
        while i > 0
            invariant
                i <= self.stack@.len(),
                forall|j: int| i <= j < self.stack@.len() ==> !is_scope(#[trigger] self.stack@[j]),
            decreases i,
        {
            i -= 1;
            if let StackEntry::RecoverScope { .. } = &self.stack[i] {
                return Some(i);
            }
        }
        None
    }

    /// Index of the topmost left-recursion frame, if any.
    fn top_lframe(&self) -> (r: Option<usize>)
        ensures
            match r {
                Some(i) => i < self.stack@.len() && is_lframe(self.stack@[i as int]) && forall|j: int|
                    i < j < self.stack@.len() ==> !is_lframe(#[trigger] self.stack@[j]),
                None => forall|j: int| 0 <= j < self.stack@.len() ==> !is_lframe(#[trigger] self.stack@[j]),
            },
    {
        let mut i = self.stack.len();
        while i > 0
            invariant
                i <= self.stack@.len(),
                forall|j: int| i <= j < self.stack@.len() ==> !is_lframe(#[trigger] self.stack@[j]),
            decreases i,
        {
            i -= 1;
            if let StackEntry::LFrame { .. } = &self.stack[i] {
                return Some(i);
            }
        }
        None
    }

    /// Seed of the innermost in-flight left-recursive call of `memo_id` at
    /// the current position: `None` if there is none, `Some(None)` if it
    /// has not grown yet.
    fn find_lr_seed(&self, memo_id: MemoId) -> (r: Option<Option<(usize, Vec<Capture>)>>)
        requires
            self.inv(),
        ensures
            r matches Some(Some((e, _))) ==> e <= self.input_view().len(),
            match r {
                None => forall|j: int|
                    0 <= j < self.stack@.len() ==> !lr_frame_of(#[trigger] self.stack@[j], memo_id, self.sp),
                Some(x) => exists|i: int|
                    #[trigger] top_lr_frame_at(self.stack@, i, memo_id, self.sp) && seed_matches(
                        self.stack@[i],
                        x,
                    ),
            },
    {
        let mut i = self.stack.len();
        while i > 0
            invariant
                i <= self.stack@.len(),
                self.inv(),
                forall|j: int|
                    i <= j < self.stack@.len() ==> !lr_frame_of(#[trigger] self.stack@[j], memo_id, self.sp),
            decreases i,
        {
            i -= 1;
            if let StackEntry::LFrame { memo_id: id, start_sp, seed, .. } = &self.stack[i] {
                if id.0 == memo_id.0 && *start_sp == self.sp {
                    proof {
                        assert(entry_fits(self.stack@[i as int], self.input@.len()));
                        assert(lr_frame_of(self.stack@[i as int], memo_id, self.sp));
                        assert(top_lr_frame_at(self.stack@, i as int, memo_id, self.sp));
                    }
                    return match seed {
                        Some(s) => Some(Some((s.end_sp, super::incremental::copy_captures(&s.captures)))),
                        None => Some(None),
                    };
                }
            }
        }
        None
    }

    /// Memoized rules in flight, outermost first.
    fn rule_stack(&self) -> (out: Vec<MemoId>)
        ensures
            out@ == memo_ids(self.stack@),
    {
        let mut out: Vec<MemoId> = Vec::new();
        let mut i: usize = 0;
        while i < self.stack.len()
            invariant
                i <= self.stack@.len(),
                out@ == memo_ids(self.stack@.take(i as int)),
            decreases self.stack@.len() - i,
        {
            proof {
                assert(self.stack@.take(i + 1).drop_last() =~= self.stack@.take(i as int));
                assert(self.stack@.take(i + 1).last() == self.stack@[i as int]);
            }
            match &self.stack[i] {
                StackEntry::Memo { memo_id, .. } => out.push(*memo_id),
                StackEntry::LFrame { memo_id, .. } => out.push(*memo_id),
                _ => {},
            }
            i += 1;
        }
        proof {
            assert(self.stack@.take(self.stack@.len() as int) =~= self.stack@);
        }
        out
    }

    fn stats(&self) -> (s: MemoStats)
        ensures
            s.entries == self.memo.view().len(),
            s.hits == self.memo_hits,
            s.misses == self.memo_misses,
    {
        MemoStats { entries: self.memo.len(), hits: self.memo_hits, misses: self.memo_misses }
    }

    /// Result for a run that exhausted its backtrack stack: the farthest
    /// position reached, with the captures alive there.
    fn finalize_partial(self) -> (r: (MatchResult, MemoStats, MemoCache))
        requires
            self.inv(),
        ensures
            r.0.matched <= self.input_view().len(),
            r.1.entries == r.2.view().len(),
            r.0.matched == self.watermark(),
            r.0.captures@ == close_all(self.deepest_captures(), self.watermark()),
            !r.0.complete,
            r.0.recovery_diagnostics@ == self.recovery_diagnostics@,
            r.1.hits == self.memo_hits,
            r.1.misses == self.memo_misses,
            r.2 == self.memo,
    {
        let ghost start = self;
        let mut vm = self;
        vm.maybe_snapshot();
        let stats = vm.stats();
        let lower = if vm.saved_lower < vm.captures.len() {
            vm.saved_lower
        } else {
            vm.captures.len()
        };
        let mut max_captures: Vec<OpenCapture> = Vec::new();
        let mut i: usize = 0;
        while i < lower
            invariant
                lower <= vm.captures.len(),
                i <= lower,
                max_captures@ == vm.captures@.take(i as int),
            decreases lower - i,
        {
            max_captures.push(vm.captures[i]);
            i += 1;
            proof {
                assert(max_captures@ =~= vm.captures@.take(i as int));
            }
        }
        let ghost low = max_captures@;
        let mut k = vm.saved_above.len();
        while k > 0
            invariant
                k <= vm.saved_above.len(),
                max_captures@ == low + descending(vm.saved_above@, k as int, vm.saved_above@.len() as int),
            decreases k,
        {
            k -= 1;
            max_captures.push(vm.saved_above[k]);
            proof {
                assert(descending(vm.saved_above@, k as int, vm.saved_above@.len() as int) == descending(
                    vm.saved_above@,
                    k + 1,
                    vm.saved_above@.len() as int,
                ).push(vm.saved_above@[k as int]));
                assert(max_captures@ =~= low + descending(
                    vm.saved_above@,
                    k as int,
                    vm.saved_above@.len() as int,
                ));
            }
        }
        proof {
            if start.sp > start.max_sp {
                assert(vm.saved_above@ =~= Seq::<OpenCapture>::empty());
            }
            assert(max_captures@ == start.deepest_captures());
        }
        let captures = close_captures(&max_captures, vm.max_sp);
        let result = MatchResult {
            matched: vm.max_sp,
            captures,
            complete: false,
            recovery_diagnostics: vm.recovery_diagnostics,
        };
        (result, stats, vm.memo)
    }

    /// Result for a run that reached `End`.
    fn finish(self) -> (r: (MatchResult, MemoStats, MemoCache))
        requires
            self.inv(),
        ensures
            r.0.matched <= self.input_view().len(),
            r.1.entries == r.2.view().len(),
            r.0.matched == self.sp,
            r.0.captures@ == close_all(self.captures@, self.sp),
            r.0.complete,
            r.0.recovery_diagnostics == self.recovery_diagnostics,
            r.1.hits == self.memo_hits,
            r.1.misses == self.memo_misses,
            r.2 == self.memo,
    {
        let stats = self.stats();
        let captures = close_captures(&self.captures, self.sp);
        let result = MatchResult {
            matched: self.sp,
            captures,
            complete: true,
            recovery_diagnostics: self.recovery_diagnostics,
        };
        (result, stats, self.memo)
    }

    /// Success-entry insert: `Memo` rules honour the threshold, `Lr` seeds
    /// are always cached.
    fn cache_success(
        &mut self,
        kind: RuleKind,
        memo_id: MemoId,
        start_sp: usize,
        end_sp: usize,
        examined_max: usize,
        captures: Vec<Capture>,
    )
        requires
            old(self).inv(),
        ensures
            final(self).inv(),
            final(self).same_except_memo(*old(self)),
            if should_cache(kind, start_sp, end_sp, old(self).memo_threshold) {
                memo_stores(
                    final(self).memo.view(),
                    old(self).memo.view(),
                    memo_id,
                    start_sp,
                    Some(end_sp),
                    examined_max,
                    captures@,
                )
            } else {
                final(self).memo == old(self).memo
            },
    {
        let should_cache = match kind {
            RuleKind::Lr => true,
            RuleKind::Memo => end_sp >= start_sp && end_sp - start_sp >= self.memo_threshold,
        };
        if should_cache {
            self.memo_put(memo_id, start_sp, MemoEntry { end_sp: Some(end_sp), examined_max, captures });
        }
    }

    /// Core execution loop, bounded by the step budget.
    /// `r` is the farthest-failure result at `self`: the watermark, the
    /// captures alive there closed at it, and the memo table as it stands.
    spec fn partial_result(&self, r: (MatchResult, MemoStats, MemoCache)) -> bool {
        &&& r.0.matched == self.watermark()
        &&& r.0.captures@ == close_all(self.deepest_captures(), self.watermark())
        &&& !r.0.complete
        &&& r.0.recovery_diagnostics@ == self.recovery_diagnostics@
        &&& r.1.hits == self.memo_hits
        &&& r.1.misses == self.memo_misses
        &&& r.1.entries == r.2.view().len()
        &&& r.2 == self.memo
    }

    /// `r` is the completed result at `self`: the current position, the
    /// live captures closed at it, and the memo table as it stands.
    spec fn finish_result(&self, r: (MatchResult, MemoStats, MemoCache)) -> bool {
        &&& r.0.matched == self.sp
        &&& r.0.captures@ == close_all(self.captures@, self.sp)
        &&& r.0.complete
        &&& r.0.recovery_diagnostics@ == self.recovery_diagnostics@
        &&& r.1.hits == self.memo_hits
        &&& r.1.misses == self.memo_misses
        &&& r.1.entries == r.2.view().len()
        &&& r.2 == self.memo
    }

    /// `self` with one unit of step budget spent.
    spec fn spent(&self) -> Self {
        VM { step_budget: (self.step_budget - 1) as u64, ..*self }
    }

    /// One turn of the run loop from `self` to `next`: a unit of budget,
    /// the instruction at `ip`, and when it fails the unwinding to a
    /// backtrack point.
    spec fn steps_to(&self, next: Self) -> bool {
        &&& self.step_budget > 0
        &&& self.ip < self.program.code@.len()
        &&& exists|mid: Self, o: u8|
            #[trigger] self.spent().executed(mid, self.program.code@[self.ip as int], o) && if o == 1 {
                mid.fails_to(next, true)
            } else {
                o != 2 && next == mid
            }
    }

    /// The run loop stops at `self` with result `r`: the budget is spent,
    /// `ip` left the code, `End` was reached, or a failure exhausted the
    /// stack.
    spec fn halts_with(&self, r: (MatchResult, MemoStats, MemoCache)) -> bool {
        ||| self.step_budget == 0 && self.partial_result(r)
        ||| self.step_budget > 0 && self.ip >= self.program.code@.len() && self.spent().partial_result(r)
        ||| self.step_budget > 0 && self.ip < self.program.code@.len() && exists|mid: Self|
            #[trigger] self.spent().executed(mid, self.program.code@[self.ip as int], 2u8)
                && mid.finish_result(r)
        ||| self.step_budget > 0 && self.ip < self.program.code@.len() && exists|mid: Self, last: Self|
            #![trigger self.spent().executed(mid, self.program.code@[self.ip as int], 1u8), mid.fails_to(last, false)]
            self.spent().executed(mid, self.program.code@[self.ip as int], 1u8) && mid.fails_to(last, false)
                && last.partial_result(r)
    }

    /// `tr` is a chain of loop turns starting at `self`.
    spec fn traced(&self, tr: Seq<Self>) -> bool {
        &&& tr.len() >= 1
        &&& tr[0] == *self
        &&& forall|i: int| #![trigger tr[i]] 0 <= i < tr.len() - 1 ==> tr[i].steps_to(tr[i + 1])
    }

    /// Running the machine from `self` can end with `r`: some chain of
    /// loop turns, each one instruction as `execute` states it followed on
    /// failure by the unwinding `fail` states, leads from `self` to a
    /// state where the loop stops with `r`. The result is then the
    /// position and captures at `End`, or else the farthest failure.
    pub closed spec fn runs_to(&self, r: (MatchResult, MemoStats, MemoCache)) -> bool {
        exists|tr: Seq<Self>| #[trigger] self.traced(tr) && tr.last().halts_with(r)
    }

    proof fn lemma_executed_keeps_keys(&self, after: Self, instr: Instruction, outcome: u8)
        requires
            self.executed(after, instr, outcome),
        ensures
            keys_kept(self.memo.view(), after.memo.view()),
    {
        match instr {
            Instruction::MemoClose(memo_id) => {
                if outcome == 0 {
                    match self.stack@.last() {
                        StackEntry::Memo { start_sp, capture_start_len, .. } => {
                            let (examined, rest) = popped_examined(self.memo_examined@, self.sp);
                            if should_cache(RuleKind::Memo, start_sp, self.sp, self.memo_threshold) {
                                lemma_stores_keep_keys(
                                    after.memo.view(),
                                    self.memo.view(),
                                    memo_id,
                                    start_sp,
                                    Some(self.sp),
                                    examined,
                                    closed_from(self.captures@, capture_start_len, self.sp),
                                );
                            }
                        },
                        _ => {},
                    }
                }
            },
            Instruction::LRTail(memo_id, l) => {
                if exists|j: int| 0 <= j < self.stack@.len() && is_lframe(#[trigger] self.stack@[j]) {
                    let j = choose|j: int| 0 <= j < self.stack@.len() && is_lframe(#[trigger] self.stack@[j]);
                    lemma_topmost_lframe(self.stack@, j);
                    let i = choose|i: int| #[trigger] top_lframe_at(self.stack@, i);
                    assert(top_lframe_at(self.stack@, i));
                    self.lemma_lr_tail_keeps_keys(after, memo_id, l.0 as usize, outcome, i);
                }
            },
            Instruction::RecoverToScopedMax => {
                if exists|j: int| 0 <= j < self.stack@.len() && is_scope(#[trigger] self.stack@[j]) {
                    let j = choose|j: int| 0 <= j < self.stack@.len() && is_scope(#[trigger] self.stack@[j]);
                    lemma_topmost_scope(self.stack@, j);
                    let i = choose|i: int| #[trigger] top_scope_at(self.stack@, i);
                    assert(top_scope_at(self.stack@, i));
                }
            },
            _ => {},
        }
    }

    proof fn lemma_lr_tail_keeps_keys(&self, after: Self, memo_id: MemoId, body_start: usize, outcome: u8, i: int)
        requires
            self.lr_tailed(after, memo_id, body_start, outcome),
            top_lframe_at(self.stack@, i),
        ensures
            keys_kept(self.memo.view(), after.memo.view()),
    {
        match self.stack@[i] {
            StackEntry::LFrame { memo_id: id, start_sp, capture_start_len, return_addr, seed } => {
                let grew = match seed {
                    None => self.sp > start_sp,
                    Some(s) => self.sp > s.end_sp,
                };
                if !(id == memo_id && grew) {
                    let (examined, rest) = popped_examined(self.memo_examined@, self.sp);
                    let (end, seed_caps) = match seed {
                        Some(s) => (s.end_sp, s.captures@),
                        None => (start_sp, Seq::<Capture>::empty()),
                    };
                    lemma_stores_keep_keys(after.memo.view(), self.memo.view(), id, start_sp, Some(end), examined, seed_caps);
                }
            },
            _ => {},
        }
    }

    proof fn lemma_step_keeps_keys(&self, next: Self)
        requires
            self.steps_to(next),
        ensures
            keys_kept(self.memo.view(), next.memo.view()),
    {
        let (mid, o) = choose|mid: Self, o: u8|
            #[trigger] self.spent().executed(mid, self.program.code@[self.ip as int], o) && if o == 1 {
                mid.fails_to(next, true)
            } else {
                o != 2 && next == mid
            };
        self.spent().lemma_executed_keeps_keys(mid, self.program.code@[self.ip as int], o);
        if o == 1 {
            mid.lemma_fail_keeps_keys(next, true);
            lemma_keys_kept_trans(self.memo.view(), mid.memo.view(), next.memo.view());
        }
    }

    proof fn lemma_fail_keeps_keys(&self, after: Self, resumed: bool)
        requires
            self.fails_to(after, resumed),
        ensures
            keys_kept(self.memo.view(), after.memo.view()),
    {
        assert forall|m: MemoId, p: usize| #[trigger] lookup(self.memo.view(), m, p) is Some implies lookup(
            after.memo.view(),
            m,
            p,
        ) is Some by {
            if memo_frame_in(self.stack@, after.stack@.len() as int, m, p) {
                assert(failure_recorded(after.memo.view(), m, p));
            }
        }
    }

    proof fn lemma_halt_keeps_keys(&self, r: (MatchResult, MemoStats, MemoCache))
        requires
            self.halts_with(r),
        ensures
            keys_kept(self.memo.view(), r.2.view()),
    {
        if self.step_budget > 0 && self.ip < self.program.code@.len() {
            let instr = self.program.code@[self.ip as int];
            if exists|mid: Self| #[trigger] self.spent().executed(mid, instr, 2u8) && mid.finish_result(r) {
                let mid = choose|mid: Self| #[trigger] self.spent().executed(mid, instr, 2u8) && mid.finish_result(r);
                self.spent().lemma_executed_keeps_keys(mid, instr, 2u8);
            } else {
                let (mid, last) = choose|mid: Self, last: Self|
                    #![trigger self.spent().executed(mid, instr, 1u8), mid.fails_to(last, false)]
                    self.spent().executed(mid, instr, 1u8) && mid.fails_to(last, false) && last.partial_result(r);
                self.spent().lemma_executed_keeps_keys(mid, instr, 1u8);
                mid.lemma_fail_keeps_keys(last, false);
                lemma_keys_kept_trans(self.memo.view(), mid.memo.view(), last.memo.view());
            }
        }
    }

    proof fn lemma_trace_keeps_keys(&self, tr: Seq<Self>, n: int)
        requires
            self.traced(tr),
            1 <= n <= tr.len(),
        ensures
            keys_kept(self.memo.view(), tr[n - 1].memo.view()),
        decreases n,
    {
        if n > 1 {
            self.lemma_trace_keeps_keys(tr, n - 1);
            assert(tr[n - 2].steps_to(tr[n - 1]));
            tr[n - 2].lemma_step_keeps_keys(tr[n - 1]);
            lemma_keys_kept_trans(self.memo.view(), tr[n - 2].memo.view(), tr[n - 1].memo.view());
        }
    }

    /// A run never loses a memo key: every key that finds a record when
    /// the run starts, seeded or not, still finds one when it ends.
    pub proof fn law_run_keeps_memo_keys(&self, r: (MatchResult, MemoStats, MemoCache))
        requires
            self.runs_to(r),
        ensures
            keys_kept(self.memo_view(), r.2.view()),
    {
        let tr = choose|tr: Seq<Self>| #[trigger] self.traced(tr) && tr.last().halts_with(r);
        self.lemma_trace_keeps_keys(tr, tr.len() as int);
        tr.last().lemma_halt_keeps_keys(r);
        lemma_keys_kept_trans(self.memo.view(), tr.last().memo.view(), r.2.view());
    }

    fn run_core(self) -> (r: (MatchResult, MemoStats, MemoCache))
        requires
            self.inv(),
        ensures
            r.0.matched <= self.input_view().len(),
            r.1.entries == r.2.view().len(),
            !self.tracking() ==> r.0.recovery_diagnostics@ == self.diagnostics(),
            self.runs_to(r),
    {
        let ghost start = self;
        let mut vm = self;
        let ghost input = vm.input_view();
        let ghost mut tr: Seq<Self> = seq![start];
        while vm.step_budget > 0
            invariant
                vm.inv(),
                vm.input_view() == input,
                vm.keeps_diagnostics(start),
                start.traced(tr),
                tr.last() == vm,
            decreases vm.step_budget,
        {
            let ghost a = vm;
            vm.step_budget = vm.step_budget - 1;
            assert(vm == a.spent());
            if vm.ip >= vm.program.code.len() {
                let r = vm.finalize_partial();
                assert(a.halts_with(r));
                return r;
            }
            let instr = vm.program.code[vm.ip];
            let ghost m0 = vm;
            let outcome = vm.execute(instr);
            if outcome == 2 {
                let r = vm.finish();
                assert(a.halts_with(r));
                return r;
            }
            if outcome == 1 {
                let ghost m1 = vm;
                if !vm.fail() {
                    let r = vm.finalize_partial();
                    assert(a.halts_with(r));
                    return r;
                }
                assert(m0.executed(m1, instr, outcome) && m1.fails_to(vm, true));
            }
            assert(a.steps_to(vm));
            proof {
                let t0 = tr;
                tr = tr.push(vm);
                assert forall|i: int| #![trigger tr[i]] 0 <= i < tr.len() - 1 implies tr[i].steps_to(tr[i + 1]) by {
                    if i < t0.len() - 1 {
                        assert(tr[i] == t0[i] && tr[i + 1] == t0[i + 1]);
                    } else {
                        assert(tr[i] == a && tr[i + 1] == vm);
                    }
                }
            }
        }
        let r = vm.finalize_partial();
        assert(vm.halts_with(r));
        r
    }

    /// `after` is `self` after executing `instr` with the given outcome:
    /// 0 to continue, 1 when the instruction fails, 2 at `End`. The
    /// rule-level instructions are stated by `rule_entered`,
    /// `memo_closed`, `lr_tailed` and `recovered`; the watermark update of
    /// `BackCommit` is not described here.
    spec fn executed(&self, after: Self, instr: Instruction, outcome: u8) -> bool {
        &&& plain(instr) ==> after.same_run_state(*self) && after.memo == self.memo
        &&& plain(instr) && !reads_input(instr) ==> after.memo_examined@ == self.memo_examined@
        &&& instr is BackCommit ==> after.memo == self.memo
        &&& (match instr {
            Instruction::Byte(b) => {
                let ok = self.sp < self.input@.len() && self.input@[self.sp as int] == b;
                &&& outcome == (if ok {
                    0u8
                } else {
                    1u8
                })
                &&& after.sp == (if ok {
                    self.sp + 1
                } else {
                    self.sp as int
                })
                &&& after.ip == (if ok {
                    self.ip + 1
                } else {
                    self.ip as int
                })
                &&& after.stack@ == self.stack@
                &&& after.captures@ == self.captures@
                &&& after.memo_examined@ == bumped(self.memo_examined@, read_end(self.sp, 1))
            },
            Instruction::Any => if self.sp >= self.input@.len() {
                &&& outcome == 1
                &&& after.sp == self.sp
                &&& after.ip == self.ip
                &&& after.stack@ == self.stack@
                &&& after.captures@ == self.captures@
                &&& after.memo_examined@ == bumped(self.memo_examined@, read_end(self.sp, 1))
            } else {
                let w = scalar_width(self.input@.skip(self.sp as int));
                &&& outcome == 0
                &&& after.sp == self.sp + w
                &&& after.ip == self.ip + 1
                &&& after.stack@ == self.stack@
                &&& after.captures@ == self.captures@
                &&& after.memo_examined@ == bumped(self.memo_examined@, read_end(self.sp, w as usize))
            },
            Instruction::CharSet(id) => if self.sp >= self.input@.len() {
                outcome == 1 && after.sp == self.sp && after.ip == self.ip
            } else {
                let bytes = self.input@.skip(self.sp as int);
                let ok = !vstd::utf8::valid_first_scalar(bytes) || (id.0 < self.program.char_sets@.len() && holds_scalar(
                    self.program.char_sets@[id.0 as int]@,
                    vstd::utf8::decode_first_scalar(bytes),
                ));
                &&& outcome == (if ok {
                    0u8
                } else {
                    1u8
                })
                &&& after.sp == (if ok {
                    self.sp + scalar_width(bytes)
                } else {
                    self.sp as int
                })
                &&& after.ip == (if ok {
                    self.ip + 1
                } else {
                    self.ip as int
                })
                &&& after.stack@ == self.stack@
                &&& after.captures@ == self.captures@
            },
            Instruction::Jump(l) => outcome == 0 && after.same_but_ip(*self) && after.ip == l.0,
            Instruction::Choice(l) => {
                &&& outcome == 0
                &&& after.ip == self.ip + 1
                &&& after.sp == self.sp
                &&& after.captures@ == self.captures@
                &&& after.stack@ == self.stack@.push(
                    StackEntry::Backtrack {
                        ip: l.0 as usize,
                        sp: self.sp,
                        capture_len: self.captures@.len() as usize,
                    },
                )
            },
            Instruction::Commit(l) => if self.stack@.len() > 0 && self.stack@.last() is Backtrack {
                &&& outcome == 0
                &&& after.ip == l.0
                &&& after.sp == self.sp
                &&& after.captures@ == self.captures@
                &&& after.stack@ == self.stack@.drop_last()
            } else {
                outcome == 1 && after.same_but_ip(*self) && after.ip == self.ip
            },
            Instruction::PartialCommit(l) => match (if self.stack@.len() > 0 {
                Some(self.stack@.last())
            } else {
                None
            }) {
                Some(StackEntry::Backtrack { ip, .. }) => {
                    &&& outcome == 0
                    &&& after.ip == l.0
                    &&& after.sp == self.sp
                    &&& after.captures@ == self.captures@
                    &&& after.stack@ == self.stack@.drop_last().push(
                        StackEntry::Backtrack {
                            ip,
                            sp: self.sp,
                            capture_len: self.captures@.len() as usize,
                        },
                    )
                },
                _ => outcome == 1 && after.same_but_ip(*self) && after.ip == self.ip,
            },
            Instruction::BackCommit(l) => match (if self.stack@.len() > 0 {
                Some(self.stack@.last())
            } else {
                None
            }) {
                Some(StackEntry::Backtrack { sp, capture_len, .. }) => {
                    &&& outcome == 0
                    &&& after.ip == l.0
                    &&& after.sp == sp
                    &&& after.captures@ == kept_prefix(self.captures@, capture_len)
                    &&& after.stack@.len() + 1 == self.stack@.len()
                },
                _ => {
                    &&& outcome == 1
                    &&& after.ip == self.ip
                    &&& after.sp == self.sp
                    &&& after.captures@ == self.captures@
                    &&& after.stack@.len() == self.stack@.len()
                },
            },
            Instruction::FailTwice => {
                &&& outcome == 1
                &&& after.ip == self.ip
                &&& after.sp == self.sp
                &&& after.captures@ == self.captures@
                &&& after.stack@ == if self.stack@.len() > 0 && self.stack@.last() is Backtrack {
                    self.stack@.drop_last()
                } else {
                    self.stack@
                }
            },
            Instruction::Fail => outcome == 1 && after.same_but_ip(*self) && after.ip == self.ip,
            Instruction::Call(l) => {
                &&& outcome == 0
                &&& after.ip == l.0
                &&& after.sp == self.sp
                &&& after.captures@ == self.captures@
                &&& after.stack@ == self.stack@.push(
                    StackEntry::Return { ip: (self.ip + 1) as usize },
                )
            },
            Instruction::Return => match (if self.stack@.len() > 0 {
                Some(self.stack@.last())
            } else {
                None
            }) {
                Some(StackEntry::Return { ip }) => {
                    &&& outcome == 0
                    &&& after.ip == ip
                    &&& after.sp == self.sp
                    &&& after.captures@ == self.captures@
                    &&& after.stack@ == self.stack@.drop_last()
                },
                _ => outcome == 1 && after.same_but_ip(*self) && after.ip == self.ip,
            },
            Instruction::CaptureBegin(kind) => {
                &&& outcome == 0
                &&& after.ip == self.ip + 1
                &&& after.sp == self.sp
                &&& after.stack@ == self.stack@
                &&& after.captures@ == self.captures@.push(
                    OpenCapture { kind, start: self.sp, end: None },
                )
            },
            Instruction::CaptureEnd => {
                &&& (outcome == 1) == (forall|j: int|
                    0 <= j < self.captures@.len() ==> (#[trigger] self.captures@[j]).end is Some)
                &&& outcome == 1 ==> after.same_but_ip(*self) && after.ip == self.ip
                &&& outcome == 0 ==> {
                    &&& after.ip == self.ip + 1
                    &&& after.sp == self.sp
                    &&& after.stack@ == self.stack@
                    &&& exists|i: int|
                        #[trigger] top_open_at(self.captures@, i) && after.captures@ == self.captures@.update(
                            i,
                            OpenCapture {
                                kind: self.captures@[i].kind,
                                start: self.captures@[i].start,
                                end: Some(self.sp),
                            },
                        )
                }
            },
            Instruction::RecoverScopeBegin(label) => {
                &&& outcome == 0
                &&& after.ip == self.ip + 1
                &&& after.sp == self.sp
                &&& after.captures@ == self.captures@
                &&& after.stack@.len() == self.stack@.len() + 1
                &&& after.stack@.drop_last() == self.stack@
                &&& match after.stack@.last() {
                    StackEntry::RecoverScope {
                        label: l,
                        baseline_sp,
                        baseline_capture_len,
                        scoped_max_sp,
                        scoped_max_captures_len,
                        scoped_saved_lower,
                        scoped_saved_above,
                    } => l == label && baseline_sp == self.sp && baseline_capture_len == self.captures@.len() && scoped_max_sp == self.sp && scoped_max_captures_len == self.captures@.len() && scoped_saved_lower == self.captures@.len()
                        && scoped_saved_above@.len() == 0,
                    _ => false,
                }
            },
            Instruction::RecoverScopeEnd => if self.stack@.len() > 0 && is_scope(self.stack@.last()) {
                &&& outcome == 0
                &&& after.ip == self.ip + 1
                &&& after.sp == self.sp
                &&& after.captures@ == self.captures@
                &&& after.stack@ == self.stack@.drop_last()
            } else {
                outcome == 1 && after.same_but_ip(*self) && after.ip == self.ip
            },
            Instruction::End => outcome == 2 && after.same_but_ip(*self) && after.ip == self.ip,
            Instruction::RuleEnter(memo_id, kind, l) => self.rule_entered(after, memo_id, kind, l.0 as usize, outcome),
            Instruction::MemoClose(memo_id) => self.memo_closed(after, memo_id, outcome),
            Instruction::LRTail(memo_id, l) => self.lr_tailed(after, memo_id, l.0 as usize, outcome),
            Instruction::RecoverToScopedMax => self.recovered(after, outcome),
        })
    }

    /// Execute one instruction. Returns 0 to continue, 1 when the
    /// instruction fails, 2 at `End`; the effect is `executed`.
    #[verifier::rlimit(60)]
    fn execute(&mut self, instr: Instruction) -> (outcome: u8)
        requires
            old(self).inv(),
            old(self).ip < old(self).program.code.len(),
        ensures
            final(self).inv(),
            final(self).same_frame(*old(self)),
            final(self).keeps_diagnostics(*old(self)),
            final(self).step_budget == old(self).step_budget,
            old(self).executed(*final(self), instr, outcome),
    {
        let len = self.input.len();
        match instr {
            Instruction::Byte(b) => {
                self.track_read(1);
                if self.sp < len && self.input[self.sp] == b {
                    self.sp = self.sp + 1;
                    self.ip = self.ip + 1;
                    0
                } else {
                    1
                }
            },
            Instruction::Any => {
                if self.sp >= len {
                    self.track_read(1);
                    return 1;
                }
                let width = match decode_scalar(self.input, self.sp) {
                    Some((_, n)) => n,
                    None => 1,
                };
                self.track_read(width);
                self.sp = self.sp + width;
                self.ip = self.ip + 1;
                0
            },
            Instruction::CharSet(id) => {
                if self.sp >= len {
                    self.track_read(1);
                    return 1;
                }
                match decode_scalar(self.input, self.sp) {
                    Some((c, n)) => {
                        self.track_read(n);
                        let idx = id.0 as usize;
                        if idx < self.program.char_sets.len() && self.program.char_sets[idx].contains_char(c) {
                            self.sp = self.sp + n;
                            self.ip = self.ip + 1;
                            0
                        } else {
                            1
                        }
                    },
                    None => {
                        self.track_read(1);
                        self.sp = self.sp + 1;
                        self.ip = self.ip + 1;
                        0
                    },
                }
            },
            Instruction::Jump(label) => {
                self.ip = label.as_index();
                0
            },
            Instruction::Choice(label) => {
                let e = StackEntry::Backtrack {
                    ip: label.as_index(),
                    sp: self.sp,
                    capture_len: self.captures.len(),
                };
                self.push_entry(e);
                self.ip = self.ip + 1;
                0
            },
            Instruction::Commit(label) => {
                match self.pop_backtrack() {
                    Some(_) => {
                        self.ip = label.as_index();
                        0
                    },
                    None => 1,
                }
            },
            Instruction::PartialCommit(label) => {
                match self.pop_backtrack() {
                    Some((ip, _, _)) => {
                        let e = StackEntry::Backtrack {
                            ip,
                            sp: self.sp,
                            capture_len: self.captures.len(),
                        };
                        self.push_entry(e);
                        self.ip = label.as_index();
                        0
                    },
                    None => 1,
                }
            },
            Instruction::BackCommit(label) => {
                self.maybe_snapshot();
                match self.pop_backtrack() {
                    Some((_, sp, capture_len)) => {
                        self.sp = sp;
                        self.truncate_captures(capture_len);
                        self.ip = label.as_index();
                        0
                    },
                    None => 1,
                }
            },
            Instruction::FailTwice => {
                self.pop_backtrack();
                1
            },
            Instruction::Fail => 1,
            Instruction::Call(label) => {
                if self.ip == usize::MAX {
                    return 1;
                }
                self.push_entry(StackEntry::Return { ip: self.ip + 1 });
                self.ip = label.as_index();
                0
            },
            Instruction::Return => {
                let n = self.stack.len();
                if n == 0 {
                    return 1;
                }
                let ret = match &self.stack[n - 1] {
                    StackEntry::Return { ip } => Some(*ip),
                    _ => None,
                };
                match ret {
                    Some(ip) => {
                        let ghost st = self.stack@;
                        self.stack.pop();
                        proof {
                            assert forall|i: int| 0 <= i < self.stack@.len() implies entry_fits(
                                #[trigger] self.stack@[i],
                                self.input@.len(),
                            ) by {
                                assert(self.stack@[i] == st[i]);
                            }
                        }
                        self.ip = ip;
                        0
                    },
                    None => 1,
                }
            },
            Instruction::RuleEnter(memo_id, kind, return_label) => self.rule_enter(memo_id, kind, return_label.as_index()),
            Instruction::MemoClose(memo_id) => self.memo_close(memo_id),
            Instruction::LRTail(memo_id, body_start) => self.lr_tail(memo_id, body_start.as_index()),
            Instruction::CaptureBegin(kind) => {
                self.captures.push(OpenCapture { kind, start: self.sp, end: None });
                self.ip = self.ip + 1;
                0
            },
            Instruction::CaptureEnd => {
                let mut idx = self.captures.len();
                let mut found = false;
                while idx > 0 && !found
                    invariant
                        idx <= self.captures.len(),
                        found ==> idx < self.captures.len(),
                        found ==> top_open_at(self.captures@, idx as int),
                        !found ==> forall|j: int|
                            idx <= j < self.captures@.len() ==> (#[trigger] self.captures@[j]).end is Some,
                    decreases idx + (if found { 0int } else { 1int }),
                {
                    if self.captures[idx - 1].end.is_none() {
                        found = true;
                    }
                    idx -= 1;
                }
                if !found {
                    return 1;
                }
                let c = self.captures[idx];
                self.captures.set(idx, OpenCapture { kind: c.kind, start: c.start, end: Some(self.sp) });
                self.ip = self.ip + 1;
                0
            },
            Instruction::RecoverScopeBegin(label) => {
                let cur_len = self.captures.len();
                let e = StackEntry::RecoverScope {
                    label,
                    baseline_sp: self.sp,
                    baseline_capture_len: cur_len,
                    scoped_max_sp: self.sp,
                    scoped_max_captures_len: cur_len,
                    scoped_saved_lower: cur_len,
                    scoped_saved_above: Vec::new(),
                };
                self.push_entry(e);
                self.ip = self.ip + 1;
                assert(self.stack@.drop_last() =~= old(self).stack@);
                0
            },
            Instruction::RecoverToScopedMax => self.recover_to_scoped_max(),
            Instruction::RecoverScopeEnd => {
                let n = self.stack.len();
                if n == 0 {
                    return 1;
                }
                let is_scope = match &self.stack[n - 1] {
                    StackEntry::RecoverScope { .. } => true,
                    _ => false,
                };
                if !is_scope {
                    return 1;
                }
                let ghost st = self.stack@;
                self.stack.pop();
                proof {
                    assert forall|i: int| 0 <= i < self.stack@.len() implies entry_fits(
                        #[trigger] self.stack@[i],
                        self.input@.len(),
                    ) by {
                        assert(self.stack@[i] == st[i]);
                    }
                }
                self.ip = self.ip + 1;
                0
            },
            Instruction::End => 2,
        }
    }

    /// `after` is `self` after `RuleEnter` with the given outcome; see
    /// `rule_enter`.
    spec fn rule_entered(&self, after: Self, memo_id: MemoId, kind: RuleKind, return_addr: usize, outcome: u8) -> bool {
        &&& after.same_frame(*self)
        &&& after.keeps_diagnostics(*self)
        &&& after.step_budget == self.step_budget
        &&& outcome <= 1
        &&& after.memo == self.memo
        &&& (match usable_hit(self.memo.view(), memo_id, self.sp, self.input@.len()) {
            Some(rec) => {
                &&& after.memo_hits == sat_inc(self.memo_hits)
                &&& after.memo_misses == self.memo_misses
                &&& after.memo_examined@ == bumped(self.memo_examined@, rec.3)
                &&& match rec.2 {
                    Some(e) => {
                        &&& outcome == 0
                        &&& after.sp == e
                        &&& after.ip == return_addr
                        &&& after.captures@ == self.captures@ + reopen_all(rec.4)
                    },
                    None => {
                        &&& outcome == 1
                        &&& after.sp == self.sp
                        &&& after.ip == self.ip
                        &&& after.captures@ == self.captures@
                        &&& after.stack@ == self.stack@
                    },
                }
            },
            None => match kind {
                RuleKind::Memo => {
                    &&& outcome == 0
                    &&& after.max_sp == self.max_sp
                    &&& after.max_captures_len == self.max_captures_len
                    &&& after.saved_lower == self.saved_lower
                    &&& after.memo_threshold == self.memo_threshold
                    &&& after.track_recovery_diagnostics == self.track_recovery_diagnostics
                    &&& after.same_side_buffers(*self)
                    &&& after.memo_misses == sat_inc(self.memo_misses)
                    &&& after.memo_hits == self.memo_hits
                    &&& after.stack@ == self.stack@.push(
                        StackEntry::Memo {
                            memo_id,
                            start_sp: self.sp,
                            capture_start_len: self.captures@.len() as usize,
                        },
                    )
                    &&& after.memo_examined@ == self.memo_examined@.push(self.sp)
                    &&& after.ip == self.ip + 1
                    &&& after.sp == self.sp
                    &&& after.captures@ == self.captures@
                },
                RuleKind::Lr => {
                    &&& after.memo_hits == self.memo_hits
                    &&& after.memo_misses == self.memo_misses
                    &&& (forall|j: int|
                        0 <= j < self.stack@.len() ==> !lr_frame_of(
                            #[trigger] self.stack@[j],
                            memo_id,
                            self.sp,
                        )) ==> {
                        &&& outcome == 0
                        &&& after.same_run_state(*self)
                        &&& after.stack@ == self.stack@.push(
                            StackEntry::LFrame {
                                memo_id,
                                start_sp: self.sp,
                                capture_start_len: self.captures@.len() as usize,
                                return_addr,
                                seed: None,
                            },
                        )
                        &&& after.memo_examined@ == self.memo_examined@.push(self.sp)
                        &&& after.ip == self.ip + 1
                        &&& after.sp == self.sp
                        &&& after.captures@ == self.captures@
                    }
                    &&& forall|i: int|
                        #![trigger self.stack@[i]]
                        top_lr_frame_at(self.stack@, i, memo_id, self.sp) ==> match seed_of(
                            self.stack@[i],
                        ) {
                            Some((e, caps)) => {
                                &&& outcome == 0
                                &&& after.sp == e
                                &&& after.ip == return_addr
                                &&& after.captures@ == self.captures@ + reopen_all(caps)
                                &&& after.memo_examined@ == bumped(self.memo_examined@, e)
                            },
                            None => outcome == 1 && after == *self,
                        }
                },
            },
        })
    }

    /// `RuleEnter`: answer from the memo table, or enter the rule body.
    ///
    /// The contract states the registers, live captures, examined stack,
    /// memo table and counters after the call; where the rule's outcome is
    /// taken from a cached or seeded match, the farthest-failure watermarks
    /// are also advanced, and that update is not described here.
    fn rule_enter(&mut self, memo_id: MemoId, kind: RuleKind, return_addr: usize) -> (outcome: u8)
        requires
            old(self).inv(),
            old(self).ip < old(self).program.code.len(),
        ensures
            final(self).inv(),
            old(self).rule_entered(*final(self), memo_id, kind, return_addr, outcome),
    {
        let ghost st = self.stack@;
        let ghost sp0 = self.sp;
        let len = self.input.len();
        let hit: Option<(Option<usize>, usize, Vec<Capture>)> = match self.memo.get(memo_id, self.sp) {
            Some(entry) => {
                let usable = match entry.end_sp {
                    Some(e) => e >= self.sp && e <= len,
                    None => true,
                };
                if usable {
                    let caps = super::incremental::copy_captures(&entry.captures);
                    proof {
                        assert(usable_hit(self.memo.view(), memo_id, self.sp, self.input@.len()) == Some(
                            (memo_id, self.sp, entry.end_sp, entry.examined_max, caps@),
                        ));
                    }
                    Some((entry.end_sp, entry.examined_max, caps))
                } else {
                    proof {
                        assert(usable_hit(self.memo.view(), memo_id, self.sp, self.input@.len()) is None);
                    }
                    None
                }
            },
            None => None,
        };
        if let Some((end_sp, examined, caps)) = hit {
            self.memo_hits = if self.memo_hits < usize::MAX { self.memo_hits + 1 } else { usize::MAX };
            match end_sp {
                Some(e) => {
                    self.replay(&caps);
                    self.bump_top_memo_examined(examined);
                    self.sp = e;
                    self.ip = return_addr;
                    self.maybe_snapshot();
                    return 0;
                },
                None => {
                    self.bump_top_memo_examined(examined);
                    return 1;
                },
            }
        }
        match kind {
            RuleKind::Memo => {
                self.memo_misses = if self.memo_misses < usize::MAX { self.memo_misses + 1 } else { usize::MAX };
                let e = StackEntry::Memo {
                    memo_id,
                    start_sp: self.sp,
                    capture_start_len: self.captures.len(),
                };
                self.push_entry(e);
                self.memo_examined.push(self.sp);
                self.ip = self.ip + 1;
                0
            },
            RuleKind::Lr => {
                let found = self.find_lr_seed(memo_id);
                proof {
                    if found is Some {
                        let i0 = choose|i: int|
                            #[trigger] top_lr_frame_at(st, i, memo_id, sp0) && seed_matches(st[i], found->0);
                        assert forall|i: int| #[trigger]
                            top_lr_frame_at(st, i, memo_id, sp0) implies seed_matches(st[i], found->0) by {
                            if i < i0 {
                                assert(lr_frame_of(st[i0], memo_id, sp0));
                            } else if i > i0 {
                                assert(lr_frame_of(st[i], memo_id, sp0));
                            }
                        }
                    }
                }
                match found {
                    Some(Some((end_sp, caps))) => {
                        self.replay(&caps);
                        self.bump_top_memo_examined(end_sp);
                        self.sp = end_sp;
                        self.ip = return_addr;
                        self.maybe_snapshot();
                        0
                    },
                    Some(None) => 1,
                    None => {
                        let e = StackEntry::LFrame {
                            memo_id,
                            start_sp: self.sp,
                            capture_start_len: self.captures.len(),
                            return_addr,
                            seed: None,
                        };
                        self.push_entry(e);
                        self.memo_examined.push(self.sp);
                        self.ip = self.ip + 1;
                        0
                    },
                }
            },
        }
    }

    /// Close the live captures from `from` on, ending open ones at `close_at`.
    fn closed_captures_from(&self, from: usize, close_at: usize) -> (out: Vec<Capture>)
        ensures
            out@ == closed_from(self.captures@, from, close_at),
    {
        let mut out: Vec<Capture> = Vec::new();
        if from > self.captures.len() {
            return out;
        }
        proof {
            assert(close_all(self.captures@.subrange(from as int, from as int), close_at) =~= out@);
        }
        let mut i = from;
        while i < self.captures.len()
            invariant
                from <= i <= self.captures@.len(),
                out@ == close_all(self.captures@.subrange(from as int, i as int), close_at),
            decreases self.captures.len() - i,
        {
            proof {
                assert(close_all(self.captures@.subrange(from as int, i + 1), close_at) =~= close_all(
                    self.captures@.subrange(from as int, i as int),
                    close_at,
                ).push(closed(self.captures@[i as int], close_at)));
            }
            out.push(close_open(self.captures[i], close_at));
            i += 1;
        }
        out
    }

    /// `after` is `self` after `MemoClose` with the given outcome; see
    /// `memo_close`.
    spec fn memo_closed(&self, after: Self, memo_id: MemoId, outcome: u8) -> bool {
        &&& after.same_frame(*self)
        &&& after.step_budget == self.step_budget
        &&& outcome == 0 || outcome == 1
        &&& (outcome == 0) == (self.stack@.len() > 0 && memo_frame_of(self.stack@.last(), memo_id))
        &&& outcome == 1 ==> after == *self
        &&& (outcome == 0 ==> match self.stack@.last() {
            StackEntry::Memo { start_sp, capture_start_len, .. } => {
                let (examined, rest) = popped_examined(self.memo_examined@, self.sp);
                &&& after.same_run_state(*self)
                &&& after.stack@ == self.stack@.drop_last()
                &&& after.ip == self.ip + 1
                &&& after.sp == self.sp
                &&& after.captures@ == self.captures@
                &&& after.memo_examined@ == bumped(rest, examined)
                &&& if should_cache(RuleKind::Memo, start_sp, self.sp, self.memo_threshold) {
                    memo_stores(
                        after.memo.view(),
                        self.memo.view(),
                        memo_id,
                        start_sp,
                        Some(self.sp),
                        examined,
                        closed_from(self.captures@, capture_start_len, self.sp),
                    )
                } else {
                    after.memo == self.memo
                }
            },
            _ => false,
        })
    }

    /// `MemoClose`: the rule body succeeded; record it.
    fn memo_close(&mut self, memo_id: MemoId) -> (outcome: u8)
        requires
            old(self).inv(),
            old(self).ip < old(self).program.code.len(),
        ensures
            final(self).inv(),
            old(self).memo_closed(*final(self), memo_id, outcome),
    {
        let n = self.stack.len();
        if n == 0 {
            return 1;
        }
        let frame = match &self.stack[n - 1] {
            StackEntry::Memo { memo_id: id, start_sp, capture_start_len } => Some((*id, *start_sp, *capture_start_len)),
            _ => None,
        };
        let (top_id, start_sp, capture_start_len) = match frame {
            Some(f) => f,
            None => return 1,
        };
        if top_id.0 != memo_id.0 {
            return 1;
        }
        let ghost st = self.stack@;
        self.stack.pop();
        proof {
            assert forall|i: int| 0 <= i < self.stack@.len() implies entry_fits(
                #[trigger] self.stack@[i],
                self.input@.len(),
            ) by {
                assert(self.stack@[i] == st[i]);
            }
        }
        let examined_max = match self.memo_examined.pop() {
            Some(x) => x,
            None => self.sp,
        };
        self.bump_top_memo_examined(examined_max);
        let rule_captures = self.closed_captures_from(capture_start_len, self.sp);
        self.cache_success(RuleKind::Memo, memo_id, start_sp, self.sp, examined_max, rule_captures);
        self.ip = self.ip + 1;
        0
    }

    /// `after` is `self` after `LRTail` with the given outcome; see
    /// `lr_tail`.
    spec fn lr_tailed(&self, after: Self, memo_id: MemoId, body_start: usize, outcome: u8) -> bool {
        &&& after.same_frame(*self)
        &&& after.keeps_diagnostics(*self)
        &&& after.step_budget == self.step_budget
        &&& outcome <= 1
        &&& (forall|j: int| 0 <= j < self.stack@.len() ==> !is_lframe(#[trigger] self.stack@[j]))
            ==> outcome == 1 && after == *self
        &&& (forall|i: int|
            #![trigger self.stack@[i]]
            top_lframe_at(self.stack@, i) ==> match self.stack@[i] {
                StackEntry::LFrame { memo_id: id, start_sp, capture_start_len, return_addr, seed } => {
                    let grew = match seed {
                        None => self.sp > start_sp,
                        Some(s) => self.sp > s.end_sp,
                    };
                    &&& outcome == 0
                    &&& if id == memo_id && grew {
                        &&& after.sp == start_sp
                        &&& after.ip == body_start
                        &&& after.captures@ == kept_prefix(self.captures@, capture_start_len)
                        &&& after.memo == self.memo
                        &&& after.memo_examined@ == self.memo_examined@
                        &&& after.stack@.len() == self.stack@.len()
                        &&& match after.stack@[i] {
                            StackEntry::LFrame {
                                memo_id: id2,
                                start_sp: s2,
                                capture_start_len: c2,
                                return_addr: r2,
                                seed: Some(grown),
                            } => id2 == id && s2 == start_sp && c2 == capture_start_len && r2 == return_addr
                                && grown.end_sp == self.sp && grown.captures@ == closed_from(
                                self.captures@,
                                capture_start_len,
                                self.sp,
                            ),
                            _ => false,
                        }
                        &&& forall|j: int|
                            #![trigger after.stack@[j]]
                            0 <= j < self.stack@.len() && j != i ==> protected(
                                after.stack@[j],
                                self.stack@[j],
                                self.captures@,
                                capture_start_len,
                            )
                    } else {
                        let (examined, rest) = popped_examined(self.memo_examined@, self.sp);
                        let (end, seed_caps) = match seed {
                            Some(s) => (s.end_sp, s.captures@),
                            None => (start_sp, Seq::<Capture>::empty()),
                        };
                        &&& after.sp == end
                        &&& after.ip == self.ip + 1
                        &&& after.captures@ == kept_prefix(self.captures@, capture_start_len)
                            + reopen_all(seed_caps)
                        &&& after.memo_examined@ == bumped(rest, examined)
                        &&& memo_stores(
                            after.memo.view(),
                            self.memo.view(),
                            id,
                            start_sp,
                            Some(end),
                            examined,
                            seed_caps,
                        )
                        &&& after.stack@.len() + 1 == self.stack@.len()
                    }
                },
                _ => false,
            })
    }

    /// `LRTail`: grow the seed and re-run the body, or accept the seed.
    ///
    /// The contract states the registers, live captures, frame, examined
    /// stack and memo table after the call; when the seed is accepted the
    /// farthest-failure watermarks are also advanced, and that update is
    /// not described here.
    fn lr_tail(&mut self, memo_id: MemoId, body_start: usize) -> (outcome: u8)
        requires
            old(self).inv(),
            old(self).ip < old(self).program.code.len(),
        ensures
            final(self).inv(),
            old(self).lr_tailed(*final(self), memo_id, body_start, outcome),
    {
        let ghost st = self.stack@;
        let top_idx = match self.top_lframe() {
            Some(i) => i,
            None => return 1,
        };
        proof {
            assert forall|i: int| #[trigger] top_lframe_at(st, i) implies i == top_idx by {
                if i < top_idx {
                    assert(is_lframe(st[top_idx as int]));
                } else if i > top_idx {
                    assert(is_lframe(st[i]));
                }
            }
        }
        let mut frame = StackEntry::Return { ip: 0 };
        std::mem::swap(&mut frame, &mut self.stack[top_idx]);
        let ghost fr = frame;
        proof {
            assert(entry_fits(fr, self.input@.len()));
        }
        let (id, start_sp, capture_start_len, return_addr, seed) = match frame {
            StackEntry::LFrame { memo_id, start_sp, capture_start_len, return_addr, seed } => (memo_id, start_sp, capture_start_len, return_addr, seed),
            _ => {
                return 1;
            },
        };
        let body_end_sp = self.sp;
        let grew = match &seed {
            None => body_end_sp > start_sp,
            Some(prev) => body_end_sp > prev.end_sp,
        };
        if id.0 == memo_id.0 && grew {
            let new_caps = self.closed_captures_from(capture_start_len, body_end_sp);
            let mut restored = StackEntry::LFrame {
                memo_id: id,
                start_sp,
                capture_start_len,
                return_addr,
                seed: Some(LSeed { end_sp: body_end_sp, captures: new_caps }),
            };
            std::mem::swap(&mut restored, &mut self.stack[top_idx]);
            self.truncate_captures(capture_start_len);
            self.sp = start_sp;
            self.ip = body_start;
            return 0;
        }
        // No growth (or a mismatched frame): accept the seed and pop the frame.
        let ghost st = self.stack@;
        self.stack.remove(top_idx);
        proof {
            assert forall|i: int| 0 <= i < self.stack@.len() implies entry_fits(
                #[trigger] self.stack@[i],
                self.input@.len(),
            ) by {
                if i < top_idx {
                    assert(self.stack@[i] == st[i]);
                } else {
                    assert(self.stack@[i] == st[i + 1]);
                }
            }
        }
        let examined = match self.memo_examined.pop() {
            Some(x) => x,
            None => self.sp,
        };
        self.bump_top_memo_examined(examined);
        self.truncate_captures(capture_start_len);
        let (final_sp, seed_captures) = match seed {
            Some(s) => {
                self.replay(&s.captures);
                (s.end_sp, s.captures)
            },
            None => (start_sp, Vec::new()),
        };
        self.sp = final_sp;
        self.cache_success(RuleKind::Lr, id, start_sp, final_sp, examined, seed_captures);
        self.maybe_snapshot();
        self.ip = self.ip + 1;
        0
    }

    /// `after` is `self` after `RecoverToScopedMax` with the given
    /// outcome; see `recover_to_scoped_max`.
    spec fn recovered(&self, after: Self, outcome: u8) -> bool {
        &&& after.same_frame(*self)
        &&& after.keeps_diagnostics(*self)
        &&& after.step_budget == self.step_budget
        &&& outcome <= 1
        &&& (forall|j: int| 0 <= j < self.stack@.len() ==> !is_scope(#[trigger] self.stack@[j]))
            ==> outcome == 1 && after == *self
        &&& (forall|i: int|
            #![trigger self.stack@[i]]
            top_scope_at(self.stack@, i) ==> match self.stack@[i] {
                StackEntry::RecoverScope {
                    label,
                    baseline_sp,
                    baseline_capture_len,
                    scoped_max_sp,
                    scoped_max_captures_len,
                    scoped_saved_above,
                    ..
                } => {
                    &&& outcome == 0
                    &&& after.sp == scoped_max_sp
                    &&& after.ip == self.ip + 1
                    &&& after.captures@ == kept_prefix(self.captures@, baseline_capture_len)
                        + descending(
                        seal_all(scoped_saved_above@, scoped_max_sp),
                        0,
                        scoped_saved_above@.len() as int,
                    )
                    &&& after.memo == self.memo
                    &&& after.memo_examined@ == self.memo_examined@
                    &&& after.memo_hits == self.memo_hits
                    &&& after.memo_misses == self.memo_misses
                    &&& if self.track_recovery_diagnostics {
                        &&& after.recovery_diagnostics@.len() == self.recovery_diagnostics@.len() + 1
                        &&& after.recovery_diagnostics@.drop_last() =~= self.recovery_diagnostics@
                        &&& after.recovery_diagnostics@.last().label == label
                        &&& after.recovery_diagnostics@.last().position == scoped_max_sp
                        &&& after.recovery_diagnostics@.last().rule_stack@ == memo_ids(
                            after.stack@,
                        )
                    } else {
                        after.recovery_diagnostics@ == self.recovery_diagnostics@
                    }
                    &&& after.stack@.len() == self.stack@.len()
                    &&& match after.stack@[i] {
                        StackEntry::RecoverScope {
                            label: l2,
                            baseline_sp: b2,
                            baseline_capture_len: c2,
                            scoped_max_sp: m2,
                            scoped_max_captures_len: mc2,
                            ..
                        } => l2 == label && b2 == baseline_sp && c2 == baseline_capture_len && m2
                            == scoped_max_sp && mc2 == scoped_max_captures_len,
                        _ => false,
                    }
                    &&& forall|j: int|
                        #![trigger after.stack@[j]]
                        0 <= j < self.stack@.len() && j != i ==> if self.captures@.len()
                            > baseline_capture_len {
                            protected(
                                after.stack@[j],
                                self.stack@[j],
                                self.captures@,
                                baseline_capture_len,
                            )
                        } else {
                            after.stack@[j] == self.stack@[j]
                        }
                },
                _ => false,
            })
    }

    /// `RecoverToScopedMax`: restore the topmost scope's deepest-progress
    /// captures (closing open ones there) and jump to that position.
    ///
    /// The contract states the registers, live captures, diagnostics and
    /// the other frames after the call; of the scope itself it states the
    /// fields that identify it, not its reset watermark buffer.
    fn recover_to_scoped_max(&mut self) -> (outcome: u8)
        requires
            old(self).inv(),
            old(self).ip < old(self).program.code.len(),
        ensures
            final(self).inv(),
            old(self).recovered(*final(self), outcome),
    {
        let ghost st = self.stack@;
        let idx = match self.top_recover_scope() {
            Some(i) => i,
            None => return 1,
        };
        proof {
            assert forall|i: int| #[trigger] top_scope_at(st, i) implies i == idx by {
                if i < idx {
                    assert(is_scope(st[idx as int]));
                } else if i > idx {
                    assert(is_scope(st[i]));
                }
            }
        }
        let mut frame = StackEntry::Return { ip: 0 };
        std::mem::swap(&mut frame, &mut self.stack[idx]);
        let ghost fr = frame;
        proof {
            assert(entry_fits(fr, self.input@.len()));
        }
        match frame {
            StackEntry::RecoverScope {
                label,
                baseline_sp,
                baseline_capture_len,
                scoped_max_sp,
                scoped_max_captures_len,
                scoped_saved_lower: _,
                scoped_saved_above,
            } => {
                let mut restored = StackEntry::RecoverScope {
                    label,
                    baseline_sp,
                    baseline_capture_len,
                    scoped_max_sp,
                    scoped_max_captures_len,
                    scoped_saved_lower: scoped_max_captures_len,
                    scoped_saved_above: Vec::new(),
                };
                std::mem::swap(&mut restored, &mut self.stack[idx]);
                if self.captures.len() > baseline_capture_len {
                    self.truncate_captures(baseline_capture_len);
                } else {
                    assert(self.captures@ =~= kept_prefix(old(self).captures@, baseline_capture_len));
                }
                let ghost base = self.captures@;
                let ghost sealed_above = seal_all(scoped_saved_above@, scoped_max_sp);
                let ghost after_trunc = *self;
                let mut k = scoped_saved_above.len();
                while k > 0
                    invariant
                        k <= scoped_saved_above.len(),
                        self.inv(),
                        self.same_frame(*old(self)),
                        self.step_budget == old(self).step_budget,
                        self.ip == old(self).ip,
                        self.same_except_captures(after_trunc),
                        self.captures@ == base + descending(
                            sealed_above,
                            k as int,
                            scoped_saved_above@.len() as int,
                        ),
                    decreases k,
                {
                    k -= 1;
                    proof {
                        assert(descending(sealed_above, k as int, scoped_saved_above@.len() as int)
                            == descending(sealed_above, k + 1, scoped_saved_above@.len() as int).push(
                            sealed(scoped_saved_above@[k as int], scoped_max_sp),
                        ));
                    }
                    let c = scoped_saved_above[k];
                    self.captures.push(OpenCapture {
                        kind: c.kind,
                        start: c.start,
                        end: Some(
                            match c.end {
                                Some(e) => e,
                                None => scoped_max_sp,
                            },
                        ),
                    });
                    proof {
                        assert(self.captures@ =~= base + descending(
                            sealed_above,
                            k as int,
                            scoped_saved_above@.len() as int,
                        ));
                    }
                }
                if self.track_recovery_diagnostics {
                    let rule_stack = self.rule_stack();
                    self.recovery_diagnostics.push(RecoveryDiagnostic { label, position: scoped_max_sp, rule_stack });
                }
                self.sp = scoped_max_sp;
                self.ip = self.ip + 1;
                0
            },
            other => {
                let mut back = other;
                std::mem::swap(&mut back, &mut self.stack[idx]);
                1
            },
        }
    }
}

} // verus!
