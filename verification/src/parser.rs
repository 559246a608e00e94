//! Incremental parsing over bytes, built on [`crate::pegvm`].
//!
//! [`Parser`] holds a compiled program, owns the current input, and
//! carries a [`MemoCache`] across edits so a re-parse after a small
//! change reuses the memo entries whose examined spans the edit did not
//! touch. The first [`Parser::set_input`] is a cold parse; each
//! [`Parser::edit`] / [`Parser::append`] is a warm one.
//!
//! Matching is byte-oriented, so the input is a `Vec<u8>`; UTF-8 is the
//! caller's concern.
use vstd::prelude::*;

use vstd::string::*;

use crate::highlight::spliced;
use crate::pegc;
use crate::pegvm::incremental::{RecordView, edited_records};
use crate::pegvm::vm::{RecoveryDiagnostic, run_outcome};
use crate::pegvm::{Capture, Edit, MatchResult, MemoCache, MemoStats, Program, VM};

verus! {

/// Failure of [`Parser::new`]: the grammar did not parse or compile.
#[derive(Debug)]
pub struct ParserError(pub pegc::Error);

/// Stateful, always-incremental parser: the compiled program, the
/// current input, the memo cache carried across edits, and the result
/// of the latest parse. Every mutating method re-parses; the read
/// methods never do.
pub struct Parser {
    program: Program,
    input: Vec<u8>,
    cache: MemoCache,
    matched: usize,
    complete: bool,
    captures: Vec<Capture>,
    last_stats: MemoStats,
    track_recovery_diagnostics: bool,
    recovery_diagnostics: Vec<RecoveryDiagnostic>,
}

/// The memo records a parse starts from after an edit that replaces
/// `[start, old_end)` with `new_len` bytes: those of `memo` the edit did
/// not touch, shifted to the new offsets.
pub open spec fn seeded_after_edit(memo: Seq<RecordView>, start: usize, old_end: usize, new_len: usize) -> Seq<
    RecordView,
> {
    let e = Edit { start, old_end, new_end: (start + new_len) as usize };
    if e.spec_is_noop() {
        memo
    } else {
        edited_records(memo, e)
    }
}

/// Append `bytes[from..to]` to `out`.
fn extend_range(out: &mut Vec<u8>, bytes: &[u8], from: usize, to: usize)
    requires
        from <= to <= bytes@.len(),
    ensures
        final(out)@ == old(out)@ + bytes@.subrange(from as int, to as int),
{
    let mut k = from;
    while k < to
        invariant
            from <= k <= to,
            to <= bytes@.len(),
            out@ == old(out)@ + bytes@.subrange(from as int, k as int),
        decreases to - k,
    {
        out.push(bytes[k]);
        k += 1;
        assert(bytes@.subrange(from as int, k as int) =~= bytes@.subrange(from as int, k - 1).push(
            bytes@[k - 1],
        ));
    }
}

impl Parser {
    /// The current input.
    pub closed spec fn text(&self) -> Seq<u8> {
        self.input@
    }

    /// How far the latest parse matched.
    pub closed spec fn matched_len(&self) -> usize {
        self.matched
    }

    /// The latest parse reached `End`.
    pub closed spec fn reached_end(&self) -> bool {
        self.complete
    }

    /// The captures of the latest parse.
    pub closed spec fn capture_seq(&self) -> Seq<Capture> {
        self.captures@
    }

    /// The compiled program.
    pub closed spec fn program(&self) -> Program {
        self.program
    }

    /// The memo statistics of the latest parse.
    pub closed spec fn stats(&self) -> MemoStats {
        self.last_stats
    }

    /// Recovery diagnostics are recorded.
    pub closed spec fn tracking(&self) -> bool {
        self.track_recovery_diagnostics
    }

    /// The recovery diagnostics of the latest parse.
    pub closed spec fn diagnostics(&self) -> Seq<RecoveryDiagnostic> {
        self.recovery_diagnostics@
    }

    /// The memo records carried into the next parse.
    pub closed spec fn memo_records(&self) -> Seq<RecordView> {
        self.cache.view()
    }

    /// `self` holds the outcome of one run of `program` over `text` that
    /// starts from the memo records `memo`, with diagnostics tracked as
    /// `tracking`: the match length, completion, captures, statistics,
    /// diagnostics and memo records carried on are those of the run.
    pub open spec fn holds_run(&self, program: Program, text: Seq<u8>, memo: Seq<RecordView>, tracking: bool) -> bool {
        exists|r: (MatchResult, MemoStats, MemoCache)|
            #[trigger] run_outcome(program, text, memo, tracking, r) && self.matched_len() == r.0.matched
                && self.reached_end() == r.0.complete && self.capture_seq() == r.0.captures@ && self.stats()
                == r.1 && self.diagnostics() == r.0.recovery_diagnostics@ && self.memo_records() == r.2.view()
    }

    /// The latest parse matched a prefix of the input, and the recorded
    /// entry count is the size of the carried cache.
    pub closed spec fn wf(&self) -> bool {
        &&& self.matched <= self.input@.len()
        &&& self.last_stats.entries == self.cache@.len()
    }

    /// Compile `grammar_source`; the parser starts with empty input.
    pub fn new(grammar_source: &str) -> (r: Result<Self, ParserError>)
        requires
            grammar_source.spec_bytes().len() < usize::MAX,
        ensures
            r matches Err(ParserError(pegc::Error::Parse(e))) ==> pegc::parser::located(
                e,
                grammar_source.spec_bytes(),
            ),
            !(r matches Err(ParserError(pegc::Error::Compile(pegc::CompileError::UnknownStartRule(_))))),
            r matches Ok(p) ==> {
                &&& p.wf()
                &&& p.text() == Seq::<u8>::empty()
                &&& p.matched_len() == 0
                &&& p.reached_end()
                &&& p.capture_seq().len() == 0
                &&& !p.tracking()
                &&& p.memo_records().len() == 0
            },
    {
        match pegc::compile(grammar_source) {
            Ok(program) => Ok(Self::from_program(program)),
            Err(e) => Err(ParserError(e)),
        }
    }

    /// A parser with empty input over an already compiled program.
    pub fn from_program(program: Program) -> (p: Self)
        ensures
            p.wf(),
            p.program() == program,
            p.text() == Seq::<u8>::empty(),
            p.matched_len() == 0,
            p.reached_end(),
            p.capture_seq().len() == 0,
            p.stats() == (MemoStats { entries: 0, hits: 0, misses: 0 }),
            !p.tracking(),
            p.diagnostics().len() == 0,
            p.memo_records().len() == 0,
    {
        Parser {
            program,
            input: Vec::new(),
            cache: MemoCache::new(),
            matched: 0,
            complete: true,
            captures: Vec::new(),
            last_stats: MemoStats { entries: 0, hits: 0, misses: 0 },
            track_recovery_diagnostics: false,
            recovery_diagnostics: Vec::new(),
        }
    }

    /// Record one [`RecoveryDiagnostic`] per fired recovery on every
    /// later parse (or stop doing so).
    pub fn with_track_recovery_diagnostics(self, enable: bool) -> (p: Self)
        requires
            self.wf(),
        ensures
            p.wf(),
            p.tracking() == enable,
            p.program() == self.program(),
            p.text() == self.text(),
            p.matched_len() == self.matched_len(),
            p.reached_end() == self.reached_end(),
            p.capture_seq() == self.capture_seq(),
            p.stats() == self.stats(),
            p.diagnostics() == self.diagnostics(),
    {
        let mut p = self;
        p.track_recovery_diagnostics = enable;
        p
    }

    /// Replace the whole input and parse it cold: the carried cache is
    /// dropped.
    pub fn set_input(&mut self, input: Vec<u8>)
        requires
            old(self).wf(),
        ensures
            final(self).wf(),
            final(self).text() == input@,
            final(self).program() == old(self).program(),
            final(self).tracking() == old(self).tracking(),
            !final(self).tracking() ==> final(self).diagnostics().len() == 0,
            final(self).holds_run(old(self).program(), input@, Seq::empty(), old(self).tracking()),
    {
        self.input = input;
        self.cache = MemoCache::new();
        self.reparse();
    }

    /// Replace `input[start..old_end]` with `replacement` and re-parse
    /// incrementally: cache entries whose examined span crosses the edit
    /// are dropped, the rest are shifted to the new offsets.
    pub fn edit(&mut self, start: usize, old_end: usize, replacement: &[u8])
        requires
            old(self).wf(),
            start <= old_end <= old(self).text().len(),
            old(self).text().len() + replacement@.len() <= usize::MAX,
        ensures
            final(self).wf(),
            final(self).text() == spliced(old(self).text(), start as int, old_end as int, replacement@),
            final(self).program() == old(self).program(),
            final(self).tracking() == old(self).tracking(),
            !final(self).tracking() ==> final(self).diagnostics().len() == 0,
            final(self).holds_run(
                old(self).program(),
                spliced(old(self).text(), start as int, old_end as int, replacement@),
                seeded_after_edit(old(self).memo_records(), start, old_end, replacement@.len() as usize),
                old(self).tracking(),
            ),
    {
        let mut v: Vec<u8> = Vec::new();
        extend_range(&mut v, self.input.as_slice(), 0, start);
        extend_range(&mut v, replacement, 0, replacement.len());
        extend_range(&mut v, self.input.as_slice(), old_end, self.input.len());
        assert(replacement@.subrange(0, replacement@.len() as int) =~= replacement@);
        let edit = Edit::replacement(start, old_end, replacement.len());
        self.input = v;
        self.cache.apply_edit(edit);
        self.reparse();
    }

    /// Streaming append: an edit at the end of the input.
    pub fn append(&mut self, text: &[u8])
        requires
            old(self).wf(),
            old(self).text().len() + text@.len() <= usize::MAX,
        ensures
            final(self).wf(),
            final(self).text() == old(self).text() + text@,
            final(self).program() == old(self).program(),
            final(self).tracking() == old(self).tracking(),
            !final(self).tracking() ==> final(self).diagnostics().len() == 0,
            final(self).holds_run(
                old(self).program(),
                old(self).text() + text@,
                seeded_after_edit(
                    old(self).memo_records(),
                    old(self).text().len() as usize,
                    old(self).text().len() as usize,
                    text@.len() as usize,
                ),
                old(self).tracking(),
            ),
    {
        let at = self.input.len();
        self.edit(at, at, text);
        assert(spliced(old(self).text(), at as int, at as int, text@) =~= old(self).text() + text@);
    }

    /// The current input.
    pub fn input(&self) -> (r: &[u8])
        ensures
            r@ == self.text(),
    {
        self.input.as_slice()
    }

    /// The captures of the latest parse, with how far it matched. After a
    /// partial match they are the spans valid at the farthest position.
    pub fn captures(&self) -> (r: (usize, &[Capture]))
        ensures
            r.0 == self.matched_len(),
            r.1@ == self.capture_seq(),
    {
        (self.matched, self.captures.as_slice())
    }

    /// The latest parse reached `End`: the whole input matched. This is
    /// not `captures().0 == input().len()`, which a partial parse can
    /// also meet.
    pub fn is_complete(&self) -> (b: bool)
        ensures
            b == self.reached_end(),
    {
        self.complete
    }

    /// Capture-kind names, indexed by `CaptureKind.0`.
    pub fn capture_kinds(&self) -> (r: &[String])
        ensures
            r@ == self.program().capture_kinds@,
    {
        self.program.capture_kinds.as_slice()
    }

    /// Rule names, indexed by `MemoId.0`.
    pub fn rule_names(&self) -> (r: &[String])
        ensures
            r@ == self.program().rule_names@,
    {
        self.program.rule_names.as_slice()
    }

    /// Recovery-label names, indexed by `LabelId.0`.
    pub fn label_kinds(&self) -> (r: &[String])
        ensures
            r@ == self.program().label_kinds@,
    {
        self.program.label_kinds.as_slice()
    }

    /// Per-rule ignore flags, indexed by `MemoId.0`.
    pub fn rule_is_ignore(&self) -> (r: &[bool])
        ensures
            r@ == self.program().rule_is_ignore@,
    {
        self.program.rule_is_ignore.as_slice()
    }

    /// The recovery diagnostics of the latest parse; empty unless
    /// tracking is on.
    pub fn recovery_diagnostics(&self) -> (r: &[RecoveryDiagnostic])
        ensures
            r@ == self.diagnostics(),
    {
        self.recovery_diagnostics.as_slice()
    }

    /// Memo statistics of the latest parse.
    pub fn last_stats(&self) -> (s: MemoStats)
        ensures
            s == self.stats(),
    {
        self.last_stats
    }

    /// Parse the current input, seeding the VM with the carried cache.
    fn reparse(&mut self)
        ensures
            final(self).wf(),
            final(self).text() == old(self).text(),
            final(self).program() == old(self).program(),
            final(self).tracking() == old(self).tracking(),
            !final(self).tracking() ==> final(self).diagnostics().len() == 0,
            final(self).holds_run(old(self).program(), old(self).text(), old(self).memo_records(), old(self).tracking()),
    {
        let mut seeded = MemoCache::new();
        std::mem::swap(&mut seeded, &mut self.cache);
        let vm = VM::new_with_cache(&self.program, self.input.as_slice(), seeded)
            .with_track_recovery_diagnostics(self.track_recovery_diagnostics);
        let (result, stats, cache_after) = vm.run_with_cache();
        assert(run_outcome(self.program, self.input@, old(self).cache.view(), self.track_recovery_diagnostics, (result, stats, cache_after)));
        self.cache = cache_after;
        self.matched = result.matched;
        self.complete = result.complete;
        self.captures = result.captures;
        self.recovery_diagnostics = result.recovery_diagnostics;
        self.last_stats = stats;
    }
}

} // verus!
