//! Bytecode of the PEG virtual machine.
use vstd::prelude::*;

verus! {

/// Index into a compiled program's instruction array — a code address.
#[derive(Clone, Copy, Debug, PartialEq, Eq, Hash, Default, Structural)]
pub struct Label(pub u32);

impl Label {
    /// The address as an index.
    pub fn as_index(self) -> (i: usize)
        ensures
            i as int == self.0 as int,
    {
        self.0 as usize
    }
}

/// Opaque tag identifying a capture kind; an index into
/// `Program::capture_kinds`.
#[derive(Clone, Copy, Debug, PartialEq, Eq, Hash, Default, Structural)]
pub struct CaptureKind(pub u16);

/// Opaque tag identifying a memoized rule; an index into
/// `Program::rule_names`.
#[derive(Clone, Copy, Debug, PartialEq, Eq, Hash, Default, Structural)]
pub struct MemoId(pub u32);

/// Opaque tag identifying a character set; an index into
/// `Program::char_sets`.
#[derive(Clone, Copy, Debug, PartialEq, Eq, Hash, Default, Structural)]
pub struct SetId(pub u16);

/// Opaque tag identifying a recovery-scope label; an index into
/// `Program::label_kinds`.
#[derive(Clone, Copy, Debug, PartialEq, Eq, Hash, Default, Structural)]
pub struct LabelId(pub u16);

/// Post-cache-miss behaviour selected by a `RuleEnter`.
#[derive(Clone, Copy, Debug, PartialEq, Eq, Structural)]
pub enum RuleKind {
    /// Plain packrat memoization.
    Memo,
    /// Bounded left recursion (seed and grow).
    Lr,
}

/// One VM instruction.
#[derive(Clone, Copy, Debug, PartialEq, Eq, Structural)]
pub enum Instruction {
    /// Consume one input byte equal to the payload.
    Byte(u8),
    /// Consume one UTF-8 encoded scalar (one byte of invalid UTF-8).
    Any,
    /// Consume one UTF-8 encoded scalar in the set `char_sets[id]`.
    CharSet(SetId),
    Jump(Label),
    Choice(Label),
    Commit(Label),
    PartialCommit(Label),
    BackCommit(Label),
    FailTwice,
    Fail,
    Call(Label),
    Return,
    /// Rule-entry prologue: probes the memo at `(memo_id, sp)`.
    RuleEnter(MemoId, RuleKind, Label),
    /// Rule-level memoization epilogue.
    MemoClose(MemoId),
    /// Left-recursion grow controller.
    LRTail(MemoId, Label),
    CaptureBegin(CaptureKind),
    CaptureEnd,
    /// Open a recovery scope tagged with a diagnostic label.
    RecoverScopeBegin(LabelId),
    /// Restore the topmost scope's deepest-progress captures and position.
    RecoverToScopedMax,
    /// Close the topmost recovery scope.
    RecoverScopeEnd,
    End,
}

} // verus!
