//! Runnable bytecode produced by the grammar compiler.
use vstd::prelude::*;

use super::charset::CharSet;
use super::instruction::Instruction;

verus! {

/// A compiled program: instructions plus the tables they index into.
#[derive(Debug)]
pub struct Program {
    pub code: Vec<Instruction>,
    /// Capture-kind names, indexed by `CaptureKind.0`.
    pub capture_kinds: Vec<String>,
    /// Number of rules; every rule has a `MemoId` below this.
    pub rule_count: usize,
    /// Rule names, indexed by `MemoId.0`.
    pub rule_names: Vec<String>,
    /// Recovery-label names, indexed by `LabelId.0`.
    pub label_kinds: Vec<String>,
    /// Per-rule flags, indexed by `MemoId.0`: the rule is reachable from
    /// the grammar's `ignore` rule.
    pub rule_is_ignore: Vec<bool>,
    /// Character sets, indexed by `SetId.0`.
    pub char_sets: Vec<CharSet>,
}

} // verus!
