//! Pattern AST → VM bytecode.
use vstd::prelude::*;

use super::analysis::{
    analyze_left_recursion, bodies_of_rules, collect_non_terminal_refs, compute_ignore_rules, find_rule,
    ignore_bit, index_of, left_recursive, lemma_index_of, name_set, names_of_rules, refs,
};
use super::order::{compile_order, start_then_sorted};
use super::pattern::{Pattern, PatternV, lemma_pviews_index, pview, pviews};
use crate::pegvm::{CaptureKind, CharSet, Instruction, Label, LabelId, MemoId, Program, RuleKind, SetId};

verus! {

/// Failure modes of compilation.
#[derive(Debug)]
pub enum CompileError {
    UndefinedRule(String),
    UnknownStartRule(String),
    /// A `^^label` catch has no following context to infer a boundary from.
    CannotInferBoundary { rule: String, label: String },
    /// `lint_partial_match` reported findings.
    PartialMatchLeniency(Vec<super::analysis::LintFinding>),
    /// A literal reachable from both a `reserved` and a `preferred` rule.
    ReservedPreferredConflict(Vec<String>),
    /// The program would not be addressable with 32-bit labels.
    ProgramTooLarge,
}

/// Number of instructions `compile_pat` emits for a pattern.
pub open spec fn compiled_size(p: Pattern) -> nat
    decreases p,
{
    match p {
        Pattern::Literal(b) => b@.len(),
        Pattern::CharClass(_) => 1,
        Pattern::AnyChar => 1,
        Pattern::Sequence(items) => items_size(items@),
        Pattern::OrderedChoice(items) => if items@.len() == 0 {
            0
        } else {
            items_size(items@) + 2 * (items@.len() - 1) as nat
        },
        Pattern::Repeat(inner) => compiled_size(*inner) + 2,
        Pattern::RepeatOne(inner) => 2 * compiled_size(*inner) + 2,
        Pattern::Optional(inner) => compiled_size(*inner) + 2,
        Pattern::NotPredicate(inner) => compiled_size(*inner) + 2,
        Pattern::AndPredicate(inner) => compiled_size(*inner) + 3,
        Pattern::NonTerminal(_) => 1,
        Pattern::Capture(_, inner) => compiled_size(*inner) + 2,
        Pattern::Catch { inner, recovery, .. } => compiled_size(*inner) + compiled_size(*recovery) + 5,
        Pattern::Lenient(inner) => compiled_size(*inner),
        Pattern::InferBoundaryCatch { .. } => 0,
    }
}

/// Total emitted size of a list of patterns compiled one after another.
pub open spec fn items_size(items: Seq<Pattern>) -> nat
    decreases items,
{
    if items.len() == 0 {
        0
    } else {
        items_size(items.drop_last()) + compiled_size(items.last())
    }
}

/// The pattern holds no unresolved boundary placeholder.
pub open spec fn resolved(p: Pattern) -> bool
    decreases p,
{
    match p {
        Pattern::Sequence(items) => items_resolved(items@),
        Pattern::OrderedChoice(items) => items_resolved(items@),
        Pattern::Repeat(inner) => resolved(*inner),
        Pattern::RepeatOne(inner) => resolved(*inner),
        Pattern::Optional(inner) => resolved(*inner),
        Pattern::NotPredicate(inner) => resolved(*inner),
        Pattern::AndPredicate(inner) => resolved(*inner),
        Pattern::Capture(_, inner) => resolved(*inner),
        Pattern::Catch { inner, recovery, .. } => resolved(*inner) && resolved(*recovery),
        Pattern::Lenient(inner) => resolved(*inner),
        Pattern::InferBoundaryCatch { .. } => false,
        _ => true,
    }
}

pub open spec fn items_resolved(items: Seq<Pattern>) -> bool
    decreases items,
{
    if items.len() == 0 {
        true
    } else {
        items_resolved(items.drop_last()) && resolved(items.last())
    }
}

/// The abstract pattern holds no boundary placeholder.
pub open spec fn placeholder_free(v: PatternV) -> bool
    decreases v,
{
    match v {
        PatternV::Sequence(items) => items_free(items),
        PatternV::OrderedChoice(items) => items_free(items),
        PatternV::Repeat(inner) => placeholder_free(*inner),
        PatternV::RepeatOne(inner) => placeholder_free(*inner),
        PatternV::Optional(inner) => placeholder_free(*inner),
        PatternV::NotPredicate(inner) => placeholder_free(*inner),
        PatternV::AndPredicate(inner) => placeholder_free(*inner),
        PatternV::Capture(_, inner) => placeholder_free(*inner),
        PatternV::Catch { inner, recovery, .. } => placeholder_free(*inner) && placeholder_free(*recovery),
        PatternV::Lenient(inner) => placeholder_free(*inner),
        PatternV::InferBoundaryCatch { .. } => false,
        _ => true,
    }
}

pub open spec fn items_free(items: Seq<PatternV>) -> bool
    decreases items,
{
    if items.len() == 0 {
        true
    } else {
        items_free(items.drop_last()) && placeholder_free(items.last())
    }
}

proof fn lemma_items_resolved_all(s: Seq<Pattern>)
    ensures
        items_resolved(s) == forall|k: int| 0 <= k < s.len() ==> #[trigger] resolved(s[k]),
    decreases s.len(),
{
    if s.len() > 0 {
        lemma_items_resolved_all(s.drop_last());
        if forall|k: int| 0 <= k < s.len() ==> #[trigger] resolved(s[k]) {
            assert forall|k: int| 0 <= k < s.drop_last().len() implies #[trigger] resolved(s.drop_last()[k]) by {
                assert(s.drop_last()[k] == s[k]);
            }
            assert(resolved(s[s.len() - 1]));
        }
        if items_resolved(s) {
            assert forall|k: int| 0 <= k < s.len() implies #[trigger] resolved(s[k]) by {
                if k < s.len() - 1 {
                    assert(s.drop_last()[k] == s[k]);
                }
            }
        }
    }
}

pub proof fn lemma_items_free_all(s: Seq<PatternV>)
    ensures
        items_free(s) == forall|k: int| 0 <= k < s.len() ==> #[trigger] placeholder_free(s[k]),
    decreases s.len(),
{
    if s.len() > 0 {
        lemma_items_free_all(s.drop_last());
        if forall|k: int| 0 <= k < s.len() ==> #[trigger] placeholder_free(s[k]) {
            assert forall|k: int| 0 <= k < s.drop_last().len() implies #[trigger] placeholder_free(s.drop_last()[k]) by {
                assert(s.drop_last()[k] == s[k]);
            }
            assert(placeholder_free(s[s.len() - 1]));
        }
        if items_free(s) {
            assert forall|k: int| 0 <= k < s.len() implies #[trigger] placeholder_free(s[k]) by {
                if k < s.len() - 1 {
                    assert(s.drop_last()[k] == s[k]);
                }
            }
        }
    }
}

/// A pattern is resolved exactly when its abstract value is free of
/// placeholders.
pub proof fn lemma_resolved_view(p: Pattern)
    ensures
        resolved(p) == placeholder_free(pview(p)),
    decreases p,
{
    match p {
        Pattern::Sequence(items) | Pattern::OrderedChoice(items) => {
            lemma_items_resolved_all(items@);
            lemma_items_free_all(pviews(items@));
            lemma_pviews_index(items@);
            assert forall|k: int| 0 <= k < items@.len() implies resolved(items@[k]) == placeholder_free(
                pviews(items@)[k],
            ) by {
                vstd::std_specs::vec::axiom_vec_index_decreases(items, k);
                lemma_resolved_view(items@[k]);
            }
        },
        Pattern::Repeat(inner) => lemma_resolved_view(*inner),
        Pattern::RepeatOne(inner) => lemma_resolved_view(*inner),
        Pattern::Optional(inner) => lemma_resolved_view(*inner),
        Pattern::NotPredicate(inner) => lemma_resolved_view(*inner),
        Pattern::AndPredicate(inner) => lemma_resolved_view(*inner),
        Pattern::Capture(_, inner) => lemma_resolved_view(*inner),
        Pattern::Catch { inner, recovery, .. } => {
            lemma_resolved_view(*inner);
            lemma_resolved_view(*recovery);
        },
        Pattern::Lenient(inner) => lemma_resolved_view(*inner),
        _ => {},
    }
}

/// The pattern calls no rule.
pub open spec fn no_calls(p: Pattern) -> bool
    decreases p,
{
    match p {
        Pattern::Sequence(items) => items_no_calls(items@),
        Pattern::OrderedChoice(items) => items_no_calls(items@),
        Pattern::Repeat(inner) => no_calls(*inner),
        Pattern::RepeatOne(inner) => no_calls(*inner),
        Pattern::Optional(inner) => no_calls(*inner),
        Pattern::NotPredicate(inner) => no_calls(*inner),
        Pattern::AndPredicate(inner) => no_calls(*inner),
        Pattern::Capture(_, inner) => no_calls(*inner),
        Pattern::Catch { inner, recovery, .. } => no_calls(*inner) && no_calls(*recovery),
        Pattern::Lenient(inner) => no_calls(*inner),
        Pattern::InferBoundaryCatch { inner, .. } => no_calls(*inner),
        Pattern::NonTerminal(_) => false,
        _ => true,
    }
}

pub open spec fn items_no_calls(items: Seq<Pattern>) -> bool
    decreases items,
{
    if items.len() == 0 {
        true
    } else {
        items_no_calls(items.drop_last()) && no_calls(items.last())
    }
}

/// The instruction's jump target, if it has one, lies within `n`.
pub open spec fn target_within(i: Instruction, n: nat) -> bool {
    match i {
        Instruction::Jump(l) => l.0 <= n,
        Instruction::Choice(l) => l.0 <= n,
        Instruction::Commit(l) => l.0 <= n,
        Instruction::PartialCommit(l) => l.0 <= n,
        Instruction::BackCommit(l) => l.0 <= n,
        Instruction::Call(l) => l.0 <= n,
        Instruction::RuleEnter(_, _, l) => l.0 <= n,
        Instruction::LRTail(_, l) => l.0 <= n,
        _ => true,
    }
}

/// Every jump target of the code lies within the code (or just past it).
pub open spec fn targets_within(code: Seq<Instruction>) -> bool {
    forall|i: int| 0 <= i < code.len() ==> target_within(#[trigger] code[i], code.len())
}

/// A program whose control flow stays inside its code and ends in `End`.
pub open spec fn well_formed(code: Seq<Instruction>) -> bool {
    &&& targets_within(code)
    &&& code.len() > 0
    &&& code.last() == Instruction::End
}

/// Same operation and payload, jump target aside.
pub open spec fn same_op(a: Instruction, b: Instruction) -> bool {
    match (a, b) {
        (Instruction::Jump(_), Instruction::Jump(_)) => true,
        (Instruction::Choice(_), Instruction::Choice(_)) => true,
        (Instruction::Commit(_), Instruction::Commit(_)) => true,
        (Instruction::PartialCommit(_), Instruction::PartialCommit(_)) => true,
        (Instruction::BackCommit(_), Instruction::BackCommit(_)) => true,
        (Instruction::Call(_), Instruction::Call(_)) => true,
        (Instruction::RuleEnter(m1, k1, _), Instruction::RuleEnter(m2, k2, _)) => m1 == m2 && k1 == k2,
        (Instruction::LRTail(m1, _), Instruction::LRTail(m2, _)) => m1 == m2,
        _ => a == b,
    }
}

/// Instructions already emitted keep their operation; code only grows.
pub open spec fn code_kept(before: Seq<Instruction>, after: Seq<Instruction>) -> bool {
    &&& after.len() >= before.len()
    &&& forall|i: int| 0 <= i < before.len() ==> same_op(#[trigger] after[i], before[i])
}

proof fn lemma_code_kept_trans(a: Seq<Instruction>, b: Seq<Instruction>, c: Seq<Instruction>)
    requires
        code_kept(a, b),
        code_kept(b, c),
    ensures
        code_kept(a, c),
{
    assert forall|i: int| 0 <= i < a.len() implies same_op(#[trigger] c[i], a[i]) by {
        assert(same_op(c[i], b[i]) && same_op(b[i], a[i]));
    }
}

/// One `Byte` instruction per byte.
pub open spec fn byte_code(bytes: Seq<u8>) -> Seq<Instruction> {
    bytes.map_values(|b: u8| Instruction::Byte(b))
}

/// The compiler's capture-name, label-name and character-set tables, as
/// their texts.
pub type Tables = (Seq<Seq<char>>, Seq<Seq<char>>, Seq<Seq<(char, char)>>);

/// The code `p` compiles to when it starts at address `base` with tables
/// `t`, and the tables after it. Jump targets are absolute; a rule call
/// is a `Call` whose target the rule layout fills in later.
pub open spec fn emit_code(p: Pattern, base: int, t: Tables) -> (Seq<Instruction>, Tables)
    decreases p,
{
    match p {
        Pattern::Literal(b) => (byte_code(b@), t),
        Pattern::CharClass(set) => {
            let sets = with_ranges(t.2, set.range_seq());
            (seq![Instruction::CharSet(SetId(first_ranges(sets, set.range_seq()) as u16))], (t.0, t.1, sets))
        },
        Pattern::AnyChar => (seq![Instruction::Any], t),
        Pattern::Sequence(items) => emit_items(items@, base, t),
        Pattern::OrderedChoice(items) => if items@.len() == 0 {
            (Seq::empty(), t)
        } else {
            let end = base + items_size(items@) + 2 * (items@.len() - 1);
            let (a, t1) = emit_alts(items@.drop_last(), base, end, t);
            let (c, t2) = emit_code(items@.last(), base + a.len(), t1);
            (a + c, t2)
        },
        Pattern::Repeat(inner) => {
            let body = base + 1;
            let (c, t1) = emit_code(*inner, body, t);
            let l2 = body + c.len() + 1;
            (
                seq![Instruction::Choice(Label(l2 as u32))] + c + seq![Instruction::PartialCommit(Label(body as u32))],
                t1,
            )
        },
        Pattern::RepeatOne(inner) => {
            let (c1, t1) = emit_code(*inner, base, t);
            let body = base + c1.len() + 1;
            let (c, t2) = emit_code(*inner, body, t1);
            let l2 = body + c.len() + 1;
            (
                c1 + seq![Instruction::Choice(Label(l2 as u32))] + c + seq![
                    Instruction::PartialCommit(Label(body as u32)),
                ],
                t2,
            )
        },
        Pattern::Optional(inner) => {
            let (c, t1) = emit_code(*inner, base + 1, t);
            let l1 = base + 1 + c.len() + 1;
            (
                seq![Instruction::Choice(Label(l1 as u32))] + c + seq![Instruction::Commit(Label(l1 as u32))],
                t1,
            )
        },
        Pattern::NotPredicate(inner) => {
            let (c, t1) = emit_code(*inner, base + 1, t);
            let l1 = base + 1 + c.len() + 1;
            (seq![Instruction::Choice(Label(l1 as u32))] + c + seq![Instruction::FailTwice], t1)
        },
        Pattern::AndPredicate(inner) => {
            let (c, t1) = emit_code(*inner, base + 1, t);
            let l1 = base + 1 + c.len() + 1;
            (
                seq![Instruction::Choice(Label(l1 as u32))] + c + seq![
                    Instruction::BackCommit(Label((l1 + 1) as u32)),
                    Instruction::Fail,
                ],
                t1,
            )
        },
        Pattern::NonTerminal(_) => (seq![Instruction::Call(Label(0))], t),
        Pattern::Capture(name, inner) => {
            let caps = with_text(t.0, name@);
            let (c, t1) = emit_code(*inner, base + 1, (caps, t.1, t.2));
            (
                seq![Instruction::CaptureBegin(CaptureKind(index_of(caps, name@) as u16))] + c + seq![
                    Instruction::CaptureEnd,
                ],
                t1,
            )
        },
        Pattern::Catch { inner, label, recovery } => {
            let labels = with_text(t.1, label@);
            let (ci, t1) = emit_code(*inner, base + 2, (t.0, labels, t.2));
            let rec = base + 2 + ci.len() + 1;
            let (cr, t2) = emit_code(*recovery, rec + 1, t1);
            let done = rec + 1 + cr.len();
            (
                seq![
                    Instruction::RecoverScopeBegin(LabelId(index_of(labels, label@) as u16)),
                    Instruction::Choice(Label(rec as u32)),
                ] + ci + seq![Instruction::Commit(Label(done as u32)), Instruction::RecoverToScopedMax] + cr
                    + seq![Instruction::RecoverScopeEnd],
                t2,
            )
        },
        Pattern::Lenient(inner) => emit_code(*inner, base, t),
        Pattern::InferBoundaryCatch { .. } => (Seq::empty(), t),
    }
}

/// The code of `items` compiled one after another from `base`.
pub open spec fn emit_items(items: Seq<Pattern>, base: int, t: Tables) -> (Seq<Instruction>, Tables)
    decreases items,
{
    if items.len() == 0 {
        (Seq::empty(), t)
    } else {
        let (a, t1) = emit_items(items.drop_last(), base, t);
        let (c, t2) = emit_code(items.last(), base + a.len(), t1);
        (a + c, t2)
    }
}

/// The code of the alternatives of an ordered choice other than the
/// last, from `base`: each is `Choice` to the next alternative, its body,
/// and `Commit` to `end`.
pub open spec fn emit_alts(items: Seq<Pattern>, base: int, end: int, t: Tables) -> (Seq<Instruction>, Tables)
    decreases items,
{
    if items.len() == 0 {
        (Seq::empty(), t)
    } else {
        let (a, t1) = emit_alts(items.drop_last(), base, end, t);
        let b = base + a.len();
        let (c, t2) = emit_code(items.last(), b + 1, t1);
        (
            a + seq![Instruction::Choice(Label((b + 1 + c.len() + 1) as u32))] + c + seq![
                Instruction::Commit(Label(end as u32)),
            ],
            t2,
        )
    }
}

/// Where the `Commit`s of `emit_alts(items, base, _, t)` stand.
pub open spec fn alt_commits(items: Seq<Pattern>, base: int, t: Tables) -> Seq<int>
    decreases items,
{
    if items.len() == 0 {
        Seq::empty()
    } else {
        let (a, t1) = emit_alts(items.drop_last(), base, 0, t);
        let b = base + a.len();
        let (c, _) = emit_code(items.last(), b + 1, t1);
        alt_commits(items.drop_last(), base, t).push(b + 1 + c.len())
    }
}

/// The alternatives' code for a given end is their code with `Commit`s
/// to 0, each `Commit` retargeted to the end.
proof fn lemma_alts_end(s: Seq<Pattern>, base: int, end: int, t: Tables)
    ensures
        emit_alts(s, base, end, t).1 == emit_alts(s, base, 0, t).1,
        emit_alts(s, base, end, t).0.len() == emit_alts(s, base, 0, t).0.len(),
        alt_commits(s, base, t).len() == s.len(),
        forall|k: int|
            #![trigger alt_commits(s, base, t)[k]]
            0 <= k < s.len() ==> base <= alt_commits(s, base, t)[k] < base + emit_alts(s, base, 0, t).0.len()
                && emit_alts(s, base, 0, t).0[alt_commits(s, base, t)[k] - base] == Instruction::Commit(Label(0)),
        forall|q: int|
            0 <= q < emit_alts(s, base, 0, t).0.len() ==> #[trigger] emit_alts(s, base, end, t).0[q] == if alt_commits(
                s,
                base,
                t,
            ).contains(base + q) {
                Instruction::Commit(Label(end as u32))
            } else {
                emit_alts(s, base, 0, t).0[q]
            },
    decreases s,
{
    if s.len() > 0 {
        lemma_alts_end(s.drop_last(), base, end, t);
        let ae = emit_alts(s.drop_last(), base, end, t);
        let a0 = emit_alts(s.drop_last(), base, 0, t);
        let b = base + a0.0.len();
        let c = emit_code(s.last(), b + 1, a0.1);
        let pos = alt_commits(s, base, t);
        let pos0 = alt_commits(s.drop_last(), base, t);
        assert(pos == pos0.push(b + 1 + c.0.len()));
        let full0 = emit_alts(s, base, 0, t).0;
        let fulle = emit_alts(s, base, end, t).0;
        assert(full0 == a0.0 + seq![Instruction::Choice(Label((b + 1 + c.0.len() + 1) as u32))] + c.0 + seq![
            Instruction::Commit(Label(0)),
        ]);
        assert(fulle == ae.0 + seq![Instruction::Choice(Label((b + 1 + c.0.len() + 1) as u32))] + c.0 + seq![
            Instruction::Commit(Label(end as u32)),
        ]);
        assert forall|k: int|
            #![trigger alt_commits(s, base, t)[k]]
            0 <= k < s.len() implies base <= alt_commits(s, base, t)[k] < base + full0.len() && full0[alt_commits(
            s,
            base,
            t,
        )[k] - base] == Instruction::Commit(Label(0)) by {
            if k < s.len() - 1 {
                assert(pos[k] == pos0[k]);
                assert(full0[pos0[k] - base] == a0.0[pos0[k] - base]);
            }
        }
        assert forall|q: int| 0 <= q < full0.len() implies #[trigger] fulle[q] == if pos.contains(base + q) {
            Instruction::Commit(Label(end as u32))
        } else {
            full0[q]
        } by {
            if q < a0.0.len() {
                assert(fulle[q] == ae.0[q]);
                assert(full0[q] == a0.0[q]);
                if pos.contains(base + q) {
                    let k = choose|k: int| 0 <= k < pos.len() && pos[k] == base + q;
                    if k < pos0.len() {
                        assert(pos0[k] == base + q);
                        assert(pos0.contains(base + q));
                    }
                }
                if pos0.contains(base + q) {
                    let k = choose|k: int| 0 <= k < pos0.len() && pos0[k] == base + q;
                    assert(pos[k] == base + q);
                }
            } else {
                if pos.contains(base + q) {
                    let k = choose|k: int| 0 <= k < pos.len() && pos[k] == base + q;
                    if k < pos0.len() {
                        assert(pos0[k] == pos[k]);
                        assert(alt_commits(s.drop_last(), base, t)[k] < base + a0.0.len());
                    }
                }
                if q == full0.len() - 1 {
                    assert(pos[pos.len() - 1] == base + q);
                }
            }
        }
    }
}

/// The `Commit` positions of the alternatives increase.
proof fn lemma_alt_commits_increasing(s: Seq<Pattern>, base: int, t: Tables, k: int, j: int)
    requires
        0 <= k < j < s.len(),
    ensures
        alt_commits(s, base, t)[k] < alt_commits(s, base, t)[j],
    decreases s.len(),
{
    lemma_alts_end(s.drop_last(), base, 0, t);
    if j < s.len() - 1 {
        lemma_alt_commits_increasing(s.drop_last(), base, t, k, j);
    } else {
        assert(alt_commits(s.drop_last(), base, t)[k] < base + emit_alts(s.drop_last(), base, 0, t).0.len());
    }
}

/// What `retarget` makes of `i`.
pub open spec fn retargeted(i: Instruction, target: Label) -> Instruction {
    match i {
        Instruction::Jump(_) => Instruction::Jump(target),
        Instruction::Choice(_) => Instruction::Choice(target),
        Instruction::Commit(_) => Instruction::Commit(target),
        Instruction::PartialCommit(_) => Instruction::PartialCommit(target),
        Instruction::BackCommit(_) => Instruction::BackCommit(target),
        Instruction::Call(_) => Instruction::Call(target),
        Instruction::RuleEnter(id, kind, _) => Instruction::RuleEnter(id, kind, target),
        Instruction::LRTail(id, _) => Instruction::LRTail(id, target),
        other => other,
    }
}

struct Compiler {
    code: Vec<Instruction>,
    pending_calls: Vec<(usize, String)>,
    capture_names: Vec<String>,
    label_names: Vec<String>,
    char_sets: Vec<CharSet>,
}

proof fn lemma_targets_push(code: Seq<Instruction>, x: Instruction)
    requires
        targets_within(code),
        target_within(x, code.len() + 1),
    ensures
        targets_within(code.push(x)),
{
    assert forall|i: int| 0 <= i < code.push(x).len() implies target_within(
        #[trigger] code.push(x)[i],
        code.push(x).len(),
    ) by {
        if i < code.len() {
            assert(code.push(x)[i] == code[i]);
        }
    }
}

/// Retarget a jump instruction; other instructions are returned unchanged.
fn retarget(i: Instruction, target: Label) -> (r: Instruction)
    ensures
        same_op(r, i),
        r matches Instruction::Call(l) ==> l == target,
        r matches Instruction::RuleEnter(_, _, l) ==> l == target,
        forall|n: nat| target.0 <= n ==> target_within(r, n),
        !(i is Jump || i is Choice || i is Commit || i is PartialCommit || i is BackCommit || i is Call
            || i is RuleEnter || i is LRTail) ==> r == i,
        r == retargeted(i, target),
{
    match i {
        Instruction::Jump(_) => Instruction::Jump(target),
        Instruction::Choice(_) => Instruction::Choice(target),
        Instruction::Commit(_) => Instruction::Commit(target),
        Instruction::PartialCommit(_) => Instruction::PartialCommit(target),
        Instruction::BackCommit(_) => Instruction::BackCommit(target),
        Instruction::Call(_) => Instruction::Call(target),
        Instruction::RuleEnter(id, kind, _) => Instruction::RuleEnter(id, kind, target),
        Instruction::LRTail(id, _) => Instruction::LRTail(id, target),
        other => other,
    }
}

/// The texts of a name table.
pub open spec fn name_texts(v: Seq<String>) -> Seq<Seq<char>> {
    v.map_values(|x: String| x@)
}

/// A table with `n` added at the end unless it is already there.
pub open spec fn with_text<A>(v: Seq<A>, n: A) -> Seq<A> {
    if v.contains(n) {
        v
    } else {
        v.push(n)
    }
}

/// The range lists of a set table.
pub open spec fn set_texts(v: Seq<CharSet>) -> Seq<Seq<(char, char)>> {
    v.map_values(|x: CharSet| x.range_seq())
}

/// A set table with `r` added at the end unless it is already there.
pub open spec fn with_ranges(v: Seq<Seq<(char, char)>>, r: Seq<(char, char)>) -> Seq<Seq<(char, char)>> {
    with_text(v, r)
}

/// Position of the first range list equal to `r`, or -1.
pub open spec fn first_ranges(v: Seq<Seq<(char, char)>>, r: Seq<(char, char)>) -> int
    decreases v.len(),
{
    if v.len() == 0 {
        -1
    } else if v[0] == r {
        0
    } else {
        let k = first_ranges(v.drop_first(), r);
        if k < 0 {
            -1
        } else {
            k + 1
        }
    }
}

proof fn lemma_first_ranges(v: Seq<Seq<(char, char)>>, r: Seq<(char, char)>)
    ensures
        -1 <= first_ranges(v, r) < v.len(),
        first_ranges(v, r) == -1 <==> !v.contains(r),
        first_ranges(v, r) >= 0 ==> v[first_ranges(v, r)] == r && forall|k: int|
            0 <= k < first_ranges(v, r) ==> v[k] != r,
    decreases v.len(),
{
    if v.len() > 0 {
        lemma_first_ranges(v.drop_first(), r);
        if v[0] != r {
            assert forall|k: int| 0 < k < v.len() implies v[k] == v.drop_first()[k - 1] by {}
            if v.drop_first().contains(r) {
                let j = choose|j: int| 0 <= j < v.drop_first().len() && v.drop_first()[j] == r;
                assert(v[j + 1] == r);
            }
            if v.contains(r) {
                let j = choose|j: int| 0 <= j < v.len() && v[j] == r;
                assert(v.drop_first()[j - 1] == r);
            }
        } else {
            assert(v[0] == r);
        }
    }
}

impl Compiler {
    fn new() -> (c: Compiler)
        ensures
            c.code@.len() == 0,
            c.pending_calls@.len() == 0,
            c.capture_names@.len() == 0,
            c.label_names@.len() == 0,
            c.char_sets@.len() == 0,
    {
        Compiler {
            code: Vec::new(),
            pending_calls: Vec::new(),
            capture_names: Vec::new(),
            label_names: Vec::new(),
            char_sets: Vec::new(),
        }
    }

    /// The tables, as their texts.
    spec fn tables(&self) -> Tables {
        (name_texts(self.capture_names@), name_texts(self.label_names@), set_texts(self.char_sets@))
    }

    spec fn ok(&self) -> bool {
        &&& targets_within(self.code@)
        &&& self.code@.len() <= 0xFFFF_FFFF
        &&& forall|k: int| 0 <= k < self.pending_calls@.len() ==> (#[trigger] self.pending_calls@[k]).0
            < self.code@.len()
    }

    fn emit(&mut self, i: Instruction) -> (idx: usize)
        requires
            old(self).ok(),
            old(self).code@.len() < 0xFFFF_FFFF,
            target_within(i, old(self).code@.len() + 1),
        ensures
            final(self).ok(),
            idx == old(self).code@.len(),
            final(self).code@ == old(self).code@.push(i),
            code_kept(old(self).code@, final(self).code@),
            final(self).pending_calls@ == old(self).pending_calls@,
            final(self).char_sets@ == old(self).char_sets@,
            final(self).capture_names@ == old(self).capture_names@,
            final(self).label_names@ == old(self).label_names@,
    {
        let idx = self.code.len();
        proof {
            lemma_targets_push(self.code@, i);
        }
        self.code.push(i);
        assert forall|k: int| 0 <= k < old(self).code@.len() implies same_op(#[trigger] self.code@[k], old(self).code@[k]) by {
            assert(self.code@[k] == old(self).code@[k]);
        }
        idx
    }

    fn patch_jump(&mut self, idx: usize, target: usize)
        requires
            old(self).ok(),
            idx < old(self).code@.len(),
            target <= old(self).code@.len(),
        ensures
            final(self).ok(),
            final(self).code@.len() == old(self).code@.len(),
            final(self).pending_calls@ == old(self).pending_calls@,
            code_kept(old(self).code@, final(self).code@),
            final(self).code@[idx as int] matches Instruction::Call(l) ==> l.0 == target,
            final(self).code@ == old(self).code@.update(
                idx as int,
                retargeted(old(self).code@[idx as int], Label(target as u32)),
            ),
            final(self).char_sets@ == old(self).char_sets@,
            final(self).capture_names@ == old(self).capture_names@,
            final(self).label_names@ == old(self).label_names@,
    {
        let new = retarget(self.code[idx], Label(target as u32));
        let ghost old_code = self.code@;
        self.code.set(idx, new);
        proof {
            assert forall|i: int| 0 <= i < self.code@.len() implies target_within(
                #[trigger] self.code@[i],
                self.code@.len(),
            ) by {
                if i != idx {
                    assert(self.code@[i] == old_code[i]);
                }
            }
            assert forall|k: int| 0 <= k < old_code.len() implies same_op(#[trigger] self.code@[k], old_code[k]) by {
                if k != idx {
                    assert(self.code@[k] == old_code[k]);
                }
            }
        }
    }

    fn intern_capture(&mut self, name: &String) -> (k: CaptureKind)
        requires
            old(self).ok(),
        ensures
            final(self).ok(),
            final(self).code@ == old(self).code@,
            final(self).pending_calls@ == old(self).pending_calls@,
            final(self).label_names@ == old(self).label_names@,
            name_texts(final(self).capture_names@) == with_text(name_texts(old(self).capture_names@), name@),
            k.0 == index_of(name_texts(final(self).capture_names@), name@) as u16,
            index_of(name_texts(final(self).capture_names@), name@) >= 0,
            final(self).char_sets@ == old(self).char_sets@,
    {
        let ghost t = name_texts(self.capture_names@);
        proof {
            lemma_index_of(t, name@);
        }
        let mut i: usize = 0;
        while i < self.capture_names.len()
            invariant
                self.ok(),
                self.code@ == old(self).code@,
                self.pending_calls@ == old(self).pending_calls@,
                self.capture_names@ == old(self).capture_names@,
                t == name_texts(self.capture_names@),
                i <= self.capture_names@.len(),
                forall|j: int| 0 <= j < i ==> t[j] != name@,
            decreases self.capture_names.len() - i,
        {
            if self.capture_names[i] == *name {
                assert(t[i as int] == name@);
                assert(t.contains(name@));
                proof {
                    lemma_index_of(t, name@);
                }
                return CaptureKind(i as u16);
            }
            i += 1;
        }
        let k = CaptureKind(self.capture_names.len() as u16);
        self.capture_names.push(name.clone());
        proof {
            assert(!t.contains(name@));
            assert(name_texts(self.capture_names@) =~= t.push(name@));
            lemma_index_of(t.push(name@), name@);
            assert(t.push(name@)[t.len() as int] == name@);
        }
        k
    }

    fn intern_label(&mut self, name: &String) -> (k: LabelId)
        requires
            old(self).ok(),
        ensures
            final(self).ok(),
            final(self).code@ == old(self).code@,
            final(self).pending_calls@ == old(self).pending_calls@,
            final(self).capture_names@ == old(self).capture_names@,
            name_texts(final(self).label_names@) == with_text(name_texts(old(self).label_names@), name@),
            k.0 == index_of(name_texts(final(self).label_names@), name@) as u16,
            index_of(name_texts(final(self).label_names@), name@) >= 0,
            final(self).char_sets@ == old(self).char_sets@,
    {
        let ghost t = name_texts(self.label_names@);
        proof {
            lemma_index_of(t, name@);
        }
        let mut i: usize = 0;
        while i < self.label_names.len()
            invariant
                self.ok(),
                self.code@ == old(self).code@,
                self.pending_calls@ == old(self).pending_calls@,
                self.label_names@ == old(self).label_names@,
                t == name_texts(self.label_names@),
                i <= self.label_names@.len(),
                forall|j: int| 0 <= j < i ==> t[j] != name@,
            decreases self.label_names.len() - i,
        {
            if self.label_names[i] == *name {
                assert(t[i as int] == name@);
                assert(t.contains(name@));
                proof {
                    lemma_index_of(t, name@);
                }
                return LabelId(i as u16);
            }
            i += 1;
        }
        let k = LabelId(self.label_names.len() as u16);
        self.label_names.push(name.clone());
        proof {
            assert(!t.contains(name@));
            assert(name_texts(self.label_names@) =~= t.push(name@));
            lemma_index_of(t.push(name@), name@);
            assert(t.push(name@)[t.len() as int] == name@);
        }
        k
    }

    fn intern_set(&mut self, set: &CharSet) -> (k: SetId)
        requires
            old(self).ok(),
        ensures
            final(self).ok(),
            final(self).code@ == old(self).code@,
            final(self).pending_calls@ == old(self).pending_calls@,
            final(self).capture_names@ == old(self).capture_names@,
            final(self).label_names@ == old(self).label_names@,
            set_texts(final(self).char_sets@) == with_ranges(set_texts(old(self).char_sets@), set.range_seq()),
            k.0 == first_ranges(set_texts(final(self).char_sets@), set.range_seq()) as u16,
            first_ranges(set_texts(final(self).char_sets@), set.range_seq()) >= 0,
    {
        let ghost t = set_texts(self.char_sets@);
        proof {
            lemma_first_ranges(t, set.range_seq());
        }
        let mut i: usize = 0;
        while i < self.char_sets.len()
            invariant
                self.ok(),
                self.code@ == old(self).code@,
                self.pending_calls@ == old(self).pending_calls@,
                self.char_sets@ == old(self).char_sets@,
                t == set_texts(self.char_sets@),
                i <= self.char_sets@.len(),
                forall|j: int| 0 <= j < i ==> t[j] != set.range_seq(),
            decreases self.char_sets.len() - i,
        {
            if self.char_sets[i].same_as(set) {
                assert(t[i as int] == set.range_seq());
                assert(t.contains(set.range_seq()));
                proof {
                    lemma_first_ranges(t, set.range_seq());
                }
                return SetId(i as u16);
            }
            i += 1;
        }
        let k = SetId(self.char_sets.len() as u16);
        self.char_sets.push(set.clone());
        proof {
            assert(!t.contains(set.range_seq()));
            assert(set_texts(self.char_sets@) =~= t.push(set.range_seq()));
            lemma_first_ranges(t.push(set.range_seq()), set.range_seq());
            assert(t.push(set.range_seq())[t.len() as int] == set.range_seq());
        }
        k
    }

    /// Emit the bytecode of `p`: exactly `emit_code` of `p` at the current
    /// end of the code, with the tables updated as it says.
    fn compile_pat(&mut self, p: &Pattern)
        requires
            old(self).ok(),
            resolved(*p),
            old(self).code@.len() + compiled_size(*p) < 0xFFFF_FFFF,
        ensures
            final(self).ok(),
            final(self).code@.len() == old(self).code@.len() + compiled_size(*p),
            final(self).code@ == old(self).code@ + emit_code(*p, old(self).code@.len() as int, old(self).tables()).0,
            final(self).tables() == emit_code(*p, old(self).code@.len() as int, old(self).tables()).1,
            calls_kept(old(self).pending_calls@, final(self).pending_calls@),
            code_kept(old(self).code@, final(self).code@),
            no_calls(*p) ==> final(self).pending_calls@ == old(self).pending_calls@,
            *p matches Pattern::NonTerminal(name) ==> {
                &&& final(self).pending_calls@.len() == old(self).pending_calls@.len() + 1
                &&& final(self).pending_calls@.last().0 == old(self).code@.len()
                &&& final(self).pending_calls@.last().1@ == name@
            },
        decreases p, 1int,
    {
        let ghost c0 = self.code@;
        match p {
            Pattern::Literal(bytes) => {
                self.emit_literal(bytes);
            },
            Pattern::CharClass(set) => {
                let id = self.intern_set(set);
                self.emit(Instruction::CharSet(id));
            },
            Pattern::AnyChar => {
                self.emit(Instruction::Any);
            },
            Pattern::Sequence(items) => self.compile_sequence(p, items),
            Pattern::OrderedChoice(items) => self.compile_choice(p, items),
            Pattern::Repeat(inner) => self.compile_repeat(p, inner, false),
            Pattern::RepeatOne(inner) => self.compile_repeat(p, inner, true),
            Pattern::Optional(inner) => self.compile_guarded(p, inner),
            Pattern::NotPredicate(inner) => self.compile_guarded(p, inner),
            Pattern::AndPredicate(inner) => self.compile_guarded(p, inner),
            Pattern::NonTerminal(name) => {
                let idx = self.emit(Instruction::Call(Label(0)));
                self.pending_calls.push((idx, name.clone()));
            },
            Pattern::Capture(name, inner) => {
                let kind = self.intern_capture(name);
                self.emit(Instruction::CaptureBegin(kind));
                let ghost c1 = self.code@;
                let ghost t1 = self.tables();
                self.compile_pat(inner);
                let ghost c2 = self.code@;
                self.emit(Instruction::CaptureEnd);
                proof {
                    let ec = emit_code(**inner, c0.len() + 1int, t1);
                    assert(c2 == c1 + ec.0);
                    assert(self.code@ =~= c0 + (seq![Instruction::CaptureBegin(kind)] + ec.0 + seq![
                        Instruction::CaptureEnd,
                    ]));
                }
            },
            Pattern::Catch { inner, label, recovery } => self.compile_catch(p, inner, label, recovery),
            Pattern::Lenient(inner) => self.compile_pat(inner),
            Pattern::InferBoundaryCatch { .. } => {
                assert(self.code@ =~= c0 + Seq::<Instruction>::empty());
            },
        }
    }

    fn emit_literal(&mut self, bytes: &Vec<u8>)
        requires
            old(self).ok(),
            old(self).code@.len() + bytes@.len() < 0xFFFF_FFFF,
        ensures
            final(self).ok(),
            final(self).code@.len() == old(self).code@.len() + bytes@.len(),
            final(self).code@ == old(self).code@ + byte_code(bytes@),
            final(self).pending_calls@ == old(self).pending_calls@,
            code_kept(old(self).code@, final(self).code@),
            final(self).tables() == old(self).tables(),
    {
        let mut i: usize = 0;
        while i < bytes.len()
            invariant
                self.ok(),
                i <= bytes@.len(),
                self.code@.len() == old(self).code@.len() + i,
                self.code@ == old(self).code@ + byte_code(bytes@.take(i as int)),
                self.char_sets@ == old(self).char_sets@,
                self.capture_names@ == old(self).capture_names@,
                self.label_names@ == old(self).label_names@,
                self.pending_calls@ == old(self).pending_calls@,
                code_kept(old(self).code@, self.code@),
                old(self).code@.len() + bytes@.len() < 0xFFFF_FFFF,
            decreases bytes.len() - i,
        {
            self.emit(Instruction::Byte(bytes[i]));
            proof {
                assert(byte_code(bytes@.take(i + 1)) =~= byte_code(bytes@.take(i as int)).push(
                    Instruction::Byte(bytes@[i as int]),
                ));
            }
            i += 1;
        }
        proof {
            assert(bytes@.take(bytes@.len() as int) =~= bytes@);
        }
    }

    fn compile_sequence(&mut self, p: &Pattern, items: &Vec<Pattern>)
        requires
            *p == Pattern::Sequence(*items),
            old(self).ok(),
            items_resolved(items@),
            old(self).code@.len() + items_size(items@) < 0xFFFF_FFFF,
        ensures
            final(self).ok(),
            final(self).code@.len() == old(self).code@.len() + items_size(items@),
            final(self).code@ == old(self).code@ + emit_code(*p, old(self).code@.len() as int, old(self).tables()).0,
            final(self).tables() == emit_code(*p, old(self).code@.len() as int, old(self).tables()).1,
            calls_kept(old(self).pending_calls@, final(self).pending_calls@),
            code_kept(old(self).code@, final(self).code@),
            items_no_calls(items@) ==> final(self).pending_calls@ == old(self).pending_calls@,
        decreases p, 0int,
    {
        let ghost base = self.code@.len() as int;
        let ghost t0 = self.tables();
        let mut i: usize = 0;
        proof {
            assert(items@.take(0) =~= Seq::<Pattern>::empty());
            assert(self.code@ =~= old(self).code@ + emit_items(items@.take(0), base, t0).0);
        }
        while i < items.len()
            invariant
                *p == Pattern::Sequence(*items),
                self.ok(),
                i <= items@.len(),
                base == old(self).code@.len(),
                t0 == old(self).tables(),
                self.code@.len() == old(self).code@.len() + items_size(items@.take(i as int)),
                self.code@ == old(self).code@ + emit_items(items@.take(i as int), base, t0).0,
                self.tables() == emit_items(items@.take(i as int), base, t0).1,
                calls_kept(old(self).pending_calls@, self.pending_calls@),
                code_kept(old(self).code@, self.code@),
                items_no_calls(items@) ==> self.pending_calls@ == old(self).pending_calls@,
                old(self).code@.len() + items_size(items@) < 0xFFFF_FFFF,
                items_resolved(items@),
            decreases items.len() - i,
        {
            proof {
                lemma_items_take(items@, i as int);
                vstd::std_specs::vec::axiom_vec_index_decreases(*items, i as int);
                assert(decreases_to!(*p => (*p)->Sequence_0));
            }
            let ghost before = self.code@;
            self.compile_pat(&items[i]);
            proof {
                assert(self.code@ =~= old(self).code@ + emit_items(items@.take(i + 1), base, t0).0);
            }
            i += 1;
        }
        proof {
            assert(items@.take(items@.len() as int) == items@);
        }
    }

    fn compile_choice(&mut self, p: &Pattern, items: &Vec<Pattern>)
        requires
            *p == Pattern::OrderedChoice(*items),
            old(self).ok(),
            items_resolved(items@),
            old(self).code@.len() + compiled_size(*p) < 0xFFFF_FFFF,
        ensures
            final(self).ok(),
            final(self).code@.len() == old(self).code@.len() + compiled_size(*p),
            final(self).code@ == old(self).code@ + emit_code(*p, old(self).code@.len() as int, old(self).tables()).0,
            final(self).tables() == emit_code(*p, old(self).code@.len() as int, old(self).tables()).1,
            calls_kept(old(self).pending_calls@, final(self).pending_calls@),
            code_kept(old(self).code@, final(self).code@),
            items_no_calls(items@) ==> final(self).pending_calls@ == old(self).pending_calls@,
        decreases p, 0int,
    {
        if items.len() == 0 {
            assert(self.code@ =~= old(self).code@ + Seq::<Instruction>::empty());
            return;
        }
        let ghost base = self.code@.len() as int;
        let ghost t0 = self.tables();
        let last_idx = items.len() - 1;
        let mut commits: Vec<usize> = Vec::new();
        let mut i: usize = 0;
        proof {
            assert(items@.take(0) =~= Seq::<Pattern>::empty());
            assert(self.code@ =~= old(self).code@ + emit_alts(items@.take(0), base, 0, t0).0);
            assert(commits@.len() == alt_commits(items@.take(0), base, t0).len());
        }
        while i < last_idx
            invariant
                *p == Pattern::OrderedChoice(*items),
                self.ok(),
                i <= last_idx,
                last_idx + 1 == items@.len(),
                base == old(self).code@.len(),
                t0 == old(self).tables(),
                self.code@.len() == old(self).code@.len() + items_size(items@.take(i as int)) + 2 * i,
                self.code@ == old(self).code@ + emit_alts(items@.take(i as int), base, 0, t0).0,
                self.tables() == emit_alts(items@.take(i as int), base, 0, t0).1,
                commits@.len() == alt_commits(items@.take(i as int), base, t0).len(),
                forall|k: int|
                    0 <= k < commits@.len() ==> #[trigger] commits@[k] as int == alt_commits(
                        items@.take(i as int),
                        base,
                        t0,
                    )[k],
                calls_kept(old(self).pending_calls@, self.pending_calls@),
                code_kept(old(self).code@, self.code@),
                items_no_calls(items@) ==> self.pending_calls@ == old(self).pending_calls@,
                old(self).code@.len() + items_size(items@) + 2 * last_idx < 0xFFFF_FFFF,
                items_resolved(items@),
            decreases last_idx - i,
        {
            proof {
                lemma_items_take(items@, i as int);
                vstd::std_specs::vec::axiom_vec_index_decreases(*items, i as int);
                assert(decreases_to!(*p => (*p)->OrderedChoice_0));
            }
            let ghost c0 = self.code@;
            let choice = self.emit(Instruction::Choice(Label(0)));
            let ghost t1 = self.tables();
            self.compile_pat(&items[i]);
            let ghost c2 = self.code@;
            let commit = self.emit(Instruction::Commit(Label(0)));
            commits.push(commit);
            let after = self.code.len();
            self.patch_jump(choice, after);
            proof {
                let ec = emit_code(items@[i as int], c0.len() + 1int, t1);
                assert(c2 == c0.push(Instruction::Choice(Label(0))) + ec.0);
                assert(self.code@ =~= c0 + seq![Instruction::Choice(Label(after as u32))] + ec.0 + seq![
                    Instruction::Commit(Label(0)),
                ]);
                assert(self.code@ =~= old(self).code@ + emit_alts(items@.take(i + 1), base, 0, t0).0);
                let ac = alt_commits(items@.take(i + 1), base, t0);
                assert(ac == alt_commits(items@.take(i as int), base, t0).push((c0.len() + 1 + ec.0.len()) as int));
                assert forall|k: int| 0 <= k < commits@.len() implies #[trigger] commits@[k] as int == ac[k] by {
                    if k < commits@.len() - 1 {
                        assert(ac[k] == alt_commits(items@.take(i as int), base, t0)[k]);
                    }
                }
            }
            i += 1;
        }
        proof {
            lemma_items_take(items@, last_idx as int);
            assert(items@.take(last_idx + 1) == items@);
            assert(items@.drop_last() == items@.take(last_idx as int));
            vstd::std_specs::vec::axiom_vec_index_decreases(*items, last_idx as int);
            assert(decreases_to!(*p => (*p)->OrderedChoice_0));
        }
        let ghost a0 = emit_alts(items@.drop_last(), base, 0, t0);
        let ghost pos = alt_commits(items@.drop_last(), base, t0);
        let ghost t1 = self.tables();
        self.compile_pat(&items[last_idx]);
        let ghost cl = emit_code(items@[last_idx as int], base + a0.0.len(), t1);
        let end = self.code.len();
        proof {
            lemma_alts_end(items@.drop_last(), base, end as int, t0);
            assert(self.code@ == old(self).code@ + a0.0 + cl.0);
        }
        let mut j: usize = 0;
        while j < commits.len()
            invariant
                self.ok(),
                end == self.code@.len(),
                j <= commits@.len(),
                commits@.len() == pos.len(),
                pos == alt_commits(items@.drop_last(), base, t0),
                pos.len() == items@.drop_last().len(),
                forall|k: int| 0 <= k < commits@.len() ==> #[trigger] commits@[k] as int == pos[k],
                forall|k: int|
                    #![trigger pos[k]]
                    0 <= k < pos.len() ==> base <= pos[k] < base + a0.0.len() && a0.0[pos[k] - base]
                        == Instruction::Commit(Label(0)),
                base == old(self).code@.len(),
                self.code@.len() == old(self).code@.len() + a0.0.len() + cl.0.len(),
                self.code@.subrange(0, base) == old(self).code@,
                self.code@.subrange(base + a0.0.len(), self.code@.len() as int) == cl.0,
                forall|q: int|
                    0 <= q < a0.0.len() ==> #[trigger] self.code@[base + q] == if pos.take(j as int).contains(
                        base + q,
                    ) {
                        Instruction::Commit(Label(end as u32))
                    } else {
                        a0.0[q]
                    },
                self.tables() == emit_code(*p, base, t0).1,
                calls_kept(old(self).pending_calls@, self.pending_calls@),
                code_kept(old(self).code@, self.code@),
                items_no_calls(items@) ==> self.pending_calls@ == old(self).pending_calls@,
            decreases commits.len() - j,
        {
            let ghost before = self.code@;
            proof {
                assert(commits@[j as int] as int == pos[j as int]);
            }
            self.patch_jump(commits[j], end);
            proof {
                let at = pos[j as int];
                assert(before[at] == a0.0[at - base]) by {
                    assert(!pos.take(j as int).contains(at)) by {
                        if pos.take(j as int).contains(at) {
                            let k = choose|k: int| 0 <= k < j && #[trigger] pos.take(j as int)[k] == at;
                            assert(pos[k] == pos[j as int]);
                            lemma_alt_commits_increasing(items@.drop_last(), base, t0, k, j as int);
                        }
                    }
                    assert(before[base + (at - base)] == a0.0[at - base]);
                }
                assert forall|q: int| 0 <= q < a0.0.len() implies #[trigger] self.code@[base + q] == if pos.take(
                    j + 1,
                ).contains(base + q) {
                    Instruction::Commit(Label(end as u32))
                } else {
                    a0.0[q]
                } by {
                    if base + q == at {
                        assert(pos.take(j + 1)[j as int] == at);
                    } else {
                        assert(self.code@[base + q] == before[base + q]);
                        if pos.take(j + 1).contains(base + q) {
                            let k = choose|k: int| 0 <= k < j + 1 && #[trigger] pos.take(j + 1)[k] == base + q;
                            assert(k < j);
                            assert(pos.take(j as int)[k] == base + q);
                        }
                        if pos.take(j as int).contains(base + q) {
                            let k = choose|k: int| 0 <= k < j && #[trigger] pos.take(j as int)[k] == base + q;
                            assert(pos.take(j + 1)[k] == base + q);
                        }
                    }
                }
                assert(self.code@.subrange(0, base) =~= before.subrange(0, base));
                assert(self.code@.subrange(base + a0.0.len(), self.code@.len() as int) =~= before.subrange(
                    base + a0.0.len(),
                    before.len() as int,
                ));
            }
            j += 1;
        }
        proof {
            let ae = emit_alts(items@.drop_last(), base, end as int, t0);
            assert(pos.take(pos.len() as int) =~= pos);
            assert(end == base + compiled_size(*p));
            assert(self.code@ =~= old(self).code@ + (ae.0 + cl.0)) by {
                assert forall|q: int| 0 <= q < self.code@.len() implies self.code@[q] == (old(self).code@ + (ae.0
                    + cl.0))[q] by {
                    if q < base {
                        assert(self.code@[q] == self.code@.subrange(0, base)[q]);
                    } else if q < base + a0.0.len() {
                        assert(self.code@[base + (q - base)] == self.code@[q]);
                    } else {
                        assert(self.code@[q] == self.code@.subrange(base + a0.0.len(), self.code@.len() as int)[q
                            - base - a0.0.len()]);
                    }
                }
            }
        }
    }

    /// `p*` (Choice; body; PartialCommit body) or `p+` (body first, then `p*`).
    fn compile_repeat(&mut self, p: &Pattern, inner: &Box<Pattern>, at_least_once: bool)
        requires
            at_least_once ==> *p == Pattern::RepeatOne(*inner),
            !at_least_once ==> *p == Pattern::Repeat(*inner),
            old(self).ok(),
            resolved(**inner),
            old(self).code@.len() + compiled_size(*p) < 0xFFFF_FFFF,
        ensures
            final(self).ok(),
            final(self).code@.len() == old(self).code@.len() + compiled_size(*p),
            final(self).code@ == old(self).code@ + emit_code(*p, old(self).code@.len() as int, old(self).tables()).0,
            final(self).tables() == emit_code(*p, old(self).code@.len() as int, old(self).tables()).1,
            calls_kept(old(self).pending_calls@, final(self).pending_calls@),
            code_kept(old(self).code@, final(self).code@),
            no_calls(**inner) ==> final(self).pending_calls@ == old(self).pending_calls@,
        decreases p, 0int,
    {
        let ghost c0 = self.code@;
        if at_least_once {
            self.compile_pat(inner);
        }
        let ghost c1 = self.code@;
        let choice = self.emit(Instruction::Choice(Label(0)));
        let body = self.code.len();
        let ghost t1 = self.tables();
        self.compile_pat(inner);
        let ghost c2 = self.code@;
        self.emit(Instruction::PartialCommit(Label(body as u32)));
        let l2 = self.code.len();
        self.patch_jump(choice, l2);
        proof {
            let ec = emit_code(**inner, body as int, t1);
            assert(c2 == c1.push(Instruction::Choice(Label(0))) + ec.0);
            assert(self.code@ =~= c1 + (seq![Instruction::Choice(Label(l2 as u32))] + ec.0 + seq![
                Instruction::PartialCommit(Label(body as u32)),
            ]));
            if at_least_once {
                assert(self.code@ =~= old(self).code@ + emit_code(*p, c0.len() as int, old(self).tables()).0);
            } else {
                assert(c1 == c0);
                assert(self.code@ =~= old(self).code@ + emit_code(*p, c0.len() as int, old(self).tables()).0);
            }
        }
    }

    /// `p?`, `!p` and `&p`: a choice point around the inner pattern.
    fn compile_guarded(&mut self, p: &Pattern, inner: &Box<Pattern>)
        requires
            *p == Pattern::Optional(*inner) || *p == Pattern::NotPredicate(*inner)
                || *p == Pattern::AndPredicate(*inner),
            old(self).ok(),
            resolved(**inner),
            old(self).code@.len() + compiled_size(*p) < 0xFFFF_FFFF,
        ensures
            final(self).ok(),
            final(self).code@.len() == old(self).code@.len() + compiled_size(*p),
            final(self).code@ == old(self).code@ + emit_code(*p, old(self).code@.len() as int, old(self).tables()).0,
            final(self).tables() == emit_code(*p, old(self).code@.len() as int, old(self).tables()).1,
            calls_kept(old(self).pending_calls@, final(self).pending_calls@),
            code_kept(old(self).code@, final(self).code@),
            no_calls(**inner) ==> final(self).pending_calls@ == old(self).pending_calls@,
        decreases p, 0int,
    {
        let ghost c0 = self.code@;
        let choice = self.emit(Instruction::Choice(Label(0)));
        let ghost t1 = self.tables();
        self.compile_pat(inner);
        let ghost c2 = self.code@;
        let ghost ec = emit_code(**inner, c0.len() + 1int, t1);
        assert(c2 == c0.push(Instruction::Choice(Label(0))) + ec.0);
        match p {
            Pattern::Optional(_) => {
                let commit = self.emit(Instruction::Commit(Label(0)));
                let l1 = self.code.len();
                self.patch_jump(choice, l1);
                self.patch_jump(commit, l1);
                assert(self.code@ =~= c0 + (seq![Instruction::Choice(Label(l1 as u32))] + ec.0 + seq![
                    Instruction::Commit(Label(l1 as u32)),
                ]));
            },
            Pattern::NotPredicate(_) => {
                self.emit(Instruction::FailTwice);
                let l1 = self.code.len();
                self.patch_jump(choice, l1);
                assert(self.code@ =~= c0 + (seq![Instruction::Choice(Label(l1 as u32))] + ec.0 + seq![
                    Instruction::FailTwice,
                ]));
            },
            _ => {
                let back = self.emit(Instruction::BackCommit(Label(0)));
                let l1 = self.code.len();
                self.emit(Instruction::Fail);
                let l2 = self.code.len();
                self.patch_jump(choice, l1);
                self.patch_jump(back, l2);
                assert(self.code@ =~= c0 + (seq![Instruction::Choice(Label(l1 as u32))] + ec.0 + seq![
                    Instruction::BackCommit(Label(l2 as u32)),
                    Instruction::Fail,
                ]));
            },
        }
    }

    /// A recovery scope: on failure of `inner`, splice its deepest captures
    /// and run `recovery`.
    fn compile_catch(
        &mut self,
        p: &Pattern,
        inner: &Box<Pattern>,
        label: &String,
        recovery: &Box<Pattern>,
    )
        requires
            *p == (Pattern::Catch { inner: *inner, label: *label, recovery: *recovery }),
            old(self).ok(),
            resolved(**inner),
            resolved(**recovery),
            old(self).code@.len() + compiled_size(*p) < 0xFFFF_FFFF,
        ensures
            final(self).ok(),
            final(self).code@.len() == old(self).code@.len() + compiled_size(*p),
            final(self).code@ == old(self).code@ + emit_code(*p, old(self).code@.len() as int, old(self).tables()).0,
            final(self).tables() == emit_code(*p, old(self).code@.len() as int, old(self).tables()).1,
            calls_kept(old(self).pending_calls@, final(self).pending_calls@),
            code_kept(old(self).code@, final(self).code@),
            no_calls(*p) ==> final(self).pending_calls@ == old(self).pending_calls@,
        decreases p, 0int,
    {
        let ghost c0 = self.code@;
        let scope_label = self.intern_label(label);
        self.emit(Instruction::RecoverScopeBegin(scope_label));
        let outer_choice = self.emit(Instruction::Choice(Label(0)));
        let ghost t1 = self.tables();
        self.compile_pat(inner);
        let ghost ci = emit_code(**inner, c0.len() + 2int, t1);
        let success_commit = self.emit(Instruction::Commit(Label(0)));
        let rec = self.code.len();
        self.patch_jump(outer_choice, rec);
        self.emit(Instruction::RecoverToScopedMax);
        let ghost c3 = self.code@;
        let ghost t2 = self.tables();
        self.compile_pat(recovery);
        let ghost cr = emit_code(**recovery, rec + 1, t2);
        let done = self.code.len();
        self.patch_jump(success_commit, done);
        self.emit(Instruction::RecoverScopeEnd);
        proof {
            assert(self.code@ =~= c0 + (seq![
                Instruction::RecoverScopeBegin(scope_label),
                Instruction::Choice(Label(rec as u32)),
            ] + ci.0 + seq![Instruction::Commit(Label(done as u32)), Instruction::RecoverToScopedMax] + cr.0
                + seq![Instruction::RecoverScopeEnd]));
        }
    }
}

/// The calls recorded before stay in place; more may follow.
pub open spec fn calls_kept(before: Seq<(usize, String)>, after: Seq<(usize, String)>) -> bool {
    &&& after.len() >= before.len()
    &&& forall|k: int| 0 <= k < before.len() ==> after[k] == #[trigger] before[k]
}

proof fn lemma_items_take(items: Seq<Pattern>, i: int)
    requires
        0 <= i < items.len(),
    ensures
        items.take(i + 1).drop_last() == items.take(i),
        items.take(i + 1).last() == items[i],
        items_size(items.take(i + 1)) == items_size(items.take(i)) + compiled_size(items[i]),
        items_size(items.take(i)) + compiled_size(items[i]) <= items_size(items),
        items_resolved(items) ==> resolved(items[i]),
        items_no_calls(items) ==> no_calls(items[i]),
{
    assert(items.take(i + 1).drop_last() == items.take(i));
    lemma_items_size_prefix(items, i + 1);
    lemma_items_prop_prefix(items, i + 1);
}

proof fn lemma_items_size_prefix(items: Seq<Pattern>, j: int)
    requires
        0 <= j <= items.len(),
    ensures
        items_size(items.take(j)) <= items_size(items),
    decreases items.len(),
{
    if j < items.len() {
        assert(items.drop_last().take(j) == items.take(j));
        lemma_items_size_prefix(items.drop_last(), j);
    } else {
        assert(items.take(j) == items);
    }
}

proof fn lemma_items_prop_prefix(items: Seq<Pattern>, j: int)
    requires
        1 <= j <= items.len(),
    ensures
        items_resolved(items) ==> resolved(items[j - 1]),
        items_no_calls(items) ==> no_calls(items[j - 1]),
    decreases items.len(),
{
    if j < items.len() {
        assert(items.drop_last()[j - 1] == items[j - 1]);
        lemma_items_prop_prefix(items.drop_last(), j);
    }
}

/// Emitted size of `p`, when it is at most `budget`.
fn code_size(p: &Pattern, budget: usize) -> (r: Option<usize>)
    ensures
        match r {
            Some(n) => n == compiled_size(*p) && n <= budget,
            None => compiled_size(*p) > budget,
        },
    decreases p,
{
    match p {
        Pattern::Literal(bytes) => if bytes.len() <= budget {
            Some(bytes.len())
        } else {
            None
        },
        Pattern::CharClass(_) | Pattern::AnyChar | Pattern::NonTerminal(_) => if budget >= 1 {
            Some(1)
        } else {
            None
        },
        Pattern::Sequence(items) | Pattern::OrderedChoice(items) => {
            let mut acc: usize = 0;
            let mut i: usize = 0;
            while i < items.len()
                invariant
                    *p == Pattern::Sequence(*items) || *p == Pattern::OrderedChoice(*items),
                    i <= items@.len(),
                    acc == items_size(items@.take(i as int)),
                    acc <= budget,
                decreases items.len() - i,
            {
                proof {
                    vstd::std_specs::vec::axiom_vec_index_decreases(*items, i as int);
                    if *p == Pattern::Sequence(*items) {
                        assert(decreases_to!(*p => (*p)->Sequence_0));
                    } else {
                        assert(decreases_to!(*p => (*p)->OrderedChoice_0));
                    }
                    assert(items@.take(i + 1).drop_last() == items@.take(i as int));
                    lemma_items_size_prefix(items@, i + 1);
                }
                match code_size(&items[i], budget - acc) {
                    Some(k) => {
                        acc = acc + k;
                    },
                    None => {
                        return None;
                    },
                }
                i += 1;
            }
            assert(items@.take(items@.len() as int) == items@);
            match p {
                Pattern::Sequence(_) => Some(acc),
                _ => {
                    if items.len() == 0 {
                        Some(0)
                    } else if (budget - acc) / 2 >= items.len() - 1 {
                        Some(acc + 2 * (items.len() - 1))
                    } else {
                        None
                    }
                },
            }
        },
        Pattern::Repeat(inner) | Pattern::Optional(inner) | Pattern::NotPredicate(inner) => {
            match code_size(inner, budget) {
                Some(k) => if budget - k >= 2 {
                    Some(k + 2)
                } else {
                    None
                },
                None => None,
            }
        },
        Pattern::AndPredicate(inner) => {
            match code_size(inner, budget) {
                Some(k) => if budget - k >= 3 {
                    Some(k + 3)
                } else {
                    None
                },
                None => None,
            }
        },
        Pattern::RepeatOne(inner) => {
            match code_size(inner, budget) {
                Some(k) => if budget >= 2 && (budget - 2) / 2 >= k {
                    Some(2 * k + 2)
                } else {
                    None
                },
                None => None,
            }
        },
        Pattern::Capture(_, inner) => {
            match code_size(inner, budget) {
                Some(k) => if budget - k >= 2 {
                    Some(k + 2)
                } else {
                    None
                },
                None => None,
            }
        },
        Pattern::Catch { inner, recovery, .. } => {
            match code_size(inner, budget) {
                Some(k) => match code_size(recovery, budget - k) {
                    Some(m) => if budget - k - m >= 5 {
                        Some(k + m + 5)
                    } else {
                        None
                    },
                    None => None,
                },
                None => None,
            }
        },
        Pattern::Lenient(inner) => code_size(inner, budget),
        Pattern::InferBoundaryCatch { .. } => Some(0),
    }
}

/// Compile a single pattern that calls no rule into a runnable program.
pub fn compile_pattern(pat: &Pattern) -> (prog: Program)
    requires
        resolved(*pat),
        no_calls(*pat),
        compiled_size(*pat) + 1 < 0xFFFF_FFFF,
    ensures
        prog.code@.len() == compiled_size(*pat) + 1,
        well_formed(prog.code@),
        prog.rule_count == 0,
        prog.rule_names@.len() == 0,
        prog.rule_is_ignore@.len() == 0,
        ({
            let e = emit_code(*pat, 0, (Seq::empty(), Seq::empty(), Seq::empty()));
            &&& prog.code@ == e.0.push(Instruction::End)
            &&& name_texts(prog.capture_kinds@) == e.1.0
            &&& name_texts(prog.label_kinds@) == e.1.1
            &&& set_texts(prog.char_sets@) == e.1.2
        }),
{
    let mut c = Compiler::new();
    proof {
        assert(c.tables() =~~= (Seq::<Seq<char>>::empty(), Seq::<Seq<char>>::empty(), Seq::<Seq<(char, char)>>::empty()));
        assert(c.code@ =~= Seq::<Instruction>::empty());
    }
    c.compile_pat(pat);
    c.emit(Instruction::End);
    Program {
        code: c.code,
        capture_kinds: c.capture_names,
        rule_count: 0,
        rule_names: Vec::new(),
        label_kinds: c.label_names,
        rule_is_ignore: Vec::new(),
        char_sets: c.char_sets,
    }
}

/// Some rule body calls `n`, and no rule is called `n`.
pub open spec fn undefined_ref(rules: Seq<(String, Pattern)>, n: Seq<char>) -> bool {
    &&& exists|i: int| 0 <= i < rules.len() && #[trigger] refs(pview(rules[i].1)).contains(n)
    &&& index_of(names_of_rules(rules), n) == -1
}

/// Some rule body calls a rule that no rule defines.
pub open spec fn has_undefined_ref(rules: Seq<(String, Pattern)>) -> bool {
    exists|i: int, n: Seq<char>|
        0 <= i < rules.len() && #[trigger] refs(pview(rules[i].1)).contains(n) && index_of(
            names_of_rules(rules),
            n,
        ) == -1
}

/// The first rule call in `rules` that names no rule, if any.
fn check_refs(rules: &Vec<(String, Pattern)>) -> (r: Option<String>)
    ensures
        match r {
            Some(n) => undefined_ref(rules@, n@),
            None => !has_undefined_ref(rules@),
        },
{
    let mut i: usize = 0;
    while i < rules.len()
        invariant
            i <= rules@.len(),
            forall|a: int, n: Seq<char>|
                0 <= a < i && #[trigger] refs(pview(rules@[a].1)).contains(n) ==> index_of(
                    names_of_rules(rules@),
                    n,
                ) != -1,
        decreases rules.len() - i,
    {
        let mut calls: Vec<String> = Vec::new();
        collect_non_terminal_refs(&rules[i].1, &mut calls);
        assert(name_set(Seq::<String>::empty()) =~= Set::<Seq<char>>::empty());
        let mut j: usize = 0;
        while j < calls.len()
            invariant
                i < rules@.len(),
                j <= calls@.len(),
                name_set(calls@) == refs(pview(rules@[i as int].1)),
                forall|k: int| 0 <= k < j ==> index_of(names_of_rules(rules@), #[trigger] calls@[k]@) != -1,
            decreases calls.len() - j,
        {
            match find_rule(rules, &calls[j]) {
                None => {
                    assert(name_set(calls@).contains(calls@[j as int]@));
                    assert(refs(pview(rules@[i as int].1)).contains(calls@[j as int]@));
                    let u = calls[j].clone();
                    assert(u@ == calls@[j as int]@);
                    assert(index_of(names_of_rules(rules@), u@) == -1);
                    assert(undefined_ref(rules@, u@));
                    return Some(u);
                },
                Some(_) => {},
            }
            j += 1;
        }
        proof {
            assert forall|n: Seq<char>| #[trigger] refs(pview(rules@[i as int].1)).contains(n) implies index_of(
                names_of_rules(rules@),
                n,
            ) != -1 by {
                assert(name_set(calls@).contains(n));
                let k = choose|k: int| 0 <= k < calls@.len() && calls@[k]@ == n;
                assert(index_of(names_of_rules(rules@), calls@[k]@) != -1);
            }
        }
        i += 1;
    }
    None
}

/// Instruction `a` enters rule `j` of the program, left-recursively when `lr`.
pub open spec fn enters(code: Seq<Instruction>, a: int, j: int, lr: bool) -> bool {
    code[a] matches Instruction::RuleEnter(m, kind, _) && m.0 == j && (kind == RuleKind::Lr <==> lr)
}

/// The code enters rule `j` somewhere.
pub open spec fn has_enter(code: Seq<Instruction>, j: int, lr: bool) -> bool {
    exists|a: int| 0 <= a < code.len() && #[trigger] enters(code, a, j, lr)
}

proof fn lemma_has_enter_kept(before: Seq<Instruction>, after: Seq<Instruction>, j: int, lr: bool)
    requires
        code_kept(before, after),
        has_enter(before, j, lr),
    ensures
        has_enter(after, j, lr),
{
    let a = choose|a: int| 0 <= a < before.len() && #[trigger] enters(before, a, j, lr);
    assert(same_op(after[a], before[a]));
    assert(enters(after, a, j, lr));
}

/// The program's rule tables and entry points follow `ord`: rule `k` of the
/// program is rule `ord[k]` of the grammar.
pub open spec fn rules_laid_out(prog: Program, rules: Seq<(String, Pattern)>, ord: Seq<int>) -> bool {
    let names = names_of_rules(rules);
    let bodies = bodies_of_rules(rules);
    &&& prog.rule_count == rules.len()
    &&& prog.rule_names@.len() == rules.len()
    &&& prog.rule_is_ignore@.len() == rules.len()
    &&& forall|k: int| 0 <= k < rules.len() ==> #[trigger] prog.rule_names@[k]@ == names[ord[k]]
    &&& forall|k: int| 0 <= k < rules.len() ==> #[trigger] prog.rule_is_ignore@[k] == ignore_bit(names, bodies, ord[k])
    &&& forall|k: int|
        0 <= k < rules.len() ==> #[trigger] has_enter(prog.code@, k, left_recursive(names, bodies, ord[k]))
}

/// Compile named rules, `start` first, into a runnable program.
///
/// Layout: `Call start; End;` then each rule as
/// `RuleEnter; body; MemoClose | LRTail; Return`.
pub fn compile_rules(rules: &Vec<(String, Pattern)>, start: &String) -> (r: Result<Program, CompileError>)
    requires
        forall|i: int| 0 <= i < rules@.len() ==> resolved(#[trigger] rules@[i].1),
    ensures
        index_of(names_of_rules(rules@), start@) == -1 <==> r matches Err(CompileError::UnknownStartRule(_)),
        r matches Err(CompileError::UnknownStartRule(s)) ==> s@ == start@,
        index_of(names_of_rules(rules@), start@) != -1 && has_undefined_ref(rules@)
            <==> r matches Err(CompileError::UndefinedRule(_)),
        r matches Err(CompileError::UndefinedRule(u)) ==> undefined_ref(rules@, u@),
        r is Err ==> r matches Err(CompileError::UnknownStartRule(_)) || r matches Err(
            CompileError::UndefinedRule(_),
        ) || r matches Err(CompileError::ProgramTooLarge),
        r matches Ok(prog) ==> {
            &&& targets_within(prog.code@)
            &&& prog.code@.len() >= 2
            &&& prog.code@[0] matches Instruction::Call(_)
            &&& prog.code@[1] == Instruction::End
            &&& exists|ord: Seq<int>|
                start_then_sorted(names_of_rules(rules@), ord, index_of(names_of_rules(rules@), start@))
                    && rules_laid_out(prog, rules@, ord)
        },
{
    let ghost names = names_of_rules(rules@);
    let ghost bodies = bodies_of_rules(rules@);
    proof {
        lemma_index_of(names, start@);
    }
    let start_idx = match find_rule(rules, start) {
        Some(i) => i,
        None => {
            return Err(CompileError::UnknownStartRule(start.clone()));
        },
    };
    match check_refs(rules) {
        Some(u) => {
            assert(has_undefined_ref(rules@));
            return Err(CompileError::UndefinedRule(u));
        },
        None => {},
    }
    assert(!has_undefined_ref(rules@));
    let lr = analyze_left_recursion(rules);
    let ignore = compute_ignore_rules(rules);
    let n = rules.len();
    let mut name_list: Vec<String> = Vec::new();
    let mut t: usize = 0;
    while t < n
        invariant
            n == rules@.len(),
            names == names_of_rules(rules@),
            t <= n,
            name_list@.len() == t,
            forall|k: int| 0 <= k < t ==> #[trigger] name_list@[k]@ == names[k],
        decreases n - t,
    {
        name_list.push(rules[t].0.clone());
        t += 1;
    }
    assert(name_list@.map_values(|s: String| s@) =~= names);
    let ord = compile_order(&name_list, start_idx);
    let ghost ordv = ord@.map_values(|k: usize| k as int);
    let mut c = Compiler::new();
    c.emit(Instruction::Call(Label(0)));
    c.emit(Instruction::End);
    let mut addrs: Vec<usize> = Vec::new();
    let mut z: usize = 0;
    while z < n
        invariant
            z <= n,
            addrs@.len() == z,
            forall|k: int| 0 <= k < z ==> addrs@[k] == 0,
        decreases n - z,
    {
        addrs.push(0);
        z += 1;
    }
    let mut rule_names: Vec<String> = Vec::new();
    let mut rule_is_ignore: Vec<bool> = Vec::new();
    let mut k: usize = 0;
    while k < n
        invariant
            names == names_of_rules(rules@),
            bodies == bodies_of_rules(rules@),
            n == rules@.len(),
            forall|i: int| 0 <= i < rules@.len() ==> resolved(#[trigger] rules@[i].1),
            !has_undefined_ref(rules@),
            index_of(names, start@) == start_idx as int,
            start_then_sorted(names, ordv, start_idx as int),
            c.code@.len() >= 2 + 3 * k,
            ordv == ord@.map_values(|x: usize| x as int),
            ord@.len() == n,
            lr@.len() == n,
            forall|i: int| 0 <= i < n ==> (lr@[i] <==> left_recursive(names, bodies, i)),
            ignore@.len() == n,
            forall|i: int| 0 <= i < n ==> (ignore@[i] <==> ignore_bit(names, bodies, i)),
            c.ok(),
            c.code@.len() >= 2,
            c.code@[0] matches Instruction::Call(_),
            c.code@[1] == Instruction::End,
            addrs@.len() == n,
            forall|i: int| 0 <= i < n ==> #[trigger] addrs@[i] <= c.code@.len(),
            k <= n,
            rule_names@.len() == k,
            rule_is_ignore@.len() == k,
            forall|j: int| 0 <= j < k ==> #[trigger] rule_names@[j]@ == names[ordv[j]],
            forall|j: int| 0 <= j < k ==> #[trigger] rule_is_ignore@[j] == ignore_bit(names, bodies, ordv[j]),
            forall|j: int| 0 <= j < k ==> #[trigger] has_enter(c.code@, j, left_recursive(names, bodies, ordv[j])),
        decreases n - k,
    {
        let idx = ord[k];
        assert(ordv[k as int] == idx as int);
        let here = c.code.len();
        if here >= 0xFFFF_FFF0 {
            return Err(CompileError::ProgramTooLarge);
        }
        let size = match code_size(&rules[idx].1, 0xFFFF_FFF0 - here) {
            None => {
                return Err(CompileError::ProgramTooLarge);
            },
            Some(z) => z,
        };
        assert(size == compiled_size(rules@[idx as int].1));
        addrs.set(idx, here);
        let memo_id = MemoId(k as u32);
        rule_names.push(rules[idx].0.clone());
        rule_is_ignore.push(ignore[idx]);
        let kind = if lr[idx] {
            RuleKind::Lr
        } else {
            RuleKind::Memo
        };
        let ghost code0 = c.code@;
        let enter = c.emit(Instruction::RuleEnter(memo_id, kind, Label(0)));
        let ghost code1 = c.code@;
        let body_start = c.code.len();
        c.compile_pat(&rules[idx].1);
        let ghost code2 = c.code@;
        if lr[idx] {
            c.emit(Instruction::LRTail(memo_id, Label(body_start as u32)));
        } else {
            c.emit(Instruction::MemoClose(memo_id));
        }
        let ghost code3 = c.code@;
        let return_addr = c.code.len();
        c.emit(Instruction::Return);
        let ghost code4 = c.code@;
        c.patch_jump(enter, return_addr);
        proof {
            lemma_code_kept_trans(code0, code1, code2);
            lemma_code_kept_trans(code0, code2, code3);
            lemma_code_kept_trans(code0, code3, code4);
            lemma_code_kept_trans(code0, code4, c.code@);
            lemma_code_kept_trans(code1, code2, code3);
            lemma_code_kept_trans(code1, code3, code4);
            lemma_code_kept_trans(code1, code4, c.code@);
            assert(code1[enter as int] == Instruction::RuleEnter(memo_id, kind, Label(0)));
            assert(same_op(c.code@[enter as int], code1[enter as int]));
            assert(memo_id.0 == k);
            assert(enters(c.code@, enter as int, k as int, left_recursive(names, bodies, ordv[k as int])));
            assert forall|j: int| 0 <= j < k + 1 implies #[trigger] has_enter(
                c.code@,
                j,
                left_recursive(names, bodies, ordv[j]),
            ) by {
                if j < k {
                    lemma_has_enter_kept(code0, c.code@, j, left_recursive(names, bodies, ordv[j]));
                }
            }
        }
        k += 1;
    }
    let start_addr = addrs[start_idx];
    let ghost code_before = c.code@;
    c.patch_jump(0, start_addr);
    proof {
        assert forall|j: int| 0 <= j < n implies #[trigger] has_enter(
            c.code@,
            j,
            left_recursive(names, bodies, ordv[j]),
        ) by {
            lemma_has_enter_kept(code_before, c.code@, j, left_recursive(names, bodies, ordv[j]));
        }
    }
    let mut p: usize = 0;
    while p < c.pending_calls.len()
        invariant
            c.ok(),
            c.code@.len() >= 2,
            c.code@[0] matches Instruction::Call(_),
            c.code@[1] == Instruction::End,
            addrs@.len() == n,
            n == rules@.len(),
            names == names_of_rules(rules@),
            forall|i: int| 0 <= i < n ==> #[trigger] addrs@[i] <= c.code@.len(),
            forall|j: int| 0 <= j < n ==> #[trigger] has_enter(c.code@, j, left_recursive(names, bodies, ordv[j])),
        decreases c.pending_calls.len() - p,
    {
        let ghost code0 = c.code@;
        proof {
            lemma_index_of(names, c.pending_calls@[p as int].1@);
        }
        let target = match find_rule(rules, &c.pending_calls[p].1) {
            Some(j) => addrs[j],
            None => 0,
        };
        let at = c.pending_calls[p].0;
        c.patch_jump(at, target);
        proof {
            assert forall|j: int| 0 <= j < n implies #[trigger] has_enter(
                c.code@,
                j,
                left_recursive(names, bodies, ordv[j]),
            ) by {
                lemma_has_enter_kept(code0, c.code@, j, left_recursive(names, bodies, ordv[j]));
            }
        }
        p += 1;
    }
    let prog = Program {
        code: c.code,
        capture_kinds: c.capture_names,
        rule_count: n,
        rule_names,
        label_kinds: c.label_names,
        rule_is_ignore,
        char_sets: c.char_sets,
    };
    assert(rules_laid_out(prog, rules@, ordv));
    Ok(prog)
}

} // verus!
