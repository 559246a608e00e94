//! The partial-match-leniency lint.
//!
//! A rule whose body ends in an optional part (`'x' ('y')?`) can succeed
//! on a prefix of what it was meant to match and leave the optional's
//! bytes behind. That is harmless where a later step rejects those bytes
//! (a lookahead `&B`, an end-of-input check `!.`, or a consumer whose
//! FIRST cannot start with them), and a bug where nothing does. The lint
//! walks outward from each call of such a rule, through the sequences it
//! stands in and then through the call sites of the enclosing rule, and
//! reports the calls from which no such validator is ever reached.
use vstd::prelude::*;

use super::analysis::{
    LintFinding, LintKind, all_nullable, bodies_of_rules, compute_nullable, find_rule, index_of,
    lemma_index_of, names_of_rules, pattern_nullable, pnullable, refs, rule_nullable, seq_refs,
};
use super::follow::{
    FollowElement, FollowSet, FollowV, any_class, first_of, fview, fviews, pattern_first,
};
use super::graph::count_false;
use super::order::chars_less;
use super::order::lemma_chars_less_total;
use super::order::lemma_chars_less_trans;
use super::order::name_less;
use super::parser::{Grammar, root_name, root_rule_name};
use super::pattern::{Pattern, PatternV, lemma_pviews_index, pattern_size, pview, pviews, seq_size};

verus! {

/// `p` is an optional, seen through captures and catches.
pub open spec fn optional_like(p: PatternV) -> bool
    decreases p,
{
    match p {
        PatternV::Optional(_) => true,
        PatternV::Capture(_, inner) => optional_like(*inner),
        PatternV::Catch { inner, .. } => optional_like(*inner),
        _ => false,
    }
}

/// What the optional parts at the tail of a pattern can match first: an
/// optional's FIRST, or, in a sequence, that of each optional among the
/// items after the last one that cannot match empty. A `Lenient` body
/// opts out.
pub open spec fn trailing_first_of(p: PatternV, names: Seq<Seq<char>>, nl: Seq<bool>) -> Set<FollowV>
    decreases p,
{
    match p {
        PatternV::Optional(inner) => first_of(*inner, names, nl),
        PatternV::Sequence(items) => seq_trailing(items, names, nl),
        PatternV::Capture(_, inner) => trailing_first_of(*inner, names, nl),
        PatternV::Catch { inner, .. } => trailing_first_of(*inner, names, nl),
        _ => Set::empty(),
    }
}

/// The trailing FIRST of a sequence's items.
pub open spec fn seq_trailing(items: Seq<PatternV>, names: Seq<Seq<char>>, nl: Seq<bool>) -> Set<FollowV>
    decreases items.len(),
{
    if items.len() == 0 || !pnullable(items.last(), names, nl) {
        Set::empty()
    } else {
        seq_trailing(items.drop_last(), names, nl).union(
            if optional_like(items.last()) {
                first_of(items.last(), names, nl)
            } else {
                Set::empty()
            },
        )
    }
}

fn is_trailing_optional_like(p: &Pattern) -> (b: bool)
    ensures
        b == optional_like(p@),
    decreases p,
{
    match p {
        Pattern::Optional(_) => true,
        Pattern::Capture(_, inner) => is_trailing_optional_like(inner),
        Pattern::Catch { inner, .. } => is_trailing_optional_like(inner),
        _ => false,
    }
}

/// The trailing FIRST of a pattern.
pub fn trailing_first(p: &Pattern, rules: &Vec<(String, Pattern)>, nl: &Vec<bool>) -> (out: FollowSet)
    requires
        nl@.len() == rules@.len(),
    ensures
        out.members() == trailing_first_of(p@, names_of_rules(rules@), nl@),
    decreases p,
{
    let ghost names = names_of_rules(rules@);
    match p {
        Pattern::Optional(inner) => pattern_first(inner, rules, nl),
        Pattern::Capture(_, inner) => trailing_first(inner, rules, nl),
        Pattern::Catch { inner, .. } => trailing_first(inner, rules, nl),
        Pattern::Sequence(items) => {
            let ghost vs = pviews(items@);
            proof {
                lemma_pviews_index(items@);
            }
            let mut out = FollowSet::new();
            let mut i = items.len();
            proof {
                assert(vs.take(vs.len() as int) =~= vs);
                assert(out.members().union(seq_trailing(vs.take(i as int), names, nl@)) =~= seq_trailing(
                    vs,
                    names,
                    nl@,
                ));
            }
            while i > 0
                invariant
                    *p == Pattern::Sequence(*items),
                    vs == pviews(items@),
                    vs.len() == items@.len(),
                    forall|k: int| 0 <= k < items@.len() ==> #[trigger] vs[k] == pview(items@[k]),
                    names == names_of_rules(rules@),
                    nl@.len() == rules@.len(),
                    i <= items@.len(),
                    out.members().union(seq_trailing(vs.take(i as int), names, nl@)) == seq_trailing(
                        vs,
                        names,
                        nl@,
                    ),
                decreases i,
            {
                let ghost t = vs.take(i as int);
                proof {
                    assert(t.drop_last() =~= vs.take(i - 1));
                    assert(t.last() == vs[i - 1]);
                }
                if !pattern_nullable(&items[i - 1], rules, nl) {
                    proof {
                        assert(seq_trailing(t, names, nl@) == Set::<FollowV>::empty());
                        assert(out.members().union(Set::empty()) =~= out.members());
                        assert(out.members() == seq_trailing(vs, names, nl@));
                        assert(p@ == PatternV::Sequence(vs));
                    }
                    return out;
                }
                if is_trailing_optional_like(&items[i - 1]) {
                    let f = pattern_first(&items[i - 1], rules, nl);
                    let ghost before = out.members();
                    out.extend_from(&f);
                    proof {
                        assert(out.members().union(seq_trailing(vs.take(i - 1), names, nl@)) =~= before.union(
                            seq_trailing(t, names, nl@),
                        ));
                    }
                } else {
                    proof {
                        assert(out.members().union(seq_trailing(vs.take(i - 1), names, nl@)) =~= out.members().union(
                            seq_trailing(t, names, nl@),
                        ));
                    }
                }
                i -= 1;
            }
            proof {
                assert(out.members().union(seq_trailing(vs.take(0), names, nl@)) =~= out.members());
            }
            out
        },
        _ => FollowSet::new(),
    }
}

/// `e` is matched by `set`: the set holds it, or holds the class of
/// every character.
pub open spec fn subsumed(e: FollowV, set: Set<FollowV>) -> bool {
    set.contains(FollowV::CharClass(any_class())) || set.contains(e)
}

fn element_subsumed_by(e: &FollowElement, set: &FollowSet) -> (b: bool)
    ensures
        b == subsumed(fview(*e), set.members()),
{
    let any = FollowElement::CharClass(crate::pegvm::CharSet::any());
    set.contains(&any) || set.contains(e)
}

/// What one frame of following siblings does to leftover bytes.
#[derive(Debug, Clone, Copy, PartialEq, Eq, Structural)]
pub enum FrameOutcome {
    /// A consumer rejects them.
    Validated,
    /// A lookahead anchors the boundary.
    Anchored,
    /// Nothing in the frame stops them.
    PassedThrough,
}

/// How siblings `items` treat bytes that `t` could match: the first
/// lookahead anchors; a `!p` whose FIRST covers all of `t` validates; the
/// first item that cannot match empty validates when its FIRST is
/// disjoint from `t` and otherwise lets them through; empty-matching
/// items are walked past.
pub open spec fn frame_outcome(items: Seq<PatternV>, t: Set<FollowV>, names: Seq<Seq<char>>, nl: Seq<bool>) -> FrameOutcome
    decreases items.len(),
{
    if items.len() == 0 {
        FrameOutcome::PassedThrough
    } else {
        let item = items[0];
        match item {
            PatternV::AndPredicate(_) => FrameOutcome::Anchored,
            PatternV::NotPredicate(inner) => if forall|e: FollowV|
                t.contains(e) ==> subsumed(e, first_of(*inner, names, nl)) {
                FrameOutcome::Validated
            } else {
                frame_outcome(items.drop_first(), t, names, nl)
            },
            _ => if !pnullable(item, names, nl) {
                if first_of(item, names, nl).disjoint(t) {
                    FrameOutcome::Validated
                } else {
                    FrameOutcome::PassedThrough
                }
            } else {
                frame_outcome(items.drop_first(), t, names, nl)
            },
        }
    }
}

/// Every element of `t` is matched by `set`.
fn all_subsumed(t: &FollowSet, set: &FollowSet) -> (b: bool)
    ensures
        b == forall|e: FollowV| t.members().contains(e) ==> subsumed(e, set.members()),
{
    let elems = t.elements();
    let mut i: usize = 0;
    while i < elems.len()
        invariant
            i <= elems@.len(),
            fviews(elems@) == t.elems(),
            forall|k: int| 0 <= k < i ==> subsumed(#[trigger] fviews(elems@)[k], set.members()),
        decreases elems.len() - i,
    {
        if !element_subsumed_by(&elems[i], set) {
            proof {
                assert(t.members().contains(fviews(elems@)[i as int]));
            }
            return false;
        }
        i += 1;
    }
    proof {
        assert forall|e: FollowV| t.members().contains(e) implies subsumed(e, set.members()) by {
            let k = choose|k: int| 0 <= k < t.elems().len() && t.elems()[k] == e;
        }
    }
    true
}

/// No element of `a` is in `b`.
fn disjoint_sets(a: &FollowSet, b: &FollowSet) -> (r: bool)
    ensures
        r == a.members().disjoint(b.members()),
{
    let elems = a.elements();
    let mut i: usize = 0;
    while i < elems.len()
        invariant
            i <= elems@.len(),
            fviews(elems@) == a.elems(),
            forall|k: int| 0 <= k < i ==> !b.members().contains(#[trigger] fviews(elems@)[k]),
        decreases elems.len() - i,
    {
        if b.contains(&elems[i]) {
            proof {
                assert(a.members().contains(fviews(elems@)[i as int]));
            }
            return false;
        }
        i += 1;
    }
    proof {
        assert forall|e: FollowV| a.members().contains(e) implies !b.members().contains(e) by {
            let k = choose|k: int| 0 <= k < a.elems().len() && a.elems()[k] == e;
        }
    }
    true
}

/// Scan the siblings `items[start..]` for a validator of `t`.
fn scan_frame_for_validator(
    items: &Vec<Pattern>,
    start: usize,
    t: &FollowSet,
    rules: &Vec<(String, Pattern)>,
    nl: &Vec<bool>,
) -> (o: FrameOutcome)
    requires
        start <= items@.len(),
        nl@.len() == rules@.len(),
    ensures
        o == frame_outcome(
            pviews(items@).subrange(start as int, items@.len() as int),
            t.members(),
            names_of_rules(rules@),
            nl@,
        ),
{
    let ghost names = names_of_rules(rules@);
    let ghost vs = pviews(items@);
    proof {
        lemma_pviews_index(items@);
    }
    let mut k = start;
    while k < items.len()
        invariant
            vs == pviews(items@),
            vs.len() == items@.len(),
            forall|m: int| 0 <= m < items@.len() ==> #[trigger] vs[m] == pview(items@[m]),
            names == names_of_rules(rules@),
            nl@.len() == rules@.len(),
            start <= k <= items@.len(),
            frame_outcome(vs.subrange(start as int, vs.len() as int), t.members(), names, nl@)
                == frame_outcome(vs.subrange(k as int, vs.len() as int), t.members(), names, nl@),
        decreases items.len() - k,
    {
        let ghost rest = vs.subrange(k as int, vs.len() as int);
        proof {
            assert(rest[0] == vs[k as int]);
            assert(rest.drop_first() =~= vs.subrange(k + 1, vs.len() as int));
        }
        match &items[k] {
            Pattern::AndPredicate(_) => {
                return FrameOutcome::Anchored;
            },
            Pattern::NotPredicate(inner) => {
                let f = pattern_first(inner, rules, nl);
                if all_subsumed(t, &f) {
                    return FrameOutcome::Validated;
                }
            },
            _ => {
                if !pattern_nullable(&items[k], rules, nl) {
                    let f = pattern_first(&items[k], rules, nl);
                    if disjoint_sets(&f, t) {
                        return FrameOutcome::Validated;
                    }
                    return FrameOutcome::PassedThrough;
                }
            },
        }
        k += 1;
    }
    FrameOutcome::PassedThrough
}

/// What the lint reads: the rules, their nullability and trailing FIRST.
pub struct LintCtx<'a> {
    pub rules: &'a Vec<(String, Pattern)>,
    pub nl: Vec<bool>,
    pub trailing: Vec<FollowSet>,
    /// Rule positions in name order.
    pub order: Vec<usize>,
}

impl<'a> LintCtx<'a> {
    /// The lengths agree and the order lists rule positions.
    pub open spec fn wf(&self) -> bool {
        &&& self.nl@.len() == self.rules@.len()
        &&& self.trailing@.len() == self.rules@.len()
        &&& forall|k: int| 0 <= k < self.order@.len() ==> #[trigger] self.order@[k] < self.rules@.len()
    }
}

/// A frame: the siblings from `start` on in a sequence's items.
pub type ContFrame<'a> = (&'a Vec<Pattern>, usize);

/// The frames are well formed.
pub open spec fn frames_ok(conts: Seq<ContFrame>) -> bool {
    forall|k: int| 0 <= k < conts.len() ==> (#[trigger] conts[k]).1 <= conts[k].0@.len()
}

/// Whether bytes `t` could match reach a position no validator guards,
/// walking out through the frames and then through the call sites of
/// `caller`. A catch on the way absorbs them unless a validator that is
/// not inside it is found. `visited` holds the callers in progress; it
/// is the same on return.
fn leniency_reaches_unguarded<'a>(
    t: &FollowSet,
    caller: usize,
    conts: &Vec<ContFrame<'a>>,
    inside_catch: bool,
    ctx: &LintCtx<'a>,
    visited: &mut Vec<bool>,
) -> (r: bool)
    requires
        ctx.wf(),
        caller < ctx.rules@.len(),
        old(visited)@.len() == ctx.rules@.len(),
        frames_ok(conts@),
    ensures
        final(visited)@ == old(visited)@,
    decreases count_false(old(visited)@), 0int, 0int,
{
    let mut f = conts.len();
    while f > 0
        invariant
            f <= conts@.len(),
            frames_ok(conts@),
            ctx.wf(),
            visited@ == old(visited)@,
        decreases f,
    {
        let (items, start) = conts[f - 1];
        match scan_frame_for_validator(items, start, t, ctx.rules, &ctx.nl) {
            FrameOutcome::Validated => {
                if !inside_catch {
                    return false;
                }
            },
            FrameOutcome::Anchored => {
                return false;
            },
            FrameOutcome::PassedThrough => {},
        }
        f -= 1;
    }
    if visited[caller] {
        return inside_catch;
    }
    let root = root_rule_name();
    if ctx.rules[caller].0 == root && !t.contains(&FollowElement::Eof) {
        return inside_catch;
    }
    let ghost before = visited@;
    visited.set(caller, true);
    proof {
        lemma_count_false_set(before, caller as int);
    }
    let mut found_call_site = false;
    let mut k: usize = 0;
    while k < ctx.order.len()
        invariant
            ctx.wf(),
            caller < ctx.rules@.len(),
            before.len() == ctx.rules@.len(),
            before == old(visited)@,
            !before[caller as int],
            visited@ == before.update(caller as int, true),
            count_false(visited@) < count_false(before),
            k <= ctx.order@.len(),
        decreases ctx.order.len() - k,
    {
        let other = ctx.order[k];
        let mut frames: Vec<ContFrame<'a>> = Vec::new();
        let mut local = false;
        if find_callsite_unguarded(
            &ctx.rules[other].1,
            caller,
            t,
            other,
            &mut frames,
            inside_catch,
            ctx,
            visited,
            &mut local,
        ) {
            visited.set(caller, false);
            proof {
                assert(visited@ =~= before);
            }
            return true;
        }
        found_call_site = found_call_site || local;
        k += 1;
    }
    visited.set(caller, false);
    proof {
        assert(visited@ =~= before);
    }
    if !found_call_site {
        return inside_catch;
    }
    false
}

/// An item is no larger than the list it stands in.
proof fn lemma_item_size(items: Seq<Pattern>, i: int)
    requires
        0 <= i < items.len(),
    ensures
        pattern_size(items[i]) <= seq_size(items),
    decreases items.len(),
{
    if i > 0 {
        lemma_item_size(items.drop_first(), i - 1);
        assert(items.drop_first()[i - 1] == items[i]);
    }
}

/// Setting an unset entry lowers the count of unset entries.
proof fn lemma_count_false_set(s: Seq<bool>, i: int)
    requires
        0 <= i < s.len(),
        !s[i],
    ensures
        count_false(s.update(i, true)) < count_false(s),
    decreases s.len(),
{
    let u = s.update(i, true);
    if i == s.len() - 1 {
        assert(u.drop_last() =~= s.drop_last());
    } else {
        assert(u.drop_last() =~= s.drop_last().update(i, true));
        lemma_count_false_set(s.drop_last(), i);
    }
}

/// Search `p`, inside the body of rule `in_rule`, for calls of rule
/// `target_caller`; from each, check whether `t` reaches unguarded.
/// `found` records that a call was seen.
fn find_callsite_unguarded<'a>(
    p: &'a Pattern,
    target_caller: usize,
    t: &FollowSet,
    in_rule: usize,
    conts: &mut Vec<ContFrame<'a>>,
    inside_catch: bool,
    ctx: &LintCtx<'a>,
    visited: &mut Vec<bool>,
    found: &mut bool,
) -> (r: bool)
    requires
        ctx.wf(),
        in_rule < ctx.rules@.len(),
        target_caller < ctx.rules@.len(),
        old(visited)@.len() == ctx.rules@.len(),
        frames_ok(old(conts)@),
    ensures
        final(visited)@ == old(visited)@,
        final(conts)@ == old(conts)@,
        r ==> *final(found),
        *old(found) ==> *final(found),
        !r ==> (*final(found) <==> (*old(found) || refs(p@).contains(ctx.rules@[target_caller as int].0@))),
    decreases count_false(old(visited)@), 1int, pattern_size(*p),
{
    let ghost tn = ctx.rules@[target_caller as int].0@;
    match p {
        Pattern::NonTerminal(name) => {
            if *name != ctx.rules[target_caller].0 {
                return false;
            }
            *found = true;
            leniency_reaches_unguarded(t, in_rule, conts, inside_catch, ctx, visited)
        },
        Pattern::Sequence(items) => {
            let mut i: usize = 0;
            while i < items.len()
                invariant
                    *p == Pattern::Sequence(*items),
                    tn == ctx.rules@[target_caller as int].0@,
                    *old(found) ==> *found,
                    *found <==> (*old(found) || seq_refs(pviews(items@).take(i as int)).contains(tn)),
                    ctx.wf(),
                    in_rule < ctx.rules@.len(),
                    target_caller < ctx.rules@.len(),
                    visited@.len() == ctx.rules@.len(),
                    visited@ == old(visited)@,
                    conts@ == old(conts)@,
                    frames_ok(conts@),
                    i <= items@.len(),
                decreases items.len() - i,
            {
                proof {
                    lemma_item_size(items@, i as int);
                }
                conts.push((items, i + 1));
                let leaked = find_callsite_unguarded(
                    &items[i],
                    target_caller,
                    t,
                    in_rule,
                    conts,
                    inside_catch,
                    ctx,
                    visited,
                    found,
                );
                conts.pop();
                if leaked {
                    return true;
                }
                proof {
                    lemma_pviews_index(items@);
                    assert(pviews(items@).take(i + 1).drop_last() =~= pviews(items@).take(i as int));
                }
                i += 1;
            }
            proof {
                lemma_pviews_index(items@);
                assert(pviews(items@).take(items@.len() as int) =~= pviews(items@));
            }
            false
        },
        Pattern::OrderedChoice(items) => {
            let mut i: usize = 0;
            while i < items.len()
                invariant
                    *p == Pattern::OrderedChoice(*items),
                    tn == ctx.rules@[target_caller as int].0@,
                    *old(found) ==> *found,
                    *found <==> (*old(found) || seq_refs(pviews(items@).take(i as int)).contains(tn)),
                    ctx.wf(),
                    in_rule < ctx.rules@.len(),
                    target_caller < ctx.rules@.len(),
                    visited@.len() == ctx.rules@.len(),
                    visited@ == old(visited)@,
                    conts@ == old(conts)@,
                    frames_ok(conts@),
                    i <= items@.len(),
                decreases items.len() - i,
            {
                proof {
                    lemma_item_size(items@, i as int);
                }
                if find_callsite_unguarded(
                    &items[i],
                    target_caller,
                    t,
                    in_rule,
                    conts,
                    inside_catch,
                    ctx,
                    visited,
                    found,
                ) {
                    return true;
                }
                proof {
                    lemma_pviews_index(items@);
                    assert(pviews(items@).take(i + 1).drop_last() =~= pviews(items@).take(i as int));
                }
                i += 1;
            }
            proof {
                lemma_pviews_index(items@);
                assert(pviews(items@).take(items@.len() as int) =~= pviews(items@));
            }
            false
        },
        Pattern::Optional(inner) | Pattern::Capture(_, inner) | Pattern::Repeat(inner)
        | Pattern::RepeatOne(inner) | Pattern::Lenient(inner) => find_callsite_unguarded(
            inner,
            target_caller,
            t,
            in_rule,
            conts,
            inside_catch,
            ctx,
            visited,
            found,
        ),
        Pattern::NotPredicate(inner) | Pattern::AndPredicate(inner) => {
            let mut isolated: Vec<ContFrame<'a>> = Vec::new();
            find_callsite_unguarded(
                inner,
                target_caller,
                t,
                in_rule,
                &mut isolated,
                inside_catch,
                ctx,
                visited,
                found,
            )
        },
        Pattern::Catch { inner, recovery, .. } => {
            if find_callsite_unguarded(inner, target_caller, t, in_rule, conts, true, ctx, visited, found) {
                return true;
            }
            let mut isolated: Vec<ContFrame<'a>> = Vec::new();
            find_callsite_unguarded(
                recovery,
                target_caller,
                t,
                in_rule,
                &mut isolated,
                false,
                ctx,
                visited,
                found,
            )
        },
        Pattern::InferBoundaryCatch { inner, .. } => find_callsite_unguarded(
            inner,
            target_caller,
            t,
            in_rule,
            conts,
            inside_catch,
            ctx,
            visited,
            found,
        ),
        _ => false,
    }
}

/// A finding names a rule with a trailing optional part, and a caller
/// whose body calls it.
pub open spec fn finding_ok(f: LintFinding, names: Seq<Seq<char>>, bodies: Seq<PatternV>, nl: Seq<bool>) -> bool {
    &&& f.kind == LintKind::PartialMatchLeniency
    &&& exists|i: int| 0 <= i < names.len() && names[i] == f.caller@ && #[trigger] refs(bodies[i]).contains(f.rule@)
    &&& exists|j: int|
        0 <= j < names.len() && #[trigger] names[j] == f.rule@ && trailing_first_of(bodies[j], names, nl)
            != Set::<FollowV>::empty()
}

proof fn lemma_seq_refs_has(items: Seq<PatternV>, i: int)
    requires
        0 <= i < items.len(),
    ensures
        refs(items[i]).subset_of(seq_refs(items)),
    decreases items.len(),
{
    if i < items.len() - 1 {
        lemma_seq_refs_has(items.drop_last(), i);
        assert(items.drop_last()[i] == items[i]);
    }
}

/// Walk `p`, part of rule `caller`'s body, for calls of rules with a
/// trailing optional part, and report each from which the leftover bytes
/// reach an unguarded position.
fn walk_for_call_sites<'a>(
    p: &'a Pattern,
    caller: usize,
    conts: &mut Vec<ContFrame<'a>>,
    inside_catch: bool,
    ctx: &LintCtx<'a>,
    findings: &mut Vec<LintFinding>,
)
    requires
        ctx.wf(),
        caller < ctx.rules@.len(),
        frames_ok(old(conts)@),
    ensures
        final(conts)@ == old(conts)@,
        final(findings)@.len() >= old(findings)@.len(),
        forall|k: int| 0 <= k < old(findings)@.len() ==> #[trigger] final(findings)@[k] == old(findings)@[k],
        forall|k: int|
            old(findings)@.len() <= k < final(findings)@.len() ==> {
                let f = #[trigger] final(findings)@[k];
                &&& f.kind == LintKind::PartialMatchLeniency
                &&& f.caller@ == names_of_rules(ctx.rules@)[caller as int]
                &&& refs(p@).contains(f.rule@)
                &&& exists|j: int|
                    0 <= j < ctx.rules@.len() && #[trigger] names_of_rules(ctx.rules@)[j] == f.rule@
                        && ctx.trailing@[j].members() != Set::<FollowV>::empty()
            },
    decreases p,
{
    let ghost start = findings@;
    match p {
        Pattern::NonTerminal(name) => {
            proof {
                lemma_index_of(names_of_rules(ctx.rules@), name@);
            }
            let j = match find_rule(ctx.rules, name) {
                Some(j) => j,
                None => {
                    return;
                },
            };
            if ctx.trailing[j].is_empty() {
                return;
            }
            let mut visited: Vec<bool> = Vec::new();
            let mut m: usize = 0;
            while m < ctx.rules.len()
                invariant
                    m <= ctx.rules@.len(),
                    visited@.len() == m,
                decreases ctx.rules.len() - m,
            {
                visited.push(false);
                m += 1;
            }
            if !leniency_reaches_unguarded(&ctx.trailing[j], caller, conts, inside_catch, ctx, &mut visited) {
                return;
            }
            findings.push(LintFinding {
                kind: LintKind::PartialMatchLeniency,
                rule: name.clone(),
                caller: ctx.rules[caller].0.clone(),
            });
            proof {
                assert(refs(p@) =~= set![name@]) by {
                    assert(refs(p@) == set![name@]);
                }
            }
        },
        Pattern::Sequence(items) => {
            let ghost vs = pviews(items@);
            proof {
                lemma_pviews_index(items@);
            }
            let mut i: usize = 0;
            while i < items.len()
                invariant
                    *p == Pattern::Sequence(*items),
                    vs == pviews(items@),
                    vs.len() == items@.len(),
                    forall|k: int| 0 <= k < items@.len() ==> #[trigger] vs[k] == pview(items@[k]),
                    ctx.wf(),
                    caller < ctx.rules@.len(),
                    conts@ == old(conts)@,
                    frames_ok(conts@),
                    i <= items@.len(),
                    findings@.len() >= start.len(),
                    forall|k: int| 0 <= k < start.len() ==> #[trigger] findings@[k] == start[k],
                    forall|k: int|
                        start.len() <= k < findings@.len() ==> {
                            let f = #[trigger] findings@[k];
                            &&& f.kind == LintKind::PartialMatchLeniency
                            &&& f.caller@ == names_of_rules(ctx.rules@)[caller as int]
                            &&& refs(p@).contains(f.rule@)
                            &&& exists|j: int|
                                0 <= j < ctx.rules@.len() && #[trigger] names_of_rules(ctx.rules@)[j] == f.rule@
                                    && ctx.trailing@[j].members() != Set::<FollowV>::empty()
                        },
                decreases items.len() - i,
            {
                proof {
                    vstd::std_specs::vec::axiom_vec_index_decreases(*items, i as int);
                    assert(decreases_to!(*p => (*p)->Sequence_0));
                    lemma_seq_refs_has(vs, i as int);
                }
                conts.push((items, i + 1));
                let ghost mid = findings@;
                walk_for_call_sites(&items[i], caller, conts, inside_catch, ctx, findings);
                conts.pop();
                proof {
                    assert(conts@ =~= old(conts)@);
                    assert forall|k: int| start.len() <= k < findings@.len() implies refs(p@).contains(
                        (#[trigger] findings@[k]).rule@,
                    ) by {
                        if k >= mid.len() {
                            assert(refs(vs[i as int]).contains(findings@[k].rule@));
                        } else {
                            assert(findings@[k] == mid[k]);
                        }
                    }
                }
                i += 1;
            }
        },
        Pattern::OrderedChoice(items) => {
            let ghost vs = pviews(items@);
            proof {
                lemma_pviews_index(items@);
            }
            let mut i: usize = 0;
            while i < items.len()
                invariant
                    *p == Pattern::OrderedChoice(*items),
                    vs == pviews(items@),
                    vs.len() == items@.len(),
                    forall|k: int| 0 <= k < items@.len() ==> #[trigger] vs[k] == pview(items@[k]),
                    ctx.wf(),
                    caller < ctx.rules@.len(),
                    conts@ == old(conts)@,
                    frames_ok(conts@),
                    i <= items@.len(),
                    findings@.len() >= start.len(),
                    forall|k: int| 0 <= k < start.len() ==> #[trigger] findings@[k] == start[k],
                    forall|k: int|
                        start.len() <= k < findings@.len() ==> {
                            let f = #[trigger] findings@[k];
                            &&& f.kind == LintKind::PartialMatchLeniency
                            &&& f.caller@ == names_of_rules(ctx.rules@)[caller as int]
                            &&& refs(p@).contains(f.rule@)
                            &&& exists|j: int|
                                0 <= j < ctx.rules@.len() && #[trigger] names_of_rules(ctx.rules@)[j] == f.rule@
                                    && ctx.trailing@[j].members() != Set::<FollowV>::empty()
                        },
                decreases items.len() - i,
            {
                proof {
                    vstd::std_specs::vec::axiom_vec_index_decreases(*items, i as int);
                    assert(decreases_to!(*p => (*p)->OrderedChoice_0));
                    lemma_seq_refs_has(vs, i as int);
                }
                let ghost mid = findings@;
                walk_for_call_sites(&items[i], caller, conts, inside_catch, ctx, findings);
                proof {
                    assert forall|k: int| start.len() <= k < findings@.len() implies refs(p@).contains(
                        (#[trigger] findings@[k]).rule@,
                    ) by {
                        if k >= mid.len() {
                            assert(refs(vs[i as int]).contains(findings@[k].rule@));
                        } else {
                            assert(findings@[k] == mid[k]);
                        }
                    }
                }
                i += 1;
            }
        },
        Pattern::Optional(inner) | Pattern::Capture(_, inner) | Pattern::Repeat(inner)
        | Pattern::RepeatOne(inner) | Pattern::Lenient(inner) | Pattern::InferBoundaryCatch { inner, .. } => {
            walk_for_call_sites(inner, caller, conts, inside_catch, ctx, findings);
        },
        Pattern::NotPredicate(inner) | Pattern::AndPredicate(inner) => {
            let mut isolated: Vec<ContFrame<'a>> = Vec::new();
            walk_for_call_sites(inner, caller, &mut isolated, inside_catch, ctx, findings);
        },
        Pattern::Catch { inner, recovery, .. } => {
            let ghost mid0 = findings@;
            walk_for_call_sites(inner, caller, conts, true, ctx, findings);
            let ghost mid = findings@;
            let mut isolated: Vec<ContFrame<'a>> = Vec::new();
            walk_for_call_sites(recovery, caller, &mut isolated, false, ctx, findings);
            proof {
                assert forall|k: int| start.len() <= k < findings@.len() implies refs(p@).contains(
                    (#[trigger] findings@[k]).rule@,
                ) by {
                    if k < mid.len() {
                        assert(findings@[k] == mid[k]);
                    }
                }
            }
        },
        _ => {},
    }
}

/// Rule positions in name order.
fn name_order(rules: &Vec<(String, Pattern)>) -> (order: Vec<usize>)
    ensures
        order@.len() == rules@.len(),
        forall|k: int| 0 <= k < order@.len() ==> #[trigger] order@[k] < rules@.len(),
{
    let n = rules.len();
    let mut order: Vec<usize> = Vec::new();
    let mut i: usize = 0;
    while i < n
        invariant
            n == rules@.len(),
            i <= n,
            order@.len() == i,
            forall|k: int| 0 <= k < order@.len() ==> #[trigger] order@[k] < n,
        decreases n - i,
    {
        // Insert `i` after every position whose name sorts before it.
        let mut p: usize = 0;
        while p < order.len() && !name_less(&rules[i].0, &rules[order[p]].0)
            invariant
                p <= order@.len(),
                forall|k: int| 0 <= k < order@.len() ==> #[trigger] order@[k] < n,
                n == rules@.len(),
                i < n,
            decreases order.len() - p,
        {
            p += 1;
        }
        order.insert(p, i);
        i += 1;
    }
    order
}

/// `a` sorts strictly before `b`: by rule, then by caller.
pub open spec fn finding_before(a: LintFinding, b: LintFinding) -> bool {
    chars_less(a.rule@, b.rule@) || (a.rule@ == b.rule@ && chars_less(a.caller@, b.caller@))
}

/// Each finding sorts strictly before every later one: ordered by rule,
/// then caller, and no rule and caller pair twice.
pub open spec fn findings_sorted(s: Seq<LintFinding>) -> bool {
    forall|i: int, j: int| 0 <= i < j < s.len() ==> finding_before(#[trigger] s[i], #[trigger] s[j])
}

proof fn lemma_before_trans(a: LintFinding, b: LintFinding, c: LintFinding)
    requires
        finding_before(a, b),
        finding_before(b, c),
    ensures
        finding_before(a, c),
{
    if chars_less(a.rule@, b.rule@) && chars_less(b.rule@, c.rule@) {
        lemma_chars_less_trans(a.rule@, b.rule@, c.rule@);
    } else if chars_less(a.caller@, b.caller@) && chars_less(b.caller@, c.caller@) && a.rule@ == b.rule@
        && b.rule@ == c.rule@ {
        lemma_chars_less_trans(a.caller@, b.caller@, c.caller@);
    }
}

/// Two findings with different rule or caller: one sorts before the other.
proof fn lemma_before_total(a: LintFinding, b: LintFinding)
    requires
        !(a.rule@ == b.rule@ && a.caller@ == b.caller@),
        !finding_before(a, b),
    ensures
        finding_before(b, a),
{
    if a.rule@ != b.rule@ {
        lemma_chars_less_total(a.rule@, b.rule@);
    } else {
        lemma_chars_less_total(a.caller@, b.caller@);
    }
}

fn finding_less(a: &LintFinding, b: &LintFinding) -> (r: bool)
    ensures
        r == (chars_less(a.rule@, b.rule@) || (a.rule@ == b.rule@ && chars_less(a.caller@, b.caller@))),
{
    name_less(&a.rule, &b.rule) || (a.rule == b.rule && name_less(&a.caller, &b.caller))
}

/// The two findings name the same rule and caller.
fn same_finding(a: &LintFinding, b: &LintFinding) -> (r: bool)
    ensures
        r == (a.rule@ == b.rule@ && a.caller@ == b.caller@),
{
    a.rule == b.rule && a.caller == b.caller
}

/// Report the calls of rules with a trailing optional part from which
/// the leftover bytes reach a position no validator guards, sorted by
/// rule and caller, each once.
pub fn lint_partial_match(grammar: &Grammar) -> (findings: Vec<LintFinding>)
    ensures
        findings_sorted(findings@),
        forall|k: int|
            0 <= k < findings@.len() ==> finding_ok(
                #[trigger] findings@[k],
                names_of_rules(grammar.rules@),
                bodies_of_rules(grammar.rules@),
                rule_nullable(names_of_rules(grammar.rules@), bodies_of_rules(grammar.rules@)),
            ),
{
    let rules = &grammar.rules;
    let ghost names = names_of_rules(rules@);
    let ghost bodies = bodies_of_rules(rules@);
    let nl = compute_nullable(rules);
    let mut trailing: Vec<FollowSet> = Vec::new();
    let mut i: usize = 0;
    while i < rules.len()
        invariant
            i <= rules@.len(),
            nl@.len() == rules@.len(),
            nl@ == rule_nullable(names, bodies),
            names == names_of_rules(rules@),
            bodies == bodies_of_rules(rules@),
            trailing@.len() == i,
            forall|k: int| 0 <= k < i ==> (#[trigger] trailing@[k]).members() == trailing_first_of(bodies[k], names, nl@),
        decreases rules.len() - i,
    {
        assert(bodies[i as int] == pview(rules@[i as int].1));
        let t = trailing_first(&rules[i].1, rules, &nl);
        trailing.push(t);
        i += 1;
    }
    let order = name_order(rules);
    let ctx = LintCtx { rules, nl, trailing, order };
    let ghost nlv = ctx.nl@;
    let mut found: Vec<LintFinding> = Vec::new();
    let mut k: usize = 0;
    while k < ctx.order.len()
        invariant
            ctx.wf(),
            ctx.rules == rules,
            names == names_of_rules(rules@),
            bodies == bodies_of_rules(rules@),
            nlv == ctx.nl@,
            nlv == rule_nullable(names, bodies),
            forall|m: int| 0 <= m < rules@.len() ==> (#[trigger] ctx.trailing@[m]).members() == trailing_first_of(bodies[m], names, nlv),
            k <= ctx.order@.len(),
            forall|m: int| 0 <= m < found@.len() ==> finding_ok(#[trigger] found@[m], names, bodies, nlv),
        decreases ctx.order.len() - k,
    {
        let caller = ctx.order[k];
        let mut conts: Vec<ContFrame> = Vec::new();
        let ghost before = found@;
        walk_for_call_sites(&ctx.rules[caller].1, caller, &mut conts, false, &ctx, &mut found);
        proof {
            assert(bodies[caller as int] == pview(rules@[caller as int].1));
            assert forall|m: int| 0 <= m < found@.len() implies finding_ok(#[trigger] found@[m], names, bodies, nlv) by {
                if m >= before.len() {
                    let f = found@[m];
                    assert(refs(bodies[caller as int]).contains(f.rule@));
                    assert(names[caller as int] == f.caller@);
                    let j = choose|j: int|
                        0 <= j < ctx.rules@.len() && #[trigger] names_of_rules(ctx.rules@)[j] == f.rule@
                            && ctx.trailing@[j].members() != Set::<FollowV>::empty();
                    assert(names[j] == f.rule@);
                    assert(trailing_first_of(bodies[j], names, nlv) != Set::<FollowV>::empty());
                } else {
                    assert(found@[m] == before[m]);
                }
            }
        }
        k += 1;
    }
    // Sort by (rule, caller) and drop repeats.
    let mut out: Vec<LintFinding> = Vec::new();
    let mut m: usize = 0;
    while m < found.len()
        invariant
            m <= found@.len(),
            forall|x: int| 0 <= x < found@.len() ==> finding_ok(#[trigger] found@[x], names, bodies, nlv),
            forall|x: int| 0 <= x < out@.len() ==> finding_ok(#[trigger] out@[x], names, bodies, nlv),
            findings_sorted(out@),
        decreases found.len() - m,
    {
        let f = &found[m];
        let mut p: usize = 0;
        while p < out.len() && finding_less(&out[p], f)
            invariant
                p <= out@.len(),
                forall|x: int| 0 <= x < p ==> finding_before(#[trigger] out@[x], *f),
            decreases out.len() - p,
        {
            p += 1;
        }
        if !(p < out.len() && same_finding(&out[p], f)) {
            let ghost before = out@;
            let copy = LintFinding { kind: f.kind, rule: f.rule.clone(), caller: f.caller.clone() };
            assert(finding_ok(found@[m as int], names, bodies, nlv));
            assert(finding_ok(copy, names, bodies, nlv));
            proof {
                if p < before.len() {
                    lemma_before_total(before[p as int], *f);
                }
            }
            out.insert(p, copy);
            proof {
                assert(copy.rule@ == f.rule@ && copy.caller@ == f.caller@);
                assert forall|x: int, y: int| 0 <= x < y < out@.len() implies finding_before(
                    #[trigger] out@[x],
                    #[trigger] out@[y],
                ) by {
                    if y < p {
                        assert(out@[x] == before[x] && out@[y] == before[y]);
                    } else if y == p {
                        assert(out@[x] == before[x]);
                    } else if x == p {
                        assert(out@[y] == before[y - 1]);
                        if y - 1 > p {
                            lemma_before_trans(*f, before[p as int], before[y - 1]);
                        }
                    } else if x < p {
                        assert(out@[x] == before[x] && out@[y] == before[y - 1]);
                    } else {
                        assert(out@[x] == before[x - 1] && out@[y] == before[y - 1]);
                    }
                }
                assert forall|x: int| 0 <= x < out@.len() implies finding_ok(#[trigger] out@[x], names, bodies, nlv) by {
                    if x < p {
                        assert(out@[x] == before[x]);
                    } else if x > p {
                        assert(out@[x] == before[x - 1]);
                    }
                }
            }
        }
        m += 1;
    }
    out
}

} // verus!
