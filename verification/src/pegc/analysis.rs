//! Static analyses over the grammar AST.
//!
//! Rules are held as a list of `(name, body)` pairs; the analyses are
//! stated over the abstract values of the bodies ([`PatternV`]) and the
//! names, and index their per-rule results by rule position.
use vstd::prelude::*;

use super::graph::{count_false, reachable, reachable_from, square};
use super::pattern::{Pattern, PatternV, lemma_pviews_index, pview, pviews};

pub use super::follow::{
    compute_first, compute_follow, follow_set_to_boundary_pattern, resolve_inferred_boundaries, FollowElement,
};
pub use super::keywords::append_boundary_check;
pub use super::lint::lint_partial_match;
pub use super::reserved::synthesize_reserved_preferred;
pub use super::rewrite::{inject_auto_ignore, wrap_root};

verus! {

/// The kind of lint that produced a [`LintFinding`].
#[derive(Debug, Clone, Copy, PartialEq, Eq)]
pub enum LintKind {
    PartialMatchLeniency,
}

/// A rule that can succeed on a prefix of its expected match, called from
/// a site that does not anchor the boundary.
#[derive(Debug, Clone)]
pub struct LintFinding {
    pub kind: LintKind,
    /// The rule with a trailing optional: the lenient one.
    pub rule: String,
    /// The rule whose body holds the unanchored call.
    pub caller: String,
}

// ---------------------------------------------------------------------
// Rule lists
// ---------------------------------------------------------------------

/// Names of the rules, by position.
pub open spec fn names_of_rules(rules: Seq<(String, Pattern)>) -> Seq<Seq<char>> {
    rules.map_values(|r: (String, Pattern)| r.0@)
}

/// Abstract bodies of the rules, by position.
pub open spec fn bodies_of_rules(rules: Seq<(String, Pattern)>) -> Seq<PatternV> {
    rules.map_values(|r: (String, Pattern)| pview(r.1))
}

/// Position of the first rule called `n`, or -1.
pub open spec fn index_of(names: Seq<Seq<char>>, n: Seq<char>) -> int
    decreases names.len(),
{
    if names.len() == 0 {
        -1
    } else if names[0] == n {
        0
    } else {
        let k = index_of(names.drop_first(), n);
        if k < 0 {
            -1
        } else {
            k + 1
        }
    }
}

/// `index_of` is the first position holding the name, or -1 when none does.
pub proof fn lemma_index_of(names: Seq<Seq<char>>, n: Seq<char>)
    ensures
        -1 <= index_of(names, n) < names.len(),
        index_of(names, n) == -1 <==> forall|k: int| 0 <= k < names.len() ==> names[k] != n,
        index_of(names, n) >= 0 ==> names[index_of(names, n)] == n && forall|k: int|
            0 <= k < index_of(names, n) ==> names[k] != n,
    decreases names.len(),
{
    if names.len() > 0 {
        lemma_index_of(names.drop_first(), n);
        assert forall|k: int| 0 < k < names.len() implies names[k] == names.drop_first()[k - 1] by {}
        if names[0] != n && index_of(names.drop_first(), n) == -1 {
            assert forall|k: int| 0 <= k < names.len() implies names[k] != n by {
                if k > 0 {
                    assert(names[k] == names.drop_first()[k - 1]);
                }
            }
        }
    }
}

/// The position of the first rule called `name`.
pub fn find_rule(rules: &Vec<(String, Pattern)>, name: &String) -> (r: Option<usize>)
    ensures
        match r {
            Some(i) => i as int == index_of(names_of_rules(rules@), name@),
            None => index_of(names_of_rules(rules@), name@) == -1,
        },
{
    let ghost names = names_of_rules(rules@);
    proof {
        lemma_index_of(names, name@);
    }
    let mut i: usize = 0;
    while i < rules.len()
        invariant
            names == names_of_rules(rules@),
            i <= rules@.len(),
            forall|k: int| 0 <= k < i ==> names[k] != name@,
            -1 <= index_of(names, name@) < names.len(),
            index_of(names, name@) == -1 <==> forall|k: int| 0 <= k < names.len() ==> names[k] != name@,
            index_of(names, name@) >= 0 ==> names[index_of(names, name@)] == name@ && forall|k: int|
                0 <= k < index_of(names, name@) ==> names[k] != name@,
        decreases rules.len() - i,
    {
        if rules[i].0 == *name {
            assert(names[i as int] == name@);
            return Some(i);
        }
        assert(names[i as int] != name@);
        i += 1;
    }
    None
}

/// Set of the names held by a list of strings.
pub open spec fn name_set(v: Seq<String>) -> Set<Seq<char>> {
    Set::new(|n: Seq<char>| exists|i: int| 0 <= i < v.len() && v[i]@ == n)
}

proof fn lemma_name_set_push(v: Seq<String>, s: String)
    ensures
        name_set(v.push(s)) == name_set(v).insert(s@),
{
    assert forall|n: Seq<char>| name_set(v.push(s)).contains(n) implies name_set(v).insert(s@).contains(n) by {
        let i = choose|i: int| 0 <= i < v.push(s).len() && v.push(s)[i]@ == n;
        if i < v.len() {
            assert(v[i]@ == n);
        }
    }
    assert forall|n: Seq<char>| name_set(v).insert(s@).contains(n) implies name_set(v.push(s)).contains(n) by {
        if n == s@ {
            assert(v.push(s)[v.len() as int]@ == n);
        } else {
            let i = choose|i: int| 0 <= i < v.len() && v[i]@ == n;
            assert(v.push(s)[i]@ == n);
        }
    }
    assert(name_set(v.push(s)) =~= name_set(v).insert(s@));
}

/// Whether a list of strings holds the name.
pub fn holds_name(v: &Vec<String>, name: &String) -> (b: bool)
    ensures
        b == name_set(v@).contains(name@),
{
    let mut i: usize = 0;
    while i < v.len()
        invariant
            i <= v@.len(),
            forall|k: int| 0 <= k < i ==> v@[k]@ != name@,
        decreases v.len() - i,
    {
        if v[i] == *name {
            assert(v@[i as int]@ == name@);
            return true;
        }
        i += 1;
    }
    false
}

// ---------------------------------------------------------------------
// Nullability
// ---------------------------------------------------------------------

/// Whether the pattern can match the empty string, given the rules'
/// nullability `nl` (indexed like `names`).
pub open spec fn pnullable(p: PatternV, names: Seq<Seq<char>>, nl: Seq<bool>) -> bool
    decreases p,
{
    match p {
        PatternV::Literal(b) => b.len() == 0,
        PatternV::CharClass(_) => false,
        PatternV::AnyChar => false,
        PatternV::Sequence(items) => all_nullable(items, names, nl),
        PatternV::OrderedChoice(items) => any_nullable(items, names, nl),
        PatternV::Repeat(_) => true,
        PatternV::Optional(_) => true,
        PatternV::NotPredicate(_) => true,
        PatternV::AndPredicate(_) => true,
        PatternV::RepeatOne(inner) => pnullable(*inner, names, nl),
        PatternV::Capture(_, inner) => pnullable(*inner, names, nl),
        PatternV::Catch { inner, .. } => pnullable(*inner, names, nl),
        PatternV::Lenient(inner) => pnullable(*inner, names, nl),
        PatternV::InferBoundaryCatch { inner, .. } => pnullable(*inner, names, nl),
        PatternV::NonTerminal(n) => {
            let k = index_of(names, n);
            0 <= k && nl[k]
        },
    }
}

pub open spec fn all_nullable(items: Seq<PatternV>, names: Seq<Seq<char>>, nl: Seq<bool>) -> bool
    decreases items,
{
    if items.len() == 0 {
        true
    } else {
        all_nullable(items.drop_last(), names, nl) && pnullable(items.last(), names, nl)
    }
}

pub open spec fn any_nullable(items: Seq<PatternV>, names: Seq<Seq<char>>, nl: Seq<bool>) -> bool
    decreases items,
{
    if items.len() == 0 {
        false
    } else {
        any_nullable(items.drop_last(), names, nl) || pnullable(items.last(), names, nl)
    }
}

proof fn lemma_take_step(s: Seq<PatternV>, i: int)
    requires
        0 <= i < s.len(),
    ensures
        s.take(i + 1).drop_last() == s.take(i),
        s.take(i + 1).last() == s[i],
{
    assert(s.take(i + 1).drop_last() =~= s.take(i));
}

/// One round of the nullability fixpoint.
pub open spec fn nullable_round(names: Seq<Seq<char>>, bodies: Seq<PatternV>, nl: Seq<bool>) -> Seq<bool> {
    Seq::new(nl.len(), |i: int| nl[i] || pnullable(bodies[i], names, nl))
}

/// The nullability after `k` rounds from "nothing is nullable".
pub open spec fn nullable_iter(names: Seq<Seq<char>>, bodies: Seq<PatternV>, k: nat) -> Seq<bool>
    decreases k,
{
    if k == 0 {
        Seq::new(bodies.len(), |i: int| false)
    } else {
        nullable_round(names, bodies, nullable_iter(names, bodies, (k - 1) as nat))
    }
}

/// `nl` is where the rounds come to rest.
pub open spec fn nullable_stable(names: Seq<Seq<char>>, bodies: Seq<PatternV>, nl: Seq<bool>) -> bool {
    exists|k: nat| nl == nullable_iter(names, bodies, k) && nullable_round(names, bodies, nl) == nl
}

/// The least fixpoint of the rounds: which rules can match the empty string.
pub open spec fn rule_nullable(names: Seq<Seq<char>>, bodies: Seq<PatternV>) -> Seq<bool> {
    choose|nl: Seq<bool>| nullable_stable(names, bodies, nl)
}

proof fn lemma_iter_len(names: Seq<Seq<char>>, bodies: Seq<PatternV>, k: nat)
    ensures
        nullable_iter(names, bodies, k).len() == bodies.len(),
    decreases k,
{
    if k > 0 {
        lemma_iter_len(names, bodies, (k - 1) as nat);
    }
}

proof fn lemma_stable_forever(names: Seq<Seq<char>>, bodies: Seq<PatternV>, k: nat, m: nat)
    requires
        k <= m,
        nullable_round(names, bodies, nullable_iter(names, bodies, k)) == nullable_iter(names, bodies, k),
    ensures
        nullable_iter(names, bodies, m) == nullable_iter(names, bodies, k),
    decreases m - k,
{
    if k < m {
        lemma_stable_forever(names, bodies, k, (m - 1) as nat);
    }
}

/// The resting point of the rounds is unique, so `rule_nullable` names it.
proof fn lemma_stable_is_rule_nullable(names: Seq<Seq<char>>, bodies: Seq<PatternV>, nl: Seq<bool>)
    requires
        nullable_stable(names, bodies, nl),
    ensures
        rule_nullable(names, bodies) == nl,
{
    let other = rule_nullable(names, bodies);
    let k1 = choose|k: nat| nl == nullable_iter(names, bodies, k) && nullable_round(names, bodies, nl) == nl;
    assert(nullable_stable(names, bodies, other));
    let k2 = choose|k: nat|
        other == nullable_iter(names, bodies, k) && nullable_round(names, bodies, other) == other;
    if k1 <= k2 {
        lemma_stable_forever(names, bodies, k1, k2);
    } else {
        lemma_stable_forever(names, bodies, k2, k1);
    }
}

/// A round only adds; if it adds anything, fewer rules stay non-nullable.
proof fn lemma_round_grows(a: Seq<bool>, b: Seq<bool>)
    requires
        a.len() == b.len(),
        forall|i: int| 0 <= i < a.len() && a[i] ==> b[i],
    ensures
        count_false(b) <= count_false(a),
        a != b ==> count_false(b) < count_false(a),
    decreases a.len(),
{
    if a.len() > 0 {
        lemma_round_grows(a.drop_last(), b.drop_last());
        if a != b && a.drop_last() == b.drop_last() {
            assert(a.last() != b.last()) by {
                if a.last() == b.last() {
                    assert forall|i: int| 0 <= i < a.len() implies a[i] == b[i] by {
                        if i < a.len() - 1 {
                            assert(a[i] == a.drop_last()[i]);
                            assert(b[i] == b.drop_last()[i]);
                        }
                    }
                    assert(a =~= b);
                }
            }
        }
    } else {
        assert(a =~= b);
    }
}

/// Whether a pattern can match the empty string, given the rules'
/// nullability.
pub fn pattern_nullable(p: &Pattern, rules: &Vec<(String, Pattern)>, nl: &Vec<bool>) -> (b: bool)
    requires
        nl@.len() == rules@.len(),
    ensures
        b == pnullable(p@, names_of_rules(rules@), nl@),
    decreases p,
{
    let ghost names = names_of_rules(rules@);
    match p {
        Pattern::Literal(bytes) => bytes.len() == 0,
        Pattern::CharClass(_) => false,
        Pattern::AnyChar => false,
        Pattern::Sequence(items) => {
            let ghost vs = pviews(items@);
            proof {
                lemma_pviews_index(items@);
            }
            let mut acc = true;
            let mut i: usize = 0;
            while i < items.len()
                invariant
                    *p == Pattern::Sequence(*items),
                    vs == pviews(items@),
                    vs.len() == items@.len(),
                    forall|k: int| 0 <= k < items@.len() ==> #[trigger] vs[k] == pview(items@[k]),
                    names == names_of_rules(rules@),
                    nl@.len() == rules@.len(),
                    i <= items@.len(),
                    acc == all_nullable(vs.take(i as int), names, nl@),
                decreases items.len() - i,
            {
                proof {
                    vstd::std_specs::vec::axiom_vec_index_decreases(*items, i as int);
                    assert(decreases_to!(*p => (*p)->Sequence_0));
                    lemma_take_step(vs, i as int);
                }
                let b = pattern_nullable(&items[i], rules, nl);
                acc = acc && b;
                i += 1;
            }
            assert(vs.take(vs.len() as int) == vs);
            acc
        },
        Pattern::OrderedChoice(items) => {
            let ghost vs = pviews(items@);
            proof {
                lemma_pviews_index(items@);
            }
            let mut acc = false;
            let mut i: usize = 0;
            while i < items.len()
                invariant
                    *p == Pattern::OrderedChoice(*items),
                    vs == pviews(items@),
                    vs.len() == items@.len(),
                    forall|k: int| 0 <= k < items@.len() ==> #[trigger] vs[k] == pview(items@[k]),
                    names == names_of_rules(rules@),
                    nl@.len() == rules@.len(),
                    i <= items@.len(),
                    acc == any_nullable(vs.take(i as int), names, nl@),
                decreases items.len() - i,
            {
                proof {
                    vstd::std_specs::vec::axiom_vec_index_decreases(*items, i as int);
                    assert(decreases_to!(*p => (*p)->OrderedChoice_0));
                    lemma_take_step(vs, i as int);
                }
                let b = pattern_nullable(&items[i], rules, nl);
                acc = acc || b;
                i += 1;
            }
            assert(vs.take(vs.len() as int) == vs);
            acc
        },
        Pattern::Repeat(_) => true,
        Pattern::Optional(_) => true,
        Pattern::NotPredicate(_) => true,
        Pattern::AndPredicate(_) => true,
        Pattern::RepeatOne(inner) => pattern_nullable(inner, rules, nl),
        Pattern::Capture(_, inner) => pattern_nullable(inner, rules, nl),
        Pattern::Catch { inner, .. } => pattern_nullable(inner, rules, nl),
        Pattern::Lenient(inner) => pattern_nullable(inner, rules, nl),
        Pattern::InferBoundaryCatch { inner, .. } => pattern_nullable(inner, rules, nl),
        Pattern::NonTerminal(name) => {
            proof {
                lemma_index_of(names, name@);
            }
            match find_rule(rules, name) {
                Some(k) => nl[k],
                None => false,
            }
        },
    }
}

/// Per-rule nullability: the least fixpoint of "a rule is nullable when
/// its body can match the empty string".
pub fn compute_nullable(rules: &Vec<(String, Pattern)>) -> (nl: Vec<bool>)
    ensures
        nl@ == rule_nullable(names_of_rules(rules@), bodies_of_rules(rules@)),
        nl@.len() == rules@.len(),
{
    let ghost names = names_of_rules(rules@);
    let ghost bodies = bodies_of_rules(rules@);
    let n = rules.len();
    let mut nl: Vec<bool> = Vec::new();
    let mut i: usize = 0;
    while i < n
        invariant
            n == rules@.len(),
            i <= n,
            nl@.len() == i,
            forall|k: int| 0 <= k < i ==> !nl@[k],
        decreases n - i,
    {
        nl.push(false);
        i += 1;
    }
    let ghost mut round: nat = 0;
    assert(nl@ =~= nullable_iter(names, bodies, 0));
    loop
        invariant
            names == names_of_rules(rules@),
            bodies == bodies_of_rules(rules@),
            n == rules@.len(),
            nl@.len() == n,
            nl@ == nullable_iter(names, bodies, round),
        decreases count_false(nl@),
    {
        let mut next: Vec<bool> = Vec::new();
        let mut changed = false;
        let mut j: usize = 0;
        while j < n
            invariant
                names == names_of_rules(rules@),
                bodies == bodies_of_rules(rules@),
                n == rules@.len(),
                nl@.len() == n,
                j <= n,
                next@.len() == j,
                forall|k: int| 0 <= k < j ==> #[trigger] next@[k] == nullable_round(names, bodies, nl@)[k],
                changed <==> exists|k: int| 0 <= k < j && next@[k] != nl@[k],
            decreases n - j,
        {
            let b = nl[j] || pattern_nullable(&rules[j].1, rules, &nl);
            assert(bodies[j as int] == pview(rules@[j as int].1));
            if b != nl[j] {
                changed = true;
            }
            next.push(b);
            j += 1;
        }
        assert(next@ =~= nullable_round(names, bodies, nl@));
        if !changed {
            assert(next@ =~= nl@);
            proof {
                assert(nullable_stable(names, bodies, nl@));
                lemma_stable_is_rule_nullable(names, bodies, nl@);
            }
            return nl;
        }
        proof {
            lemma_round_grows(nl@, next@);
            round = round + 1;
        }
        nl = next;
    }
}

// ---------------------------------------------------------------------
// First calls and left recursion
// ---------------------------------------------------------------------

/// Rules a pattern can call before consuming input.
pub open spec fn fcalls(p: PatternV, names: Seq<Seq<char>>, nl: Seq<bool>) -> Set<Seq<char>>
    decreases p,
{
    match p {
        PatternV::Sequence(items) => seq_fcalls(items, names, nl),
        PatternV::OrderedChoice(items) => choice_fcalls(items, names, nl),
        PatternV::Repeat(inner) => fcalls(*inner, names, nl),
        PatternV::RepeatOne(inner) => fcalls(*inner, names, nl),
        PatternV::Optional(inner) => fcalls(*inner, names, nl),
        PatternV::NotPredicate(inner) => fcalls(*inner, names, nl),
        PatternV::AndPredicate(inner) => fcalls(*inner, names, nl),
        PatternV::Capture(_, inner) => fcalls(*inner, names, nl),
        PatternV::Lenient(inner) => fcalls(*inner, names, nl),
        PatternV::Catch { inner, recovery, .. } => fcalls(*inner, names, nl) + fcalls(*recovery, names, nl),
        PatternV::InferBoundaryCatch { inner, .. } => fcalls(*inner, names, nl),
        PatternV::NonTerminal(n) => Set::empty().insert(n),
        _ => Set::empty(),
    }
}

/// First calls of a sequence: an item's count while all before it are nullable.
pub open spec fn seq_fcalls(items: Seq<PatternV>, names: Seq<Seq<char>>, nl: Seq<bool>) -> Set<Seq<char>>
    decreases items,
{
    if items.len() == 0 {
        Set::empty()
    } else if all_nullable(items.drop_last(), names, nl) {
        seq_fcalls(items.drop_last(), names, nl) + fcalls(items.last(), names, nl)
    } else {
        seq_fcalls(items.drop_last(), names, nl)
    }
}

pub open spec fn choice_fcalls(items: Seq<PatternV>, names: Seq<Seq<char>>, nl: Seq<bool>) -> Set<
    Seq<char>,
>
    decreases items,
{
    if items.len() == 0 {
        Set::empty()
    } else {
        choice_fcalls(items.drop_last(), names, nl) + fcalls(items.last(), names, nl)
    }
}

/// Add to `out` the rules `p` can call before consuming input.
fn collect_first_calls(p: &Pattern, rules: &Vec<(String, Pattern)>, nl: &Vec<bool>, out: &mut Vec<String>)
    requires
        nl@.len() == rules@.len(),
    ensures
        name_set(final(out)@) == name_set(old(out)@) + fcalls(p@, names_of_rules(rules@), nl@),
    decreases p,
{
    let ghost names = names_of_rules(rules@);
    match p {
        Pattern::Sequence(items) => {
            let ghost vs = pviews(items@);
            proof {
                lemma_pviews_index(items@);
            }
            let mut prefix_nullable = true;
            let mut i: usize = 0;
            while i < items.len()
                invariant
                    *p == Pattern::Sequence(*items),
                    vs == pviews(items@),
                    vs.len() == items@.len(),
                    forall|k: int| 0 <= k < items@.len() ==> #[trigger] vs[k] == pview(items@[k]),
                    names == names_of_rules(rules@),
                    nl@.len() == rules@.len(),
                    i <= items@.len(),
                    prefix_nullable == all_nullable(vs.take(i as int), names, nl@),
                    name_set(out@) == name_set(old(out)@) + seq_fcalls(vs.take(i as int), names, nl@),
                decreases items.len() - i,
            {
                proof {
                    vstd::std_specs::vec::axiom_vec_index_decreases(*items, i as int);
                    assert(decreases_to!(*p => (*p)->Sequence_0));
                    lemma_take_step(vs, i as int);
                }
                let ghost before = name_set(out@);
                if prefix_nullable {
                    collect_first_calls(&items[i], rules, nl, out);
                }
                let b = pattern_nullable(&items[i], rules, nl);
                prefix_nullable = prefix_nullable && b;
                i += 1;
                proof {
                    assert(name_set(out@) =~= name_set(old(out)@) + seq_fcalls(vs.take(i as int), names, nl@));
                }
            }
            assert(vs.take(vs.len() as int) == vs);
        },
        Pattern::OrderedChoice(items) => {
            let ghost vs = pviews(items@);
            proof {
                lemma_pviews_index(items@);
            }
            let mut i: usize = 0;
            while i < items.len()
                invariant
                    *p == Pattern::OrderedChoice(*items),
                    vs == pviews(items@),
                    vs.len() == items@.len(),
                    forall|k: int| 0 <= k < items@.len() ==> #[trigger] vs[k] == pview(items@[k]),
                    names == names_of_rules(rules@),
                    nl@.len() == rules@.len(),
                    i <= items@.len(),
                    name_set(out@) == name_set(old(out)@) + choice_fcalls(vs.take(i as int), names, nl@),
                decreases items.len() - i,
            {
                proof {
                    vstd::std_specs::vec::axiom_vec_index_decreases(*items, i as int);
                    assert(decreases_to!(*p => (*p)->OrderedChoice_0));
                    lemma_take_step(vs, i as int);
                }
                collect_first_calls(&items[i], rules, nl, out);
                i += 1;
                proof {
                    assert(name_set(out@) =~= name_set(old(out)@) + choice_fcalls(vs.take(i as int), names, nl@));
                }
            }
            assert(vs.take(vs.len() as int) == vs);
        },
        Pattern::Repeat(inner) => collect_first_calls(inner, rules, nl, out),
        Pattern::RepeatOne(inner) => collect_first_calls(inner, rules, nl, out),
        Pattern::Optional(inner) => collect_first_calls(inner, rules, nl, out),
        Pattern::NotPredicate(inner) => collect_first_calls(inner, rules, nl, out),
        Pattern::AndPredicate(inner) => collect_first_calls(inner, rules, nl, out),
        Pattern::Capture(_, inner) => collect_first_calls(inner, rules, nl, out),
        Pattern::Lenient(inner) => collect_first_calls(inner, rules, nl, out),
        Pattern::Catch { inner, recovery, .. } => {
            collect_first_calls(inner, rules, nl, out);
            collect_first_calls(recovery, rules, nl, out);
            assert(name_set(out@) =~= name_set(old(out)@) + fcalls(p@, names, nl@));
        },
        Pattern::InferBoundaryCatch { inner, .. } => collect_first_calls(inner, rules, nl, out),
        Pattern::NonTerminal(name) => {
            proof {
                lemma_name_set_push(out@, *name);
            }
            out.push(name.clone());
            assert(name_set(out@) =~= name_set(old(out)@) + fcalls(p@, names, nl@));
        },
        _ => {
            assert(name_set(out@) =~= name_set(old(out)@) + fcalls(p@, names, nl@));
        },
    }
}

/// The first-call graph: an edge `i -> j` when rule `i` can call rule `j`
/// before consuming input.
pub open spec fn first_call_graph(names: Seq<Seq<char>>, bodies: Seq<PatternV>) -> Seq<Seq<bool>> {
    Seq::new(
        bodies.len(),
        |i: int|
            Seq::new(
                bodies.len(),
                |j: int| fcalls(bodies[i], names, rule_nullable(names, bodies)).contains(names[j]),
            ),
    )
}

/// Rule `i` is left-recursive: it can reach itself in the first-call graph
/// through at least one edge (directly, or through a cycle of other rules).
pub open spec fn left_recursive(names: Seq<Seq<char>>, bodies: Seq<PatternV>, i: int) -> bool {
    let g = first_call_graph(names, bodies);
    reachable(g, g[i], i)
}

/// Per-rule left recursion, direct or indirect.
pub fn analyze_left_recursion(rules: &Vec<(String, Pattern)>) -> (lr: Vec<bool>)
    requires
        names_of_rules(rules@).len() == bodies_of_rules(rules@).len(),
    ensures
        lr@.len() == rules@.len(),
        forall|i: int|
            0 <= i < rules@.len() ==> (lr@[i] <==> left_recursive(
                names_of_rules(rules@),
                bodies_of_rules(rules@),
                i,
            )),
{
    let ghost names = names_of_rules(rules@);
    let ghost bodies = bodies_of_rules(rules@);
    let ghost g = first_call_graph(names, bodies);
    let nl = compute_nullable(rules);
    let n = rules.len();
    let mut adj: Vec<Vec<bool>> = Vec::new();
    let mut i: usize = 0;
    while i < n
        invariant
            names == names_of_rules(rules@),
            bodies == bodies_of_rules(rules@),
            g == first_call_graph(names, bodies),
            nl@ == rule_nullable(names, bodies),
            nl@.len() == n,
            n == rules@.len(),
            i <= n,
            adj@.len() == i,
            forall|a: int| 0 <= a < i ==> #[trigger] adj@[a]@ == g[a],
        decreases n - i,
    {
        let mut calls: Vec<String> = Vec::new();
        collect_first_calls(&rules[i].1, rules, &nl, &mut calls);
        assert(name_set(Seq::<String>::empty()) =~= Set::<Seq<char>>::empty());
        let mut row: Vec<bool> = Vec::new();
        let mut j: usize = 0;
        while j < n
            invariant
                names == names_of_rules(rules@),
                bodies == bodies_of_rules(rules@),
                g == first_call_graph(names, bodies),
                nl@ == rule_nullable(names, bodies),
                n == rules@.len(),
                i < n,
                j <= n,
                row@.len() == j,
                name_set(calls@) == fcalls(pview(rules@[i as int].1), names, nl@),
                forall|b: int| 0 <= b < j ==> #[trigger] row@[b] == g[i as int][b],
            decreases n - j,
        {
            let b = holds_name(&calls, &rules[j].0);
            assert(bodies[i as int] == pview(rules@[i as int].1));
            assert(names[j as int] == rules@[j as int].0@);
            row.push(b);
            j += 1;
        }
        assert(row@ =~= g[i as int]);
        adj.push(row);
        i += 1;
    }
    let ghost gm = adj@.map_values(|row: Vec<bool>| row@);
    assert(gm =~= g);
    let mut lr: Vec<bool> = Vec::new();
    let mut k: usize = 0;
    while k < n
        invariant
            names == names_of_rules(rules@),
            bodies == bodies_of_rules(rules@),
            g == first_call_graph(names, bodies),
            gm == adj@.map_values(|row: Vec<bool>| row@),
            gm == g,
            n == rules@.len(),
            adj@.len() == n,
            forall|a: int| 0 <= a < n ==> #[trigger] adj@[a]@ == g[a],
            k <= n,
            lr@.len() == k,
            forall|a: int| 0 <= a < k ==> (#[trigger] lr@[a] <==> left_recursive(names, bodies, a)),
        decreases n - k,
    {
        assert(square(gm));
        let reach = reachable_from(&adj, &adj[k]);
        lr.push(reach[k]);
        k += 1;
    }
    lr
}

// ---------------------------------------------------------------------
// Calls, catches and the ignore cascade
// ---------------------------------------------------------------------

/// Every rule a pattern calls anywhere.
pub open spec fn refs(p: PatternV) -> Set<Seq<char>>
    decreases p,
{
    match p {
        PatternV::Sequence(items) => seq_refs(items),
        PatternV::OrderedChoice(items) => seq_refs(items),
        PatternV::Repeat(inner) => refs(*inner),
        PatternV::RepeatOne(inner) => refs(*inner),
        PatternV::Optional(inner) => refs(*inner),
        PatternV::NotPredicate(inner) => refs(*inner),
        PatternV::AndPredicate(inner) => refs(*inner),
        PatternV::Capture(_, inner) => refs(*inner),
        PatternV::Lenient(inner) => refs(*inner),
        PatternV::Catch { inner, recovery, .. } => refs(*inner) + refs(*recovery),
        PatternV::InferBoundaryCatch { inner, .. } => refs(*inner),
        PatternV::NonTerminal(n) => Set::empty().insert(n),
        _ => Set::empty(),
    }
}

pub open spec fn seq_refs(items: Seq<PatternV>) -> Set<Seq<char>>
    decreases items,
{
    if items.len() == 0 {
        Set::empty()
    } else {
        seq_refs(items.drop_last()) + refs(items.last())
    }
}

/// Add to `out` every rule `p` calls.
pub(crate) fn collect_non_terminal_refs(p: &Pattern, out: &mut Vec<String>)
    ensures
        name_set(final(out)@) == name_set(old(out)@) + refs(p@),
    decreases p,
{
    match p {
        Pattern::Sequence(items) => {
            let ghost vs = pviews(items@);
            proof {
                lemma_pviews_index(items@);
            }
            let mut i: usize = 0;
            while i < items.len()
                invariant
                    *p == Pattern::Sequence(*items),
                    vs == pviews(items@),
                    vs.len() == items@.len(),
                    forall|k: int| 0 <= k < items@.len() ==> #[trigger] vs[k] == pview(items@[k]),
                    i <= items@.len(),
                    name_set(out@) == name_set(old(out)@) + seq_refs(vs.take(i as int)),
                decreases items.len() - i,
            {
                proof {
                    vstd::std_specs::vec::axiom_vec_index_decreases(*items, i as int);
                    assert(decreases_to!(*p => (*p)->Sequence_0));
                    lemma_take_step(vs, i as int);
                }
                collect_non_terminal_refs(&items[i], out);
                i += 1;
                proof {
                    assert(name_set(out@) =~= name_set(old(out)@) + seq_refs(vs.take(i as int)));
                }
            }
            assert(vs.take(vs.len() as int) == vs);
        },
        Pattern::OrderedChoice(items) => {
            let ghost vs = pviews(items@);
            proof {
                lemma_pviews_index(items@);
            }
            let mut i: usize = 0;
            while i < items.len()
                invariant
                    *p == Pattern::OrderedChoice(*items),
                    vs == pviews(items@),
                    vs.len() == items@.len(),
                    forall|k: int| 0 <= k < items@.len() ==> #[trigger] vs[k] == pview(items@[k]),
                    i <= items@.len(),
                    name_set(out@) == name_set(old(out)@) + seq_refs(vs.take(i as int)),
                decreases items.len() - i,
            {
                proof {
                    vstd::std_specs::vec::axiom_vec_index_decreases(*items, i as int);
                    assert(decreases_to!(*p => (*p)->OrderedChoice_0));
                    lemma_take_step(vs, i as int);
                }
                collect_non_terminal_refs(&items[i], out);
                i += 1;
                proof {
                    assert(name_set(out@) =~= name_set(old(out)@) + seq_refs(vs.take(i as int)));
                }
            }
            assert(vs.take(vs.len() as int) == vs);
        },
        Pattern::Repeat(inner) => collect_non_terminal_refs(inner, out),
        Pattern::RepeatOne(inner) => collect_non_terminal_refs(inner, out),
        Pattern::Optional(inner) => collect_non_terminal_refs(inner, out),
        Pattern::NotPredicate(inner) => collect_non_terminal_refs(inner, out),
        Pattern::AndPredicate(inner) => collect_non_terminal_refs(inner, out),
        Pattern::Capture(_, inner) => collect_non_terminal_refs(inner, out),
        Pattern::Lenient(inner) => collect_non_terminal_refs(inner, out),
        Pattern::Catch { inner, recovery, .. } => {
            collect_non_terminal_refs(inner, out);
            collect_non_terminal_refs(recovery, out);
            assert(name_set(out@) =~= name_set(old(out)@) + refs(p@));
        },
        Pattern::InferBoundaryCatch { inner, .. } => collect_non_terminal_refs(inner, out),
        Pattern::NonTerminal(name) => {
            proof {
                lemma_name_set_push(out@, *name);
            }
            out.push(name.clone());
            assert(name_set(out@) =~= name_set(old(out)@) + refs(p@));
        },
        _ => {
            assert(name_set(out@) =~= name_set(old(out)@) + refs(p@));
        },
    }
}

/// How many times a pattern calls rule `n`, every occurrence counted.
pub open spec fn call_count(p: PatternV, n: Seq<char>) -> nat
    decreases p,
{
    match p {
        PatternV::Sequence(items) => seq_call_count(items, n),
        PatternV::OrderedChoice(items) => seq_call_count(items, n),
        PatternV::Repeat(inner) => call_count(*inner, n),
        PatternV::RepeatOne(inner) => call_count(*inner, n),
        PatternV::Optional(inner) => call_count(*inner, n),
        PatternV::NotPredicate(inner) => call_count(*inner, n),
        PatternV::AndPredicate(inner) => call_count(*inner, n),
        PatternV::Capture(_, inner) => call_count(*inner, n),
        PatternV::Lenient(inner) => call_count(*inner, n),
        PatternV::Catch { inner, recovery, .. } => call_count(*inner, n) + call_count(*recovery, n),
        PatternV::InferBoundaryCatch { inner, .. } => call_count(*inner, n),
        PatternV::NonTerminal(m) => if m == n {
            1
        } else {
            0
        },
        _ => 0,
    }
}

pub open spec fn seq_call_count(items: Seq<PatternV>, n: Seq<char>) -> nat
    decreases items,
{
    if items.len() == 0 {
        0
    } else {
        seq_call_count(items.drop_last(), n) + call_count(items.last(), n)
    }
}

/// The count a tally holds for rule `n`: the sum of its entries named `n`.
pub open spec fn tally_of(t: Seq<(String, usize)>, n: Seq<char>) -> nat
    decreases t.len(),
{
    if t.len() == 0 {
        0
    } else {
        tally_of(t.drop_last(), n) + if t.last().0@ == n {
            t.last().1 as nat
        } else {
            0
        }
    }
}

/// The rule names the tally has an entry for, in order.
pub open spec fn tally_names(t: Seq<(String, usize)>) -> Seq<Seq<char>> {
    t.map_values(|e: (String, usize)| e.0@)
}

/// No rule name occurs twice in the tally.
pub open spec fn tally_distinct(t: Seq<(String, usize)>) -> bool {
    forall|i: int, j: int| 0 <= i < j < t.len() ==> t[i].0@ != t[j].0@
}

/// A rule is counted exactly when it is called: the tally's counts are
/// positive for the rules of `refs` and zero for all others.
pub proof fn lemma_call_count_refs(p: PatternV, n: Seq<char>)
    ensures
        call_count(p, n) > 0 <==> refs(p).contains(n),
    decreases p,
{
    match p {
        PatternV::Sequence(items) => lemma_seq_call_count_refs(items, n),
        PatternV::OrderedChoice(items) => lemma_seq_call_count_refs(items, n),
        PatternV::Repeat(inner) => lemma_call_count_refs(*inner, n),
        PatternV::RepeatOne(inner) => lemma_call_count_refs(*inner, n),
        PatternV::Optional(inner) => lemma_call_count_refs(*inner, n),
        PatternV::NotPredicate(inner) => lemma_call_count_refs(*inner, n),
        PatternV::AndPredicate(inner) => lemma_call_count_refs(*inner, n),
        PatternV::Capture(_, inner) => lemma_call_count_refs(*inner, n),
        PatternV::Lenient(inner) => lemma_call_count_refs(*inner, n),
        PatternV::Catch { inner, recovery, .. } => {
            lemma_call_count_refs(*inner, n);
            lemma_call_count_refs(*recovery, n);
        },
        PatternV::InferBoundaryCatch { inner, .. } => lemma_call_count_refs(*inner, n),
        _ => {},
    }
}

proof fn lemma_seq_call_count_refs(items: Seq<PatternV>, n: Seq<char>)
    ensures
        seq_call_count(items, n) > 0 <==> seq_refs(items).contains(n),
    decreases items,
{
    if items.len() > 0 {
        lemma_seq_call_count_refs(items.drop_last(), n);
        lemma_call_count_refs(items.last(), n);
    }
}

/// A prefix of the items calls no more often than all of them.
proof fn lemma_seq_call_count_take(items: Seq<PatternV>, j: int, n: Seq<char>)
    requires
        0 <= j <= items.len(),
    ensures
        seq_call_count(items.take(j), n) <= seq_call_count(items, n),
    decreases items.len(),
{
    if j < items.len() {
        assert(items.drop_last().take(j) == items.take(j));
        lemma_seq_call_count_take(items.drop_last(), j, n);
    } else {
        assert(items.take(j) == items);
    }
}

/// Changing entry `k` to `v` changes only the count of its name.
proof fn lemma_tally_update(t: Seq<(String, usize)>, k: int, v: usize, n: Seq<char>)
    requires
        0 <= k < t.len(),
    ensures
        tally_of(t.update(k, (t[k].0, v)), n) + (if t[k].0@ == n {
            t[k].1 as nat
        } else {
            0
        }) == tally_of(t, n) + (if t[k].0@ == n {
            v as nat
        } else {
            0
        }),
    decreases t.len(),
{
    let u = t.update(k, (t[k].0, v));
    if k < t.len() - 1 {
        assert(u.drop_last() == t.drop_last().update(k, (t[k].0, v)));
        lemma_tally_update(t.drop_last(), k, v, n);
    } else {
        assert(u.drop_last() == t.drop_last());
    }
}

/// An entry's count is part of its name's total.
proof fn lemma_tally_entry(t: Seq<(String, usize)>, k: int)
    requires
        0 <= k < t.len(),
    ensures
        t[k].1 as nat <= tally_of(t, t[k].0@),
    decreases t.len(),
{
    if k < t.len() - 1 {
        lemma_tally_entry(t.drop_last(), k);
    }
}

/// Count one call of `name`.
fn tally_bump(out: &mut Vec<(String, usize)>, name: &String)
    requires
        tally_distinct(old(out)@),
        tally_of(old(out)@, name@) < usize::MAX,
    ensures
        tally_distinct(final(out)@),
        forall|n: Seq<char>| #[trigger] tally_of(final(out)@, n) == tally_of(old(out)@, n) + if n == name@ {
            1nat
        } else {
            0nat
        },
        forall|n: Seq<char>|
            #[trigger] tally_names(final(out)@).contains(n) <==> tally_names(old(out)@).contains(n) || n == name@,
{
    let mut k: usize = 0;
    while k < out.len()
        invariant
            out@ == old(out)@,
            tally_distinct(out@),
            tally_of(out@, name@) < usize::MAX,
            k <= out@.len(),
            forall|j: int| 0 <= j < k ==> #[trigger] out@[j].0@ != name@,
        decreases out.len() - k,
    {
        if out[k].0 == *name {
            let ghost before = out@;
            proof {
                lemma_tally_entry(before, k as int);
            }
            let v = out[k].1 + 1;
            let entry = (out[k].0.clone(), v);
            out.set(k, entry);
            proof {
                assert(out@[k as int].0@ == before[k as int].0@);
                assert forall|i: int, j: int| 0 <= i < j < out@.len() implies out@[i].0@ != out@[j].0@ by {
                    assert(out@[i].0@ == before[i].0@);
                    assert(out@[j].0@ == before[j].0@);
                }
                assert forall|n: Seq<char>| #[trigger] tally_of(out@, n) == tally_of(before, n) + if n == name@ {
                    1nat
                } else {
                    0nat
                } by {
                    lemma_tally_update(before, k as int, v, n);
                }
                assert(tally_names(out@) =~= tally_names(before));
                assert(tally_names(before)[k as int] == name@);
            }
            return;
        }
        k += 1;
    }
    let ghost before = out@;
    out.push((name.clone(), 1));
    proof {
        assert(out@.drop_last() == before);
        assert forall|n: Seq<char>| #[trigger] tally_of(out@, n) == tally_of(before, n) + if n == name@ {
            1nat
        } else {
            0nat
        } by {
        }
        assert(tally_names(out@) =~= tally_names(before).push(name@));
        assert forall|n: Seq<char>|
            #[trigger] tally_names(out@).contains(n) <==> tally_names(before).contains(n) || n == name@ by {
            if tally_names(before).contains(n) {
                let j = choose|j: int| 0 <= j < tally_names(before).len() && tally_names(before)[j] == n;
                assert(tally_names(out@)[j] == n);
            }
            if tally_names(out@).contains(n) && n != name@ {
                let j = choose|j: int| 0 <= j < tally_names(out@).len() && tally_names(out@)[j] == n;
                assert(j < before.len());
                assert(tally_names(before)[j] == n);
            }
            if n == name@ {
                assert(tally_names(out@)[before.len() as int] == n);
            }
        }
    }
}

/// Add to the tally one count for every call in `p`: unlike
/// `collect_non_terminal_refs`, a rule called twice counts twice.
pub fn tally_non_terminal_refs(p: &Pattern, out: &mut Vec<(String, usize)>)
    requires
        tally_distinct(old(out)@),
        forall|n: Seq<char>| #[trigger] tally_of(old(out)@, n) + call_count(p@, n) <= usize::MAX,
    ensures
        tally_distinct(final(out)@),
        forall|n: Seq<char>| #[trigger] tally_of(final(out)@, n) == tally_of(old(out)@, n) + call_count(p@, n),
        forall|n: Seq<char>|
            #[trigger] tally_names(final(out)@).contains(n) <==> tally_names(old(out)@).contains(n) || call_count(
                p@,
                n,
            ) > 0,
    decreases p,
{
    match p {
        Pattern::Sequence(items) | Pattern::OrderedChoice(items) => {
            let ghost vs = pviews(items@);
            proof {
                lemma_pviews_index(items@);
            }
            let ghost start = out@;
            let mut i: usize = 0;
            while i < items.len()
                invariant
                    *p == Pattern::Sequence(*items) || *p == Pattern::OrderedChoice(*items),
                    vs == pviews(items@),
                    vs.len() == items@.len(),
                    forall|k: int| 0 <= k < items@.len() ==> #[trigger] vs[k] == pview(items@[k]),
                    i <= items@.len(),
                    start == old(out)@,
                    tally_distinct(out@),
                    forall|n: Seq<char>| #[trigger] tally_of(start, n) + seq_call_count(vs, n) <= usize::MAX,
                    forall|n: Seq<char>| #[trigger] tally_of(out@, n) == tally_of(start, n) + seq_call_count(vs.take(i as int), n),
                    forall|n: Seq<char>|
                        #[trigger] tally_names(out@).contains(n) <==> tally_names(start).contains(n) || seq_call_count(
                            vs.take(i as int),
                            n,
                        ) > 0,
                decreases items.len() - i,
            {
                proof {
                    vstd::std_specs::vec::axiom_vec_index_decreases(*items, i as int);
                    if *p == Pattern::Sequence(*items) {
                        assert(decreases_to!(*p => (*p)->Sequence_0));
                    } else {
                        assert(decreases_to!(*p => (*p)->OrderedChoice_0));
                    }
                    lemma_take_step(vs, i as int);
                    assert forall|n: Seq<char>| #[trigger] tally_of(out@, n) + call_count(items@[i as int]@, n) <= usize::MAX by {
                        lemma_seq_call_count_take(vs, i + 1, n);
                    }
                }
                let ghost mid = out@;
                tally_non_terminal_refs(&items[i], out);
                i += 1;
                proof {
                    assert forall|n: Seq<char>| #[trigger] tally_of(out@, n) == tally_of(start, n) + seq_call_count(vs.take(i as int), n) by {
                        assert(tally_of(mid, n) == tally_of(start, n) + seq_call_count(vs.take(i - 1), n));
                    }
                    assert forall|n: Seq<char>|
                        #[trigger] tally_names(out@).contains(n) <==> tally_names(start).contains(n) || seq_call_count(
                            vs.take(i as int),
                            n,
                        ) > 0 by {
                        assert(tally_of(mid, n) == tally_of(start, n) + seq_call_count(vs.take(i - 1), n));
                        assert(tally_of(out@, n) == tally_of(mid, n) + call_count(items@[i - 1]@, n));
                        assert(tally_names(mid).contains(n) <==> tally_names(start).contains(n) || seq_call_count(
                            vs.take(i - 1),
                            n,
                        ) > 0);
                    }
                }
            }
            assert(vs.take(vs.len() as int) == vs);
        },
        Pattern::Repeat(inner) => tally_non_terminal_refs(inner, out),
        Pattern::RepeatOne(inner) => tally_non_terminal_refs(inner, out),
        Pattern::Optional(inner) => tally_non_terminal_refs(inner, out),
        Pattern::NotPredicate(inner) => tally_non_terminal_refs(inner, out),
        Pattern::AndPredicate(inner) => tally_non_terminal_refs(inner, out),
        Pattern::Capture(_, inner) => tally_non_terminal_refs(inner, out),
        Pattern::Lenient(inner) => tally_non_terminal_refs(inner, out),
        Pattern::Catch { inner, recovery, .. } => {
            let ghost start = out@;
            tally_non_terminal_refs(inner, out);
            let ghost mid = out@;
            tally_non_terminal_refs(recovery, out);
            assert forall|n: Seq<char>| #[trigger] tally_of(out@, n) == tally_of(start, n) + call_count(p@, n) by {
                assert(tally_of(mid, n) == tally_of(start, n) + call_count(inner@, n));
            }
            assert forall|n: Seq<char>|
                #[trigger] tally_names(out@).contains(n) <==> tally_names(start).contains(n) || call_count(p@, n)
                    > 0 by {
                assert(tally_names(mid).contains(n) <==> tally_names(start).contains(n) || call_count(inner@, n) > 0);
                assert(tally_of(mid, n) == tally_of(start, n) + call_count(inner@, n));
                assert(tally_of(out@, n) == tally_of(start, n) + call_count(p@, n));
            }
        },
        Pattern::InferBoundaryCatch { inner, .. } => tally_non_terminal_refs(inner, out),
        Pattern::NonTerminal(name) => {
            assert(call_count(p@, name@) == 1);
            tally_bump(out, name);
        },
        _ => {},
    }
}

/// The pattern holds a recovery catch somewhere.
pub open spec fn has_catch(p: PatternV) -> bool
    decreases p,
{
    match p {
        PatternV::Catch { .. } => true,
        PatternV::InferBoundaryCatch { .. } => true,
        PatternV::Sequence(items) => any_has_catch(items),
        PatternV::OrderedChoice(items) => any_has_catch(items),
        PatternV::Repeat(inner) => has_catch(*inner),
        PatternV::RepeatOne(inner) => has_catch(*inner),
        PatternV::Optional(inner) => has_catch(*inner),
        PatternV::NotPredicate(inner) => has_catch(*inner),
        PatternV::AndPredicate(inner) => has_catch(*inner),
        PatternV::Capture(_, inner) => has_catch(*inner),
        PatternV::Lenient(inner) => has_catch(*inner),
        _ => false,
    }
}

pub open spec fn any_has_catch(items: Seq<PatternV>) -> bool
    decreases items,
{
    if items.len() == 0 {
        false
    } else {
        any_has_catch(items.drop_last()) || has_catch(items.last())
    }
}

/// Whether the pattern holds a recovery catch.
fn body_contains_catch(p: &Pattern) -> (b: bool)
    ensures
        b == has_catch(p@),
    decreases p,
{
    match p {
        Pattern::Catch { .. } => true,
        Pattern::InferBoundaryCatch { .. } => true,
        Pattern::Sequence(items) | Pattern::OrderedChoice(items) => {
            let ghost vs = pviews(items@);
            proof {
                lemma_pviews_index(items@);
            }
            let mut acc = false;
            let mut i: usize = 0;
            while i < items.len()
                invariant
                    *p == Pattern::Sequence(*items) || *p == Pattern::OrderedChoice(*items),
                    vs == pviews(items@),
                    vs.len() == items@.len(),
                    forall|k: int| 0 <= k < items@.len() ==> #[trigger] vs[k] == pview(items@[k]),
                    i <= items@.len(),
                    acc == any_has_catch(vs.take(i as int)),
                decreases items.len() - i,
            {
                proof {
                    vstd::std_specs::vec::axiom_vec_index_decreases(*items, i as int);
                    if *p == Pattern::Sequence(*items) {
                        assert(decreases_to!(*p => (*p)->Sequence_0));
                    } else {
                        assert(decreases_to!(*p => (*p)->OrderedChoice_0));
                    }
                    lemma_take_step(vs, i as int);
                }
                let b = body_contains_catch(&items[i]);
                acc = acc || b;
                i += 1;
            }
            assert(vs.take(vs.len() as int) == vs);
            acc
        },
        Pattern::Repeat(inner) => body_contains_catch(inner),
        Pattern::RepeatOne(inner) => body_contains_catch(inner),
        Pattern::Optional(inner) => body_contains_catch(inner),
        Pattern::NotPredicate(inner) => body_contains_catch(inner),
        Pattern::AndPredicate(inner) => body_contains_catch(inner),
        Pattern::Capture(_, inner) => body_contains_catch(inner),
        Pattern::Lenient(inner) => body_contains_catch(inner),
        _ => false,
    }
}

/// The reserved name of the ignore subgraph's root.
pub open spec fn ignore_root() -> Seq<char> {
    seq!['i', 'g', 'n', 'o', 'r', 'e']
}

/// `"ignore"` as a `String`.
pub fn ignore_root_name() -> (s: String)
    ensures
        s@ == ignore_root(),
{
    let s = "ignore".to_owned();
    proof {
        reveal_strlit("ignore");
    }
    assert(s@ =~= ignore_root());
    s
}

/// The call graph: an edge `i -> j` when rule `i` calls rule `j` anywhere.
pub open spec fn call_graph(names: Seq<Seq<char>>, bodies: Seq<PatternV>) -> Seq<Seq<bool>> {
    Seq::new(bodies.len(), |i: int| Seq::new(bodies.len(), |j: int| refs(bodies[i]).contains(names[j])))
}

/// Rule `i` is in the ignore subgraph: reachable through calls from the
/// rule called `ignore`, and holding no recovery catch.
pub open spec fn ignore_bit(names: Seq<Seq<char>>, bodies: Seq<PatternV>, i: int) -> bool {
    &&& reachable(
        call_graph(names, bodies),
        Seq::new(names.len(), |j: int| names[j] == ignore_root()),
        i,
    )
    &&& !has_catch(bodies[i])
}

/// Per-rule ignore bit. A grammar without an `ignore` rule has none set.
pub fn compute_ignore_rules(rules: &Vec<(String, Pattern)>) -> (bits: Vec<bool>)
    ensures
        bits@.len() == rules@.len(),
        forall|i: int|
            0 <= i < rules@.len() ==> (bits@[i] <==> ignore_bit(
                names_of_rules(rules@),
                bodies_of_rules(rules@),
                i,
            )),
{
    let ghost names = names_of_rules(rules@);
    let ghost bodies = bodies_of_rules(rules@);
    let ghost g = call_graph(names, bodies);
    let ghost st = Seq::new(names.len(), |j: int| names[j] == ignore_root());
    let root = ignore_root_name();
    let n = rules.len();
    let mut adj: Vec<Vec<bool>> = Vec::new();
    let mut starts: Vec<bool> = Vec::new();
    let mut i: usize = 0;
    while i < n
        invariant
            names == names_of_rules(rules@),
            bodies == bodies_of_rules(rules@),
            g == call_graph(names, bodies),
            st == Seq::new(names.len(), |j: int| names[j] == ignore_root()),
            root@ == ignore_root(),
            n == rules@.len(),
            i <= n,
            adj@.len() == i,
            starts@.len() == i,
            forall|a: int| 0 <= a < i ==> #[trigger] adj@[a]@ == g[a],
            forall|a: int| 0 <= a < i ==> #[trigger] starts@[a] == st[a],
        decreases n - i,
    {
        let mut calls: Vec<String> = Vec::new();
        collect_non_terminal_refs(&rules[i].1, &mut calls);
        assert(name_set(Seq::<String>::empty()) =~= Set::<Seq<char>>::empty());
        let mut row: Vec<bool> = Vec::new();
        let mut j: usize = 0;
        while j < n
            invariant
                names == names_of_rules(rules@),
                bodies == bodies_of_rules(rules@),
                g == call_graph(names, bodies),
                n == rules@.len(),
                i < n,
                j <= n,
                row@.len() == j,
                name_set(calls@) == refs(pview(rules@[i as int].1)),
                forall|b: int| 0 <= b < j ==> #[trigger] row@[b] == g[i as int][b],
            decreases n - j,
        {
            let b = holds_name(&calls, &rules[j].0);
            assert(bodies[i as int] == pview(rules@[i as int].1));
            assert(names[j as int] == rules@[j as int].0@);
            row.push(b);
            j += 1;
        }
        assert(row@ =~= g[i as int]);
        adj.push(row);
        let is_root = rules[i].0 == root;
        assert(names[i as int] == rules@[i as int].0@);
        starts.push(is_root);
        i += 1;
    }
    let ghost gm = adj@.map_values(|row: Vec<bool>| row@);
    assert(gm =~= g);
    assert(starts@ =~= st);
    let reach = reachable_from(&adj, &starts);
    let mut bits: Vec<bool> = Vec::new();
    let mut k: usize = 0;
    while k < n
        invariant
            names == names_of_rules(rules@),
            bodies == bodies_of_rules(rules@),
            g == call_graph(names, bodies),
            gm == g,
            st == starts@,
            st == Seq::new(names.len(), |j: int| names[j] == ignore_root()),
            n == rules@.len(),
            reach@.len() == n,
            forall|j: int| 0 <= j < n ==> (reach@[j] <==> reachable(gm, starts@, j)),
            k <= n,
            bits@.len() == k,
            forall|a: int| 0 <= a < k ==> (#[trigger] bits@[a] <==> ignore_bit(names, bodies, a)),
        decreases n - k,
    {
        let pinned = body_contains_catch(&rules[k].1);
        assert(bodies[k as int] == pview(rules@[k as int].1));
        bits.push(reach[k] && !pinned);
        k += 1;
    }
    bits
}

} // verus!
