//! FIRST and FOLLOW sets of grammar rules, and the resolver that turns
//! `^^label` catches into explicit boundary catches from FOLLOW.
//!
//! Sets are one rule reference deep: a call stays an opaque
//! [`FollowElement::Rule`] rather than being expanded to what the rule
//! matches. Captures are kept: `@punctuation ','` and `@operator ','`
//! are distinct elements.
use vstd::prelude::*;

use vstd::set_lib::*;

use super::analysis::{
    all_nullable, bodies_of_rules, compute_nullable, find_rule, index_of, lemma_index_of,
    names_of_rules, pattern_nullable, pnullable, rule_nullable,
};
use super::compiler::{CompileError, items_free, lemma_items_free_all, lemma_resolved_view, placeholder_free, resolved};
use super::parser::{lower_boundary_catch, lowered_catch, root_name, root_rule_name, stop_loop_view};
use super::pattern::{Pattern, PatternV, lemma_pviews_index, pview, pviews};
use crate::pegvm::charset::ranges_set;
use crate::pegvm::CharSet;

verus! {

/// One element of a FIRST or FOLLOW set.
#[derive(Debug)]
pub enum FollowElement {
    Literal(Vec<u8>),
    CharClass(CharSet),
    Rule(String),
    Capture { kind: String, inner: Box<FollowElement> },
    /// End of input: follows the `root` rule.
    Eof,
}

/// Abstract value of a [`FollowElement`].
pub enum FollowV {
    Literal(Seq<u8>),
    CharClass(Seq<(char, char)>),
    Rule(Seq<char>),
    Capture(Seq<char>, Box<FollowV>),
    Eof,
}

/// The abstract value of an element.
pub open spec fn fview(e: FollowElement) -> FollowV
    decreases e,
{
    match e {
        FollowElement::Literal(b) => FollowV::Literal(b@),
        FollowElement::CharClass(cs) => FollowV::CharClass(cs.range_seq()),
        FollowElement::Rule(n) => FollowV::Rule(n@),
        FollowElement::Capture { kind, inner } => FollowV::Capture(kind@, Box::new(fview(*inner))),
        FollowElement::Eof => FollowV::Eof,
    }
}

/// The class of every character, as [`CharSet::any`] holds it.
pub open spec fn any_class() -> Seq<(char, char)> {
    seq![('\0', '\u{10FFFF}')]
}

fn copy_bytes(b: &Vec<u8>) -> (r: Vec<u8>)
    ensures
        r@ == b@,
{
    let mut r: Vec<u8> = Vec::with_capacity(b.len());
    let mut i: usize = 0;
    while i < b.len()
        invariant
            i <= b@.len(),
            r@ == b@.take(i as int),
        decreases b.len() - i,
    {
        r.push(b[i]);
        i += 1;
        assert(r@ =~= b@.take(i as int));
    }
    assert(b@.take(b@.len() as int) =~= b@);
    r
}

/// A copy of `e`.
pub fn copy_element(e: &FollowElement) -> (r: FollowElement)
    ensures
        fview(r) == fview(*e),
    decreases e,
{
    match e {
        FollowElement::Literal(b) => FollowElement::Literal(copy_bytes(b)),
        FollowElement::CharClass(cs) => FollowElement::CharClass(cs.clone()),
        FollowElement::Rule(n) => FollowElement::Rule(n.clone()),
        FollowElement::Capture { kind, inner } => FollowElement::Capture {
            kind: kind.clone(),
            inner: Box::new(copy_element(inner)),
        },
        FollowElement::Eof => FollowElement::Eof,
    }
}

fn same_bytes_vec(a: &Vec<u8>, b: &Vec<u8>) -> (r: bool)
    ensures
        r == (a@ == b@),
{
    crate::highlight::theme::same_bytes(a.as_slice(), b.as_slice())
}

/// The two elements have the same abstract value.
pub fn same_element(a: &FollowElement, b: &FollowElement) -> (r: bool)
    ensures
        r == (fview(*a) == fview(*b)),
    decreases a,
{
    match (a, b) {
        (FollowElement::Literal(x), FollowElement::Literal(y)) => same_bytes_vec(x, y),
        (FollowElement::CharClass(x), FollowElement::CharClass(y)) => x.same_as(y),
        (FollowElement::Rule(x), FollowElement::Rule(y)) => {
            let r = *x == *y;
            r
        },
        (
            FollowElement::Capture { kind: k1, inner: i1 },
            FollowElement::Capture { kind: k2, inner: i2 },
        ) => {
            if *k1 != *k2 {
                return false;
            }
            let r = same_element(i1, i2);
            proof {
                if r {
                    assert(fview(*a) == fview(*b));
                } else {
                    assert(fview(*a) != fview(*b)) by {
                        if fview(*a) == fview(*b) {
                            assert(fview(**i1) == fview(*a)->Capture_1);
                        }
                    }
                }
            }
            r
        },
        (FollowElement::Eof, FollowElement::Eof) => true,
        _ => false,
    }
}

/// A FIRST or FOLLOW set: elements without repeats (by value), in the
/// order they were added.
pub struct FollowSet {
    items: Vec<FollowElement>,
}

/// Abstract values of a list of elements.
pub open spec fn fviews(items: Seq<FollowElement>) -> Seq<FollowV> {
    items.map_values(|e: FollowElement| fview(e))
}

proof fn lemma_fviews_push(s: Seq<FollowElement>, e: FollowElement)
    ensures
        fviews(s.push(e)) == fviews(s).push(fview(e)),
{
    assert(fviews(s.push(e)) =~= fviews(s).push(fview(e)));
}

/// `fviews` of the first `i + 1` elements extends that of the first `i`.
proof fn lemma_fviews_take(s: Seq<FollowElement>, i: int)
    requires
        0 <= i < s.len(),
    ensures
        fviews(s.take(i + 1)) == fviews(s.take(i)).push(fview(s[i])),
        fviews(s.take(i + 1)).to_set() == fviews(s.take(i)).to_set().insert(fview(s[i])),
{
    assert(s.take(i + 1) =~= s.take(i).push(s[i]));
    lemma_fviews_push(s.take(i), s[i]);
    fviews(s.take(i)).lemma_push_to_set_commute(fview(s[i]));
}

impl FollowSet {
    /// The elements, in insertion order.
    pub closed spec fn elems(&self) -> Seq<FollowV> {
        fviews(self.items@)
    }

    #[verifier::type_invariant]
    spec fn inv(self) -> bool {
        fviews(self.items@).no_duplicates()
    }

    /// The elements as a set.
    pub open spec fn members(&self) -> Set<FollowV> {
        self.elems().to_set()
    }

    /// The empty set.
    pub fn new() -> (s: FollowSet)
        ensures
            s.members() == Set::<FollowV>::empty(),
            s.elems() == Seq::<FollowV>::empty(),
    {
        let s = FollowSet { items: Vec::new() };
        assert(fviews(s.items@) =~= Seq::<FollowV>::empty());
        assert(s.members() =~= Set::<FollowV>::empty());
        s
    }

    /// Number of elements.
    pub fn len(&self) -> (n: usize)
        ensures
            n == self.elems().len(),
            n == self.members().len(),
    {
        proof {
            use_type_invariant(self);
            self.elems().unique_seq_to_set();
        }
        self.items.len()
    }

    /// No element.
    pub fn is_empty(&self) -> (b: bool)
        ensures
            b == (self.members() == Set::<FollowV>::empty()),
    {
        proof {
            use_type_invariant(self);
            self.elems().unique_seq_to_set();
            if self.items@.len() != 0 {
                assert(self.members().contains(self.elems()[0]));
            } else {
                assert(self.members() =~= Set::<FollowV>::empty());
            }
        }
        self.items.len() == 0
    }

    /// The elements, in insertion order.
    pub fn elements(&self) -> (r: &[FollowElement])
        ensures
            fviews(r@) == self.elems(),
            self.elems().no_duplicates(),
    {
        proof {
            use_type_invariant(self);
        }
        self.items.as_slice()
    }

    /// Whether an element with the value of `e` is present.
    pub fn contains(&self, e: &FollowElement) -> (b: bool)
        ensures
            b == self.members().contains(fview(*e)),
    {
        let mut i: usize = 0;
        while i < self.items.len()
            invariant
                i <= self.items@.len(),
                forall|k: int| 0 <= k < i ==> fview(#[trigger] self.items@[k]) != fview(*e),
            decreases self.items.len() - i,
        {
            if same_element(&self.items[i], e) {
                assert(self.elems()[i as int] == fview(*e));
                return true;
            }
            i += 1;
        }
        proof {
            if self.members().contains(fview(*e)) {
                let k = choose|k: int| 0 <= k < self.elems().len() && self.elems()[k] == fview(*e);
                assert(fview(self.items@[k]) == fview(*e));
            }
        }
        false
    }

    /// Add `e`; true when it was not there yet.
    pub fn insert(&mut self, e: FollowElement) -> (added: bool)
        ensures
            final(self).members() == old(self).members().insert(fview(e)),
            added == !old(self).members().contains(fview(e)),
    {
        if self.contains(&e) {
            proof {
                assert(self.members().insert(fview(e)) =~= self.members());
            }
            return false;
        }
        proof {
            use_type_invariant(&*self);
        }
        let ghost old_items = self.items@;
        let ghost v = fview(e);
        let mut items = Vec::new();
        std::mem::swap(&mut items, &mut self.items);
        items.push(e);
        proof {
            assert(items@ == old_items.push(items@.last()));
            lemma_fviews_push(old_items, items@.last());
            fviews(old_items).lemma_push_to_set_commute(v);
            assert forall|a: int, b: int|
                0 <= a < b < fviews(items@).len() implies fviews(items@)[a] != fviews(items@)[b] by {
                if b == fviews(items@).len() - 1 {
                    assert(fviews(old_items).contains(fviews(old_items)[a]));
                }
            }
        }
        *self = FollowSet { items };
        true
    }

    /// Add every element of `other`; true when anything was added.
    pub fn extend_from(&mut self, other: &FollowSet) -> (changed: bool)
        ensures
            final(self).members() == old(self).members().union(other.members()),
            changed == (final(self).members() != old(self).members()),
    {
        let ghost start = self.members();
        let mut changed = false;
        let mut i: usize = 0;
        while i < other.items.len()
            invariant
                i <= other.items@.len(),
                self.members() == start.union(fviews(other.items@.take(i as int)).to_set()),
                changed == (self.members() != start),
            decreases other.items.len() - i,
        {
            let ghost prev = self.members();
            let added = self.insert(copy_element(&other.items[i]));
            proof {
                if !added {
                    assert(self.members() =~= prev);
                }
                lemma_fviews_take(other.items@, i as int);
                let v = fview(other.items@[i as int]);
                assert(self.members() =~= start.union(fviews(other.items@.take(i + 1)).to_set()));
                if added {
                    assert(self.members().contains(v));
                    assert(!start.contains(v));
                    assert(self.members() != start);
                }
            }
            changed = changed || added;
            i += 1;
        }
        proof {
            assert(other.items@.take(other.items@.len() as int) =~= other.items@);
        }
        changed
    }

    /// A copy of the set.
    pub fn copy(&self) -> (s: FollowSet)
        ensures
            s.members() == self.members(),
            s.elems() == self.elems(),
    {
        proof {
            use_type_invariant(self);
        }
        let mut items: Vec<FollowElement> = Vec::with_capacity(self.items.len());
        let mut i: usize = 0;
        while i < self.items.len()
            invariant
                i <= self.items@.len(),
                fviews(items@) == fviews(self.items@.take(i as int)),
            decreases self.items.len() - i,
        {
            let ghost before = items@;
            items.push(copy_element(&self.items[i]));
            proof {
                lemma_fviews_push(before, items@.last());
                lemma_fviews_take(self.items@, i as int);
            }
            i += 1;
        }
        assert(self.items@.take(self.items@.len() as int) =~= self.items@);
        FollowSet { items }
    }
}

// ---------------------------------------------------------------------
// FIRST
// ---------------------------------------------------------------------

/// FIRST of a pattern, given the rules' nullability: what the first
/// thing it matches can be. Predicates consume nothing: `&p` contributes
/// FIRST(p), `!p` nothing. A catch's recovery runs only on failure and
/// does not contribute.
pub open spec fn first_of(p: PatternV, names: Seq<Seq<char>>, nl: Seq<bool>) -> Set<FollowV>
    decreases p,
{
    match p {
        PatternV::Literal(b) => set![FollowV::Literal(b)],
        PatternV::CharClass(r) => set![FollowV::CharClass(r)],
        PatternV::AnyChar => set![FollowV::CharClass(any_class())],
        PatternV::NonTerminal(n) => set![FollowV::Rule(n)],
        PatternV::Sequence(items) => seq_first(items, names, nl),
        PatternV::OrderedChoice(items) => choice_first(items, names, nl),
        PatternV::Repeat(inner) => first_of(*inner, names, nl),
        PatternV::RepeatOne(inner) => first_of(*inner, names, nl),
        PatternV::Optional(inner) => first_of(*inner, names, nl),
        PatternV::NotPredicate(_) => Set::empty(),
        PatternV::AndPredicate(inner) => first_of(*inner, names, nl),
        PatternV::Capture(k, inner) => first_of(*inner, names, nl).map(
            |e: FollowV| FollowV::Capture(k, Box::new(e)),
        ),
        PatternV::Catch { inner, .. } => first_of(*inner, names, nl),
        PatternV::Lenient(inner) => first_of(*inner, names, nl),
        PatternV::InferBoundaryCatch { inner, .. } => first_of(*inner, names, nl),
    }
}

/// FIRST of a sequence: that of each item up to and including the first
/// item that cannot match empty.
pub open spec fn seq_first(items: Seq<PatternV>, names: Seq<Seq<char>>, nl: Seq<bool>) -> Set<FollowV>
    decreases items,
{
    if items.len() == 0 {
        Set::empty()
    } else {
        seq_first(items.drop_last(), names, nl).union(
            if all_nullable(items.drop_last(), names, nl) {
                first_of(items.last(), names, nl)
            } else {
                Set::empty()
            },
        )
    }
}

/// FIRST of a choice: the union over its alternatives.
pub open spec fn choice_first(items: Seq<PatternV>, names: Seq<Seq<char>>, nl: Seq<bool>) -> Set<
    FollowV,
>
    decreases items,
{
    if items.len() == 0 {
        Set::empty()
    } else {
        choice_first(items.drop_last(), names, nl).union(first_of(items.last(), names, nl))
    }
}

proof fn lemma_take_last(s: Seq<PatternV>, i: int)
    requires
        0 <= i < s.len(),
    ensures
        s.take(i + 1).drop_last() == s.take(i),
        s.take(i + 1).last() == s[i],
{
    assert(s.take(i + 1).drop_last() =~= s.take(i));
}

/// Mapping after inserting is inserting the image after mapping.
proof fn lemma_map_insert<A, B>(s: Set<A>, a: A, f: spec_fn(A) -> B)
    ensures
        s.insert(a).map(f) == s.map(f).insert(f(a)),
{
    assert forall|x: B| #[trigger] s.insert(a).map(f).contains(x) == s.map(f).insert(f(a)).contains(x) by {
        if s.insert(a).map(f).contains(x) {
            let y = choose|y: A| s.insert(a).contains(y) && x == f(y);
            if y != a {
                assert(s.contains(y));
            }
        }
        if s.map(f).insert(f(a)).contains(x) {
            if x == f(a) {
                assert(s.insert(a).contains(a));
            } else {
                let y = choose|y: A| s.contains(y) && x == f(y);
                assert(s.insert(a).contains(y));
            }
        }
    }
    assert(s.insert(a).map(f) =~= s.map(f).insert(f(a)));
}

/// Wrap every element of `inner` in a capture of kind `kind`.
fn wrap_capture(kind: &String, inner: &FollowSet) -> (out: FollowSet)
    ensures
        out.members() == inner.members().map(|e: FollowV| FollowV::Capture(kind@, Box::new(e))),
{
    let mut out = FollowSet::new();
    let elems = inner.elements();
    let mut i: usize = 0;
    while i < elems.len()
        invariant
            i <= elems@.len(),
            fviews(elems@) == inner.elems(),
            out.members() == fviews(elems@.take(i as int)).to_set().map(
                |e: FollowV| FollowV::Capture(kind@, Box::new(e)),
            ),
        decreases elems.len() - i,
    {
        let e = FollowElement::Capture { kind: kind.clone(), inner: Box::new(copy_element(&elems[i])) };
        out.insert(e);
        proof {
            let f = |e: FollowV| FollowV::Capture(kind@, Box::new(e));
            lemma_fviews_take(elems@, i as int);
            lemma_map_insert(fviews(elems@.take(i as int)).to_set(), fview(elems@[i as int]), f);
        }
        i += 1;
    }
    assert(elems@.take(elems@.len() as int) =~= elems@);
    out
}

/// FIRST of a pattern, given the rules' nullability `nl`.
pub fn pattern_first(p: &Pattern, rules: &Vec<(String, Pattern)>, nl: &Vec<bool>) -> (out: FollowSet)
    requires
        nl@.len() == rules@.len(),
    ensures
        out.members() == first_of(p@, names_of_rules(rules@), nl@),
    decreases p,
{
    let ghost names = names_of_rules(rules@);
    match p {
        Pattern::Literal(b) => {
            let mut out = FollowSet::new();
            out.insert(FollowElement::Literal(copy_bytes(b)));
            proof {
                assert(out.members() =~= set![FollowV::Literal(b@)]);
            }
            out
        },
        Pattern::CharClass(cs) => {
            let mut out = FollowSet::new();
            out.insert(FollowElement::CharClass(cs.clone()));
            proof {
                assert(out.members() =~= set![FollowV::CharClass(cs.range_seq())]);
            }
            out
        },
        Pattern::AnyChar => {
            let mut out = FollowSet::new();
            out.insert(FollowElement::CharClass(CharSet::any()));
            proof {
                assert(out.members() =~= set![FollowV::CharClass(any_class())]);
            }
            out
        },
        Pattern::NonTerminal(n) => {
            let mut out = FollowSet::new();
            out.insert(FollowElement::Rule(n.clone()));
            proof {
                assert(out.members() =~= set![FollowV::Rule(n@)]);
            }
            out
        },
        Pattern::Sequence(items) => {
            let ghost vs = pviews(items@);
            proof {
                lemma_pviews_index(items@);
            }
            let mut out = FollowSet::new();
            let mut acc_nullable = true;
            let mut i: usize = 0;
            while i < items.len()
                invariant
                    *p == Pattern::Sequence(*items),
                    vs == pviews(items@),
                    vs.len() == items@.len(),
                    forall|k: int| 0 <= k < items@.len() ==> #[trigger] vs[k] == pview(items@[k]),
                    names == names_of_rules(rules@),
                    nl@.len() == rules@.len(),
                    i <= items@.len(),
                    acc_nullable == all_nullable(vs.take(i as int), names, nl@),
                    out.members() == seq_first(vs.take(i as int), names, nl@),
                decreases items.len() - i,
            {
                proof {
                    vstd::std_specs::vec::axiom_vec_index_decreases(*items, i as int);
                    assert(decreases_to!(*p => (*p)->Sequence_0));
                    lemma_take_last(vs, i as int);
                }
                if acc_nullable {
                    let f = pattern_first(&items[i], rules, nl);
                    out.extend_from(&f);
                } else {
                    proof {
                        assert(out.members().union(Set::empty()) =~= out.members());
                    }
                }
                let b = pattern_nullable(&items[i], rules, nl);
                acc_nullable = acc_nullable && b;
                i += 1;
            }
            assert(vs.take(vs.len() as int) == vs);
            out
        },
        Pattern::OrderedChoice(items) => {
            let ghost vs = pviews(items@);
            proof {
                lemma_pviews_index(items@);
            }
            let mut out = FollowSet::new();
            let mut i: usize = 0;
            while i < items.len()
                invariant
                    *p == Pattern::OrderedChoice(*items),
                    vs == pviews(items@),
                    vs.len() == items@.len(),
                    forall|k: int| 0 <= k < items@.len() ==> #[trigger] vs[k] == pview(items@[k]),
                    names == names_of_rules(rules@),
                    nl@.len() == rules@.len(),
                    i <= items@.len(),
                    out.members() == choice_first(vs.take(i as int), names, nl@),
                decreases items.len() - i,
            {
                proof {
                    vstd::std_specs::vec::axiom_vec_index_decreases(*items, i as int);
                    assert(decreases_to!(*p => (*p)->OrderedChoice_0));
                    lemma_take_last(vs, i as int);
                }
                let f = pattern_first(&items[i], rules, nl);
                out.extend_from(&f);
                i += 1;
            }
            assert(vs.take(vs.len() as int) == vs);
            out
        },
        Pattern::Repeat(inner) => pattern_first(inner, rules, nl),
        Pattern::RepeatOne(inner) => pattern_first(inner, rules, nl),
        Pattern::Optional(inner) => pattern_first(inner, rules, nl),
        Pattern::NotPredicate(_) => FollowSet::new(),
        Pattern::AndPredicate(inner) => pattern_first(inner, rules, nl),
        Pattern::Capture(kind, inner) => {
            let f = pattern_first(inner, rules, nl);
            wrap_capture(kind, &f)
        },
        Pattern::Catch { inner, .. } => pattern_first(inner, rules, nl),
        Pattern::Lenient(inner) => pattern_first(inner, rules, nl),
        Pattern::InferBoundaryCatch { inner, .. } => pattern_first(inner, rules, nl),
    }
}

/// FIRST set per rule, by rule position.
pub fn compute_first(rules: &Vec<(String, Pattern)>) -> (first: Vec<FollowSet>)
    ensures
        first@.len() == rules@.len(),
        forall|i: int|
            0 <= i < rules@.len() ==> (#[trigger] first@[i]).members() == first_of(
                bodies_of_rules(rules@)[i],
                names_of_rules(rules@),
                rule_nullable(names_of_rules(rules@), bodies_of_rules(rules@)),
            ),
{
    let nl = compute_nullable(rules);
    let mut first: Vec<FollowSet> = Vec::new();
    let mut i: usize = 0;
    while i < rules.len()
        invariant
            i <= rules@.len(),
            first@.len() == i,
            nl@.len() == rules@.len(),
            nl@ == rule_nullable(names_of_rules(rules@), bodies_of_rules(rules@)),
            forall|k: int|
                0 <= k < i ==> (#[trigger] first@[k]).members() == first_of(
                    bodies_of_rules(rules@)[k],
                    names_of_rules(rules@),
                    nl@,
                ),
        decreases rules.len() - i,
    {
        let f = pattern_first(&rules[i].1, rules, &nl);
        first.push(f);
        i += 1;
    }
    first
}

// ---------------------------------------------------------------------
// FOLLOW
// ---------------------------------------------------------------------

/// What trails the start of `items` inside an enclosing pattern that is
/// followed by `t`: FIRST of the items, and `t` when they can all match
/// empty.
pub open spec fn suffix_trailing(
    items: Seq<PatternV>,
    t: Set<FollowV>,
    names: Seq<Seq<char>>,
    nl: Seq<bool>,
) -> Set<FollowV> {
    seq_first(items, names, nl).union(
        if all_nullable(items, names, nl) {
            t
        } else {
            Set::empty()
        },
    )
}

/// The pairs `(n, e)` for `e` in `t`.
pub open spec fn called_with(n: Seq<char>, t: Set<FollowV>) -> Set<(Seq<char>, FollowV)> {
    Set::new(|x: (Seq<char>, FollowV)| x.0 == n && t.contains(x.1))
}

/// What a pattern followed by `t` says of the rules it calls: a pair
/// `(n, e)` when `e` can follow a call of `n` inside it. A repetition's
/// body is also followed by its own FIRST; a predicate's body by
/// nothing; a catch's body and recovery both by `t`.
pub open spec fn follows_of(p: PatternV, t: Set<FollowV>, names: Seq<Seq<char>>, nl: Seq<bool>) -> Set<
    (Seq<char>, FollowV),
>
    decreases p, 0int,
{
    match p {
        PatternV::NonTerminal(n) => called_with(n, t),
        PatternV::Sequence(items) => seq_follows(items, items.len() as int, t, names, nl),
        PatternV::OrderedChoice(items) => choice_follows(items, items.len() as int, t, names, nl),
        PatternV::Repeat(inner) => follows_of(*inner, t.union(first_of(*inner, names, nl)), names, nl),
        PatternV::RepeatOne(inner) => follows_of(*inner, t.union(first_of(*inner, names, nl)), names, nl),
        PatternV::Optional(inner) => follows_of(*inner, t, names, nl),
        PatternV::NotPredicate(_) => Set::empty(),
        PatternV::AndPredicate(inner) => follows_of(*inner, Set::empty(), names, nl),
        PatternV::Capture(_, inner) => follows_of(*inner, t, names, nl),
        PatternV::Catch { inner, recovery, .. } => follows_of(*inner, t, names, nl).union(
            follows_of(*recovery, t, names, nl),
        ),
        PatternV::Lenient(inner) => follows_of(*inner, t, names, nl),
        PatternV::InferBoundaryCatch { inner, .. } => follows_of(*inner, t, names, nl),
        _ => Set::empty(),
    }
}

/// Follow pairs of the first `k` items of a sequence followed by `t`:
/// item `i` is followed by what trails the items after it.
pub open spec fn seq_follows(
    items: Seq<PatternV>,
    k: int,
    t: Set<FollowV>,
    names: Seq<Seq<char>>,
    nl: Seq<bool>,
) -> Set<(Seq<char>, FollowV)>
    decreases items, k,
{
    if k <= 0 || k > items.len() {
        Set::empty()
    } else {
        seq_follows(items, k - 1, t, names, nl).union(
            follows_of(
                items[k - 1],
                suffix_trailing(items.subrange(k, items.len() as int), t, names, nl),
                names,
                nl,
            ),
        )
    }
}

/// Follow pairs of the first `k` alternatives of a choice followed by `t`.
pub open spec fn choice_follows(
    items: Seq<PatternV>,
    k: int,
    t: Set<FollowV>,
    names: Seq<Seq<char>>,
    nl: Seq<bool>,
) -> Set<(Seq<char>, FollowV)>
    decreases items, k,
{
    if k <= 0 || k > items.len() {
        Set::empty()
    } else {
        choice_follows(items, k - 1, t, names, nl).union(follows_of(items[k - 1], t, names, nl))
    }
}

/// The elements that follow pairs `c` add to the FOLLOW of rule `j`:
/// those paired with its name, when it is the first rule of that name.
pub open spec fn landing(c: Set<(Seq<char>, FollowV)>, names: Seq<Seq<char>>, j: int) -> Set<FollowV> {
    Set::new(|e: FollowV| index_of(names, names[j]) == j && c.contains((names[j], e)))
}

/// `f` meets every FOLLOW constraint: end of input follows `root`, and
/// whatever a rule's body says follows a call is in the callee's set.
pub open spec fn follow_closed(
    names: Seq<Seq<char>>,
    bodies: Seq<PatternV>,
    nl: Seq<bool>,
    f: Seq<Set<FollowV>>,
) -> bool {
    &&& f.len() == names.len()
    &&& index_of(names, root_name()) >= 0 ==> f[index_of(names, root_name())].contains(FollowV::Eof)
    &&& forall|i: int, j: int|
        0 <= i < names.len() && 0 <= j < names.len() ==> #[trigger] landing(
            follows_of(bodies[i], f[i], names, nl),
            names,
            j,
        ).subset_of(f[j])
}

/// `f` is the least assignment meeting the FOLLOW constraints.
pub open spec fn follow_least(
    names: Seq<Seq<char>>,
    bodies: Seq<PatternV>,
    nl: Seq<bool>,
    f: Seq<Set<FollowV>>,
) -> bool {
    &&& follow_closed(names, bodies, nl, f)
    &&& forall|g: Seq<Set<FollowV>>|
        #[trigger] follow_closed(names, bodies, nl, g) ==> forall|j: int|
            0 <= j < names.len() ==> f[j].subset_of(g[j])
}

/// A larger trailing set can only add follow pairs.
pub proof fn lemma_follows_mono(
    p: PatternV,
    t1: Set<FollowV>,
    t2: Set<FollowV>,
    names: Seq<Seq<char>>,
    nl: Seq<bool>,
)
    requires
        t1.subset_of(t2),
    ensures
        follows_of(p, t1, names, nl).subset_of(follows_of(p, t2, names, nl)),
    decreases p, 0int,
{
    match p {
        PatternV::NonTerminal(n) => {},
        PatternV::Sequence(items) => lemma_seq_follows_mono(items, items.len() as int, t1, t2, names, nl),
        PatternV::OrderedChoice(items) => lemma_choice_follows_mono(
            items,
            items.len() as int,
            t1,
            t2,
            names,
            nl,
        ),
        PatternV::Repeat(inner) => lemma_follows_mono(
            *inner,
            t1.union(first_of(*inner, names, nl)),
            t2.union(first_of(*inner, names, nl)),
            names,
            nl,
        ),
        PatternV::RepeatOne(inner) => lemma_follows_mono(
            *inner,
            t1.union(first_of(*inner, names, nl)),
            t2.union(first_of(*inner, names, nl)),
            names,
            nl,
        ),
        PatternV::Optional(inner) => lemma_follows_mono(*inner, t1, t2, names, nl),
        PatternV::Capture(_, inner) => lemma_follows_mono(*inner, t1, t2, names, nl),
        PatternV::Catch { inner, recovery, .. } => {
            lemma_follows_mono(*inner, t1, t2, names, nl);
            lemma_follows_mono(*recovery, t1, t2, names, nl);
        },
        PatternV::Lenient(inner) => lemma_follows_mono(*inner, t1, t2, names, nl),
        PatternV::InferBoundaryCatch { inner, .. } => lemma_follows_mono(*inner, t1, t2, names, nl),
        _ => {},
    }
}

proof fn lemma_seq_follows_mono(
    items: Seq<PatternV>,
    k: int,
    t1: Set<FollowV>,
    t2: Set<FollowV>,
    names: Seq<Seq<char>>,
    nl: Seq<bool>,
)
    requires
        t1.subset_of(t2),
    ensures
        seq_follows(items, k, t1, names, nl).subset_of(seq_follows(items, k, t2, names, nl)),
    decreases items, k,
{
    if 0 < k <= items.len() {
        lemma_seq_follows_mono(items, k - 1, t1, t2, names, nl);
        let sub = items.subrange(k, items.len() as int);
        lemma_follows_mono(
            items[k - 1],
            suffix_trailing(sub, t1, names, nl),
            suffix_trailing(sub, t2, names, nl),
            names,
            nl,
        );
    }
}

proof fn lemma_choice_follows_mono(
    items: Seq<PatternV>,
    k: int,
    t1: Set<FollowV>,
    t2: Set<FollowV>,
    names: Seq<Seq<char>>,
    nl: Seq<bool>,
)
    requires
        t1.subset_of(t2),
    ensures
        choice_follows(items, k, t1, names, nl).subset_of(choice_follows(items, k, t2, names, nl)),
    decreases items, k,
{
    if 0 < k <= items.len() {
        lemma_choice_follows_mono(items, k - 1, t1, t2, names, nl);
        lemma_follows_mono(items[k - 1], t1, t2, names, nl);
    }
}

/// Every FIRST set of the pattern and of its sub-patterns, together:
/// the only elements a call inside it can be followed by, besides what
/// follows the pattern itself.
pub open spec fn allfirst(p: PatternV, names: Seq<Seq<char>>, nl: Seq<bool>) -> Set<FollowV>
    decreases p, 0int,
{
    first_of(p, names, nl).union(
        match p {
            PatternV::Sequence(items) => items_allfirst(items, items.len() as int, names, nl),
            PatternV::OrderedChoice(items) => items_allfirst(items, items.len() as int, names, nl),
            PatternV::Repeat(inner) => allfirst(*inner, names, nl),
            PatternV::RepeatOne(inner) => allfirst(*inner, names, nl),
            PatternV::Optional(inner) => allfirst(*inner, names, nl),
            PatternV::NotPredicate(inner) => allfirst(*inner, names, nl),
            PatternV::AndPredicate(inner) => allfirst(*inner, names, nl),
            PatternV::Capture(_, inner) => allfirst(*inner, names, nl),
            PatternV::Catch { inner, recovery, .. } => allfirst(*inner, names, nl).union(
                allfirst(*recovery, names, nl),
            ),
            PatternV::Lenient(inner) => allfirst(*inner, names, nl),
            PatternV::InferBoundaryCatch { inner, .. } => allfirst(*inner, names, nl),
            _ => Set::empty(),
        },
    )
}

/// [`allfirst`] of the first `k` items, together.
pub open spec fn items_allfirst(items: Seq<PatternV>, k: int, names: Seq<Seq<char>>, nl: Seq<bool>) -> Set<
    FollowV,
>
    decreases items, k,
{
    if k <= 0 || k > items.len() {
        Set::empty()
    } else {
        items_allfirst(items, k - 1, names, nl).union(allfirst(items[k - 1], names, nl))
    }
}

/// The elements any FOLLOW set of the grammar can hold.
pub open spec fn follow_universe(names: Seq<Seq<char>>, bodies: Seq<PatternV>, nl: Seq<bool>) -> Set<
    FollowV,
> {
    items_allfirst(bodies, bodies.len() as int, names, nl).insert(FollowV::Eof)
}

proof fn lemma_first_finite(p: PatternV, names: Seq<Seq<char>>, nl: Seq<bool>)
    ensures
        first_of(p, names, nl).finite(),
    decreases p, 0int,
{
    match p {
        PatternV::Sequence(items) => lemma_seq_first_finite(items, names, nl),
        PatternV::OrderedChoice(items) => lemma_choice_first_finite(items, names, nl),
        PatternV::Repeat(inner) => lemma_first_finite(*inner, names, nl),
        PatternV::RepeatOne(inner) => lemma_first_finite(*inner, names, nl),
        PatternV::Optional(inner) => lemma_first_finite(*inner, names, nl),
        PatternV::AndPredicate(inner) => lemma_first_finite(*inner, names, nl),
        PatternV::Capture(k, inner) => {
            lemma_first_finite(*inner, names, nl);
            first_of(*inner, names, nl).lemma_map_finite(|e: FollowV| FollowV::Capture(k, Box::new(e)));
        },
        PatternV::Catch { inner, .. } => lemma_first_finite(*inner, names, nl),
        PatternV::Lenient(inner) => lemma_first_finite(*inner, names, nl),
        PatternV::InferBoundaryCatch { inner, .. } => lemma_first_finite(*inner, names, nl),
        _ => {},
    }
}

proof fn lemma_seq_first_finite(items: Seq<PatternV>, names: Seq<Seq<char>>, nl: Seq<bool>)
    ensures
        seq_first(items, names, nl).finite(),
    decreases items, 0int,
{
    if items.len() > 0 {
        lemma_seq_first_finite(items.drop_last(), names, nl);
        lemma_first_finite(items.last(), names, nl);
    }
}

proof fn lemma_choice_first_finite(items: Seq<PatternV>, names: Seq<Seq<char>>, nl: Seq<bool>)
    ensures
        choice_first(items, names, nl).finite(),
    decreases items, 0int,
{
    if items.len() > 0 {
        lemma_choice_first_finite(items.drop_last(), names, nl);
        lemma_first_finite(items.last(), names, nl);
    }
}

proof fn lemma_allfirst_finite(p: PatternV, names: Seq<Seq<char>>, nl: Seq<bool>)
    ensures
        allfirst(p, names, nl).finite(),
    decreases p, 0int,
{
    lemma_first_finite(p, names, nl);
    match p {
        PatternV::Sequence(items) => lemma_items_allfirst_finite(items, items.len() as int, names, nl),
        PatternV::OrderedChoice(items) => lemma_items_allfirst_finite(
            items,
            items.len() as int,
            names,
            nl,
        ),
        PatternV::Repeat(inner) => lemma_allfirst_finite(*inner, names, nl),
        PatternV::RepeatOne(inner) => lemma_allfirst_finite(*inner, names, nl),
        PatternV::Optional(inner) => lemma_allfirst_finite(*inner, names, nl),
        PatternV::NotPredicate(inner) => lemma_allfirst_finite(*inner, names, nl),
        PatternV::AndPredicate(inner) => lemma_allfirst_finite(*inner, names, nl),
        PatternV::Capture(_, inner) => lemma_allfirst_finite(*inner, names, nl),
        PatternV::Catch { inner, recovery, .. } => {
            lemma_allfirst_finite(*inner, names, nl);
            lemma_allfirst_finite(*recovery, names, nl);
        },
        PatternV::Lenient(inner) => lemma_allfirst_finite(*inner, names, nl),
        PatternV::InferBoundaryCatch { inner, .. } => lemma_allfirst_finite(*inner, names, nl),
        _ => {},
    }
}

proof fn lemma_items_allfirst_finite(items: Seq<PatternV>, k: int, names: Seq<Seq<char>>, nl: Seq<bool>)
    ensures
        items_allfirst(items, k, names, nl).finite(),
    decreases items, k,
{
    if 0 < k <= items.len() {
        lemma_items_allfirst_finite(items, k - 1, names, nl);
        lemma_allfirst_finite(items[k - 1], names, nl);
    }
}

/// The universe is finite.
proof fn lemma_universe_finite(names: Seq<Seq<char>>, bodies: Seq<PatternV>, nl: Seq<bool>)
    ensures
        follow_universe(names, bodies, nl).finite(),
{
    lemma_items_allfirst_finite(bodies, bodies.len() as int, names, nl);
}

/// Item `m`'s [`allfirst`] is part of that of the first `k` items.
proof fn lemma_items_allfirst_has(items: Seq<PatternV>, k: int, m: int, names: Seq<Seq<char>>, nl: Seq<bool>)
    requires
        0 <= m < k <= items.len(),
    ensures
        allfirst(items[m], names, nl).subset_of(items_allfirst(items, k, names, nl)),
    decreases k,
{
    if m < k - 1 {
        lemma_items_allfirst_has(items, k - 1, m, names, nl);
    }
}

/// Everything in FIRST of a sequence is in FIRST of one of its items.
proof fn lemma_seq_first_from_items(items: Seq<PatternV>, names: Seq<Seq<char>>, nl: Seq<bool>, e: FollowV)
    requires
        seq_first(items, names, nl).contains(e),
    ensures
        exists|m: int| 0 <= m < items.len() && #[trigger] first_of(items[m], names, nl).contains(e),
    decreases items.len(),
{
    if items.len() > 0 {
        if seq_first(items.drop_last(), names, nl).contains(e) {
            lemma_seq_first_from_items(items.drop_last(), names, nl, e);
            let m = choose|m: int| 0 <= m < items.drop_last().len() && #[trigger] first_of(items.drop_last()[m], names, nl).contains(e);
            assert(items.drop_last()[m] == items[m]);
        } else {
            assert(first_of(items[items.len() - 1], names, nl).contains(e));
        }
    }
}

/// Everything a call inside `p` can be followed by comes from what
/// follows `p` or from a FIRST set inside it.
proof fn lemma_follows_within(p: PatternV, t: Set<FollowV>, names: Seq<Seq<char>>, nl: Seq<bool>, x: (Seq<char>, FollowV))
    requires
        follows_of(p, t, names, nl).contains(x),
    ensures
        t.contains(x.1) || allfirst(p, names, nl).contains(x.1),
    decreases p, 0int,
{
    match p {
        PatternV::Sequence(items) => lemma_seq_follows_within(items, items.len() as int, t, names, nl, x),
        PatternV::OrderedChoice(items) => lemma_choice_follows_within(items, items.len() as int, t, names, nl, x),
        PatternV::Repeat(inner) => lemma_follows_within(*inner, t.union(first_of(*inner, names, nl)), names, nl, x),
        PatternV::RepeatOne(inner) => lemma_follows_within(*inner, t.union(first_of(*inner, names, nl)), names, nl, x),
        PatternV::Optional(inner) => lemma_follows_within(*inner, t, names, nl, x),
        PatternV::AndPredicate(inner) => lemma_follows_within(*inner, Set::empty(), names, nl, x),
        PatternV::Capture(_, inner) => lemma_follows_within(*inner, t, names, nl, x),
        PatternV::Catch { inner, recovery, .. } => {
            if follows_of(*inner, t, names, nl).contains(x) {
                lemma_follows_within(*inner, t, names, nl, x);
            } else {
                lemma_follows_within(*recovery, t, names, nl, x);
            }
        },
        PatternV::Lenient(inner) => lemma_follows_within(*inner, t, names, nl, x),
        PatternV::InferBoundaryCatch { inner, .. } => lemma_follows_within(*inner, t, names, nl, x),
        _ => {},
    }
}

proof fn lemma_seq_follows_within(
    items: Seq<PatternV>,
    k: int,
    t: Set<FollowV>,
    names: Seq<Seq<char>>,
    nl: Seq<bool>,
    x: (Seq<char>, FollowV),
)
    requires
        0 <= k <= items.len(),
        seq_follows(items, k, t, names, nl).contains(x),
    ensures
        t.contains(x.1) || items_allfirst(items, items.len() as int, names, nl).contains(x.1),
    decreases items, k,
{
    if k > 0 {
        if seq_follows(items, k - 1, t, names, nl).contains(x) {
            lemma_seq_follows_within(items, k - 1, t, names, nl, x);
        } else {
            let sub = items.subrange(k, items.len() as int);
            let st = suffix_trailing(sub, t, names, nl);
            lemma_follows_within(items[k - 1], st, names, nl, x);
            lemma_items_allfirst_has(items, items.len() as int, k - 1, names, nl);
            if st.contains(x.1) && !t.contains(x.1) {
                lemma_seq_first_from_items(sub, names, nl, x.1);
                let m = choose|m: int| 0 <= m < sub.len() && #[trigger] first_of(sub[m], names, nl).contains(x.1);
                assert(sub[m] == items[k + m]);
                lemma_items_allfirst_has(items, items.len() as int, k + m, names, nl);
            }
        }
    }
}

proof fn lemma_choice_follows_within(
    items: Seq<PatternV>,
    k: int,
    t: Set<FollowV>,
    names: Seq<Seq<char>>,
    nl: Seq<bool>,
    x: (Seq<char>, FollowV),
)
    requires
        0 <= k <= items.len(),
        choice_follows(items, k, t, names, nl).contains(x),
    ensures
        t.contains(x.1) || items_allfirst(items, items.len() as int, names, nl).contains(x.1),
    decreases items, k,
{
    if k > 0 {
        if choice_follows(items, k - 1, t, names, nl).contains(x) {
            lemma_choice_follows_within(items, k - 1, t, names, nl, x);
        } else {
            lemma_follows_within(items[k - 1], t, names, nl, x);
            lemma_items_allfirst_has(items, items.len() as int, k - 1, names, nl);
        }
    }
}

/// What trails `items[from..]` inside a sequence followed by `outer`.
fn sequence_suffix_trailing(
    items: &Vec<Pattern>,
    from: usize,
    outer: &FollowSet,
    rules: &Vec<(String, Pattern)>,
    nl: &Vec<bool>,
) -> (out: FollowSet)
    requires
        from <= items@.len(),
        nl@.len() == rules@.len(),
    ensures
        out.members() == suffix_trailing(
            pviews(items@).subrange(from as int, items@.len() as int),
            outer.members(),
            names_of_rules(rules@),
            nl@,
        ),
{
    let ghost names = names_of_rules(rules@);
    let ghost vs = pviews(items@);
    let ghost sub = vs.subrange(from as int, items@.len() as int);
    proof {
        lemma_pviews_index(items@);
    }
    let mut out = FollowSet::new();
    let mut acc_nullable = true;
    let mut k: usize = from;
    while k < items.len()
        invariant
            vs == pviews(items@),
            vs.len() == items@.len(),
            forall|m: int| 0 <= m < items@.len() ==> #[trigger] vs[m] == pview(items@[m]),
            sub == vs.subrange(from as int, items@.len() as int),
            names == names_of_rules(rules@),
            nl@.len() == rules@.len(),
            from <= k <= items@.len(),
            acc_nullable == all_nullable(sub.take(k - from), names, nl@),
            out.members() == seq_first(sub.take(k - from), names, nl@),
        decreases items.len() - k,
    {
        proof {
            lemma_take_last(sub, k - from);
            assert(sub[k - from] == vs[k as int]);
        }
        if acc_nullable {
            let f = pattern_first(&items[k], rules, nl);
            out.extend_from(&f);
            let b = pattern_nullable(&items[k], rules, nl);
            acc_nullable = b;
        } else {
            proof {
                assert(out.members().union(Set::empty()) =~= out.members());
            }
        }
        k += 1;
    }
    proof {
        assert(sub.take(sub.len() as int) == sub);
    }
    if acc_nullable {
        out.extend_from(outer);
    } else {
        proof {
            assert(out.members().union(Set::empty()) =~= out.members());
        }
    }
    out
}

/// Landing distributes over union.
proof fn lemma_landing_union(
    a: Set<(Seq<char>, FollowV)>,
    b: Set<(Seq<char>, FollowV)>,
    names: Seq<Seq<char>>,
    j: int,
)
    ensures
        landing(a.union(b), names, j) == landing(a, names, j).union(landing(b, names, j)),
{
    assert(landing(a.union(b), names, j) =~= landing(a, names, j).union(landing(b, names, j)));
}

/// Nothing lands from no pairs.
proof fn lemma_landing_empty(names: Seq<Seq<char>>, j: int)
    ensures
        landing(Set::empty(), names, j) == Set::<FollowV>::empty(),
{
    assert(landing(Set::empty(), names, j) =~= Set::<FollowV>::empty());
}

/// Each set of `next` is that of `prev` plus what `c` lands on it.
pub open spec fn follows_added(
    prev: Seq<FollowSet>,
    next: Seq<FollowSet>,
    c: Set<(Seq<char>, FollowV)>,
    names: Seq<Seq<char>>,
) -> bool {
    &&& next.len() == prev.len()
    &&& forall|j: int|
        0 <= j < prev.len() ==> (#[trigger] next[j]).members() == prev[j].members().union(
            landing(c, names, j),
        )
}

/// Adding `c1` then `c2` adds their union.
proof fn lemma_follows_added_trans(
    a: Seq<FollowSet>,
    b: Seq<FollowSet>,
    c: Seq<FollowSet>,
    c1: Set<(Seq<char>, FollowV)>,
    c2: Set<(Seq<char>, FollowV)>,
    names: Seq<Seq<char>>,
)
    requires
        follows_added(a, b, c1, names),
        follows_added(b, c, c2, names),
    ensures
        follows_added(a, c, c1.union(c2), names),
{
    assert forall|j: int| 0 <= j < a.len() implies (#[trigger] c[j]).members() == a[j].members().union(
        landing(c1.union(c2), names, j),
    ) by {
        lemma_landing_union(c1, c2, names, j);
        assert(c[j].members() =~= a[j].members().union(landing(c1.union(c2), names, j)));
    }
}

/// Adding no pairs changes nothing.
proof fn lemma_follows_added_none(a: Seq<FollowSet>, names: Seq<Seq<char>>)
    ensures
        follows_added(a, a, Set::empty(), names),
{
    assert forall|j: int| 0 <= j < a.len() implies (#[trigger] a[j]).members() == a[j].members().union(
        landing(Set::empty(), names, j),
    ) by {
        lemma_landing_empty(names, j);
        assert(a[j].members().union(Set::empty()) =~= a[j].members());
    }
}

/// Add what `p`, followed by `trailing`, says of its calls to the FOLLOW
/// sets of the called rules.
fn collect_follow(
    p: &Pattern,
    rules: &Vec<(String, Pattern)>,
    nl: &Vec<bool>,
    trailing: &FollowSet,
    follow: &mut Vec<FollowSet>,
)
    requires
        nl@.len() == rules@.len(),
        old(follow)@.len() == rules@.len(),
    ensures
        follows_added(
            old(follow)@,
            final(follow)@,
            follows_of(p@, trailing.members(), names_of_rules(rules@), nl@),
            names_of_rules(rules@),
        ),
    decreases p,
{
    let ghost names = names_of_rules(rules@);
    let ghost start = follow@;
    match p {
        Pattern::NonTerminal(name) => {
            proof {
                lemma_index_of(names, name@);
            }
            match find_rule(rules, name) {
                Some(j) => {
                    let mut cur = follow[j].copy();
                    cur.extend_from(trailing);
                    follow.set(j, cur);
                },
                None => {},
            }
            proof {
                let c = called_with(name@, trailing.members());
                assert forall|j: int| 0 <= j < start.len() implies (#[trigger] follow@[j]).members()
                    == start[j].members().union(landing(c, names, j)) by {
                    if index_of(names, name@) == j {
                        assert(landing(c, names, j) =~= trailing.members());
                    } else {
                        assert(landing(c, names, j) =~= Set::<FollowV>::empty());
                        assert(start[j].members().union(Set::empty()) =~= start[j].members());
                    }
                }
            }
        },
        Pattern::Sequence(items) => {
            let ghost vs = pviews(items@);
            let ghost t = trailing.members();
            proof {
                lemma_pviews_index(items@);
                lemma_follows_added_none(start, names);
            }
            let mut i: usize = 0;
            while i < items.len()
                invariant
                    *p == Pattern::Sequence(*items),
                    vs == pviews(items@),
                    vs.len() == items@.len(),
                    forall|k: int| 0 <= k < items@.len() ==> #[trigger] vs[k] == pview(items@[k]),
                    names == names_of_rules(rules@),
                    nl@.len() == rules@.len(),
                    t == trailing.members(),
                    start.len() == rules@.len(),
                    i <= items@.len(),
                    follows_added(start, follow@, seq_follows(vs, i as int, t, names, nl@), names),
                decreases items.len() - i,
            {
                proof {
                    vstd::std_specs::vec::axiom_vec_index_decreases(*items, i as int);
                    assert(decreases_to!(*p => (*p)->Sequence_0));
                }
                let sub = sequence_suffix_trailing(items, i + 1, trailing, rules, nl);
                let ghost before = follow@;
                collect_follow(&items[i], rules, nl, &sub, follow);
                proof {
                    lemma_follows_added_trans(
                        start,
                        before,
                        follow@,
                        seq_follows(vs, i as int, t, names, nl@),
                        follows_of(vs[i as int], sub.members(), names, nl@),
                        names,
                    );
                }
                i += 1;
            }
        },
        Pattern::OrderedChoice(items) => {
            let ghost vs = pviews(items@);
            let ghost t = trailing.members();
            proof {
                lemma_pviews_index(items@);
                lemma_follows_added_none(start, names);
            }
            let mut i: usize = 0;
            while i < items.len()
                invariant
                    *p == Pattern::OrderedChoice(*items),
                    vs == pviews(items@),
                    vs.len() == items@.len(),
                    forall|k: int| 0 <= k < items@.len() ==> #[trigger] vs[k] == pview(items@[k]),
                    names == names_of_rules(rules@),
                    nl@.len() == rules@.len(),
                    t == trailing.members(),
                    start.len() == rules@.len(),
                    i <= items@.len(),
                    follows_added(start, follow@, choice_follows(vs, i as int, t, names, nl@), names),
                decreases items.len() - i,
            {
                proof {
                    vstd::std_specs::vec::axiom_vec_index_decreases(*items, i as int);
                    assert(decreases_to!(*p => (*p)->OrderedChoice_0));
                }
                let ghost before = follow@;
                collect_follow(&items[i], rules, nl, trailing, follow);
                proof {
                    lemma_follows_added_trans(
                        start,
                        before,
                        follow@,
                        choice_follows(vs, i as int, t, names, nl@),
                        follows_of(vs[i as int], t, names, nl@),
                        names,
                    );
                }
                i += 1;
            }
        },
        Pattern::Repeat(inner) | Pattern::RepeatOne(inner) => {
            let mut sub = trailing.copy();
            let f = pattern_first(inner, rules, nl);
            sub.extend_from(&f);
            collect_follow(inner, rules, nl, &sub, follow);
        },
        Pattern::Optional(inner) => collect_follow(inner, rules, nl, trailing, follow),
        Pattern::AndPredicate(inner) => {
            let none = FollowSet::new();
            collect_follow(inner, rules, nl, &none, follow);
        },
        Pattern::Capture(_, inner) => collect_follow(inner, rules, nl, trailing, follow),
        Pattern::Catch { inner, recovery, .. } => {
            collect_follow(inner, rules, nl, trailing, follow);
            let ghost mid = follow@;
            collect_follow(recovery, rules, nl, trailing, follow);
            proof {
                lemma_follows_added_trans(
                    start,
                    mid,
                    follow@,
                    follows_of(pview(**inner), trailing.members(), names, nl@),
                    follows_of(pview(**recovery), trailing.members(), names, nl@),
                    names,
                );
            }
        },
        Pattern::Lenient(inner) => collect_follow(inner, rules, nl, trailing, follow),
        Pattern::InferBoundaryCatch { inner, .. } => collect_follow(inner, rules, nl, trailing, follow),
        _ => {
            proof {
                lemma_follows_added_none(start, names);
            }
        },
    }
}

/// The member sets of a list of FOLLOW sets.
pub open spec fn member_sets(fs: Seq<FollowSet>) -> Seq<Set<FollowV>> {
    fs.map_values(|f: FollowSet| f.members())
}

/// How many more elements the sets could take before each is all of `u`.
spec fn deficit(fs: Seq<Set<FollowV>>, u: nat) -> int
    decreases fs.len(),
{
    if fs.len() == 0 {
        0
    } else {
        deficit(fs.drop_last(), u) + (u - fs.last().len())
    }
}

proof fn lemma_deficit_nonneg(fs: Seq<Set<FollowV>>, u: nat)
    requires
        forall|j: int| 0 <= j < fs.len() ==> #[trigger] fs[j].len() <= u,
    ensures
        deficit(fs, u) >= 0,
    decreases fs.len(),
{
    if fs.len() > 0 {
        assert forall|j: int| 0 <= j < fs.drop_last().len() implies #[trigger] fs.drop_last()[j].len() <= u by {
            assert(fs.drop_last()[j] == fs[j]);
        }
        lemma_deficit_nonneg(fs.drop_last(), u);
    }
}

/// Sets that grow, one strictly, lower the deficit.
proof fn lemma_deficit_drops(a: Seq<Set<FollowV>>, b: Seq<Set<FollowV>>, u: nat, k: int)
    requires
        a.len() == b.len(),
        0 <= k < a.len(),
        forall|j: int| 0 <= j < a.len() ==> #[trigger] a[j].len() <= b[j].len(),
        a[k].len() < b[k].len(),
    ensures
        deficit(b, u) < deficit(a, u),
    decreases a.len(),
{
    lemma_deficit_mono(a.drop_last(), b.drop_last(), u);
    if k < a.len() - 1 {
        assert forall|j: int| 0 <= j < a.drop_last().len() implies #[trigger] a.drop_last()[j].len()
            <= b.drop_last()[j].len() by {
            assert(a.drop_last()[j] == a[j] && b.drop_last()[j] == b[j]);
        }
        assert(a.drop_last()[k] == a[k] && b.drop_last()[k] == b[k]);
        lemma_deficit_drops(a.drop_last(), b.drop_last(), u, k);
    }
}

proof fn lemma_deficit_mono(a: Seq<Set<FollowV>>, b: Seq<Set<FollowV>>, u: nat)
    requires
        a.len() == b.len(),
        forall|j: int| 0 <= j < a.len() ==> #[trigger] a[j].len() <= b[j].len(),
    ensures
        deficit(b, u) <= deficit(a, u),
    decreases a.len(),
{
    if a.len() > 0 {
        assert forall|j: int| 0 <= j < a.drop_last().len() implies #[trigger] a.drop_last()[j].len()
            <= b.drop_last()[j].len() by {
            assert(a.drop_last()[j] == a[j] && b.drop_last()[j] == b[j]);
        }
        lemma_deficit_mono(a.drop_last(), b.drop_last(), u);
    }
}

proof fn lemma_members_finite(f: FollowSet)
    ensures
        f.members().finite(),
{
    vstd::seq_lib::seq_to_set_is_finite(f.elems());
}

/// FOLLOW set per rule, by rule position: the least sets meeting the
/// FOLLOW constraints, reached by iterating them to a fixed point.
pub fn compute_follow(rules: &Vec<(String, Pattern)>) -> (follow: Vec<FollowSet>)
    ensures
        follow@.len() == rules@.len(),
        follow_least(
            names_of_rules(rules@),
            bodies_of_rules(rules@),
            rule_nullable(names_of_rules(rules@), bodies_of_rules(rules@)),
            member_sets(follow@),
        ),
{
    let ghost names = names_of_rules(rules@);
    let ghost bodies = bodies_of_rules(rules@);
    let nl = compute_nullable(rules);
    let ghost u = follow_universe(names, bodies, nl@);
    proof {
        lemma_universe_finite(names, bodies, nl@);
    }
    let n = rules.len();
    let mut follow: Vec<FollowSet> = Vec::new();
    let mut i: usize = 0;
    while i < n
        invariant
            n == rules@.len(),
            i <= n,
            follow@.len() == i,
            forall|j: int| 0 <= j < i ==> (#[trigger] follow@[j]).members() == Set::<FollowV>::empty(),
        decreases n - i,
    {
        follow.push(FollowSet::new());
        i += 1;
    }
    let root = root_rule_name();
    proof {
        lemma_index_of(names, root_name());
    }
    match find_rule(rules, &root) {
        Some(r) => {
            let mut cur = FollowSet::new();
            cur.insert(FollowElement::Eof);
            follow.set(r, cur);
        },
        None => {},
    }
    proof {
        assert forall|g: Seq<Set<FollowV>>| #[trigger] follow_closed(names, bodies, nl@, g) implies forall|j: int|
            0 <= j < names.len() ==> member_sets(follow@)[j].subset_of(g[j]) by {
            assert forall|j: int| 0 <= j < names.len() implies member_sets(follow@)[j].subset_of(g[j]) by {
                assert(member_sets(follow@)[j] == follow@[j].members());
            }
        }
        assert forall|j: int| 0 <= j < n implies (#[trigger] follow@[j]).members().subset_of(u) by {}
    }
    loop
        invariant
            n == rules@.len(),
            names == names_of_rules(rules@),
            bodies == bodies_of_rules(rules@),
            nl@ == rule_nullable(names, bodies),
            nl@.len() == n,
            u == follow_universe(names, bodies, nl@),
            u.finite(),
            follow@.len() == n,
            index_of(names, root_name()) >= 0 ==> follow@[index_of(names, root_name())].members().contains(
                FollowV::Eof,
            ),
            forall|j: int| 0 <= j < n ==> (#[trigger] follow@[j]).members().subset_of(u),
            forall|g: Seq<Set<FollowV>>|
                #[trigger] follow_closed(names, bodies, nl@, g) ==> forall|j: int|
                    0 <= j < names.len() ==> member_sets(follow@)[j].subset_of(g[j]),
        decreases deficit(member_sets(follow@), u.len()),
    {
        let ghost f0 = follow@;
        let mut lens: Vec<usize> = Vec::new();
        let mut j: usize = 0;
        while j < n
            invariant
                follow@ == f0,
                f0.len() == n,
                j <= n,
                lens@.len() == j,
                forall|m: int| 0 <= m < j ==> lens@[m] == (#[trigger] f0[m]).members().len(),
            decreases n - j,
        {
            lens.push(follow[j].len());
            j += 1;
        }
        let mut i: usize = 0;
        while i < n
            invariant
                n == rules@.len(),
                names == names_of_rules(rules@),
                bodies == bodies_of_rules(rules@),
                nl@ == rule_nullable(names, bodies),
                nl@.len() == n,
                u == follow_universe(names, bodies, nl@),
                u.finite(),
                f0.len() == n,
                follow@.len() == n,
                i <= n,
                forall|j: int| 0 <= j < n ==> (#[trigger] f0[j]).members().subset_of(follow@[j].members()),
                index_of(names, root_name()) >= 0 ==> follow@[index_of(names, root_name())].members().contains(
                    FollowV::Eof,
                ),
                forall|j: int| 0 <= j < n ==> (#[trigger] follow@[j]).members().subset_of(u),
                forall|g: Seq<Set<FollowV>>|
                    #[trigger] follow_closed(names, bodies, nl@, g) ==> forall|j: int|
                        0 <= j < names.len() ==> member_sets(follow@)[j].subset_of(g[j]),
                (forall|j: int| 0 <= j < n ==> (#[trigger] follow@[j]).members() == f0[j].members())
                    ==> forall|k: int, j: int|
                    0 <= k < i && 0 <= j < n ==> #[trigger] landing(
                        follows_of(bodies[k], f0[k].members(), names, nl@),
                        names,
                        j,
                    ).subset_of(f0[j].members()),
            decreases n - i,
        {
            let t = follow[i].copy();
            let ghost before = follow@;
            collect_follow(&rules[i].1, rules, &nl, &t, &mut follow);
            proof {
                let c = follows_of(bodies[i as int], t.members(), names, nl@);
                assert(bodies[i as int] == pview(rules@[i as int].1));
                // Every set only grows, and stays inside the universe.
                assert forall|j: int| 0 <= j < n implies (#[trigger] f0[j]).members().subset_of(
                    follow@[j].members(),
                ) by {
                    assert(follow@[j].members() == before[j].members().union(landing(c, names, j)));
                }
                lemma_index_of(names, root_name());
                if index_of(names, root_name()) >= 0 {
                    let r = index_of(names, root_name());
                    assert(follow@[r].members() == before[r].members().union(landing(c, names, r)));
                }
                assert forall|j: int| 0 <= j < n implies (#[trigger] follow@[j]).members().subset_of(u) by {
                    assert(follow@[j].members() == before[j].members().union(landing(c, names, j)));
                    assert forall|e: FollowV| landing(c, names, j).contains(e) implies u.contains(e) by {
                        lemma_follows_within(bodies[i as int], t.members(), names, nl@, (names[j], e));
                        if !t.members().contains(e) {
                            lemma_items_allfirst_has(bodies, bodies.len() as int, i as int, names, nl@);
                        }
                    }
                }
                // The sets stay below every closed assignment.
                assert forall|g: Seq<Set<FollowV>>| #[trigger] follow_closed(names, bodies, nl@, g) implies forall|j: int|
                    0 <= j < names.len() ==> member_sets(follow@)[j].subset_of(g[j]) by {
                    assert(member_sets(before)[i as int] == before[i as int].members());
                    lemma_follows_mono(bodies[i as int], t.members(), g[i as int], names, nl@);
                    assert forall|j: int| 0 <= j < names.len() implies member_sets(follow@)[j].subset_of(g[j]) by {
                        assert(member_sets(before)[j] == before[j].members());
                        assert(member_sets(follow@)[j] == follow@[j].members());
                        assert(follow@[j].members() == before[j].members().union(landing(c, names, j)));
                        assert(landing(follows_of(bodies[i as int], g[i as int], names, nl@), names, j).subset_of(g[j]));
                    }
                }
                // A round that changes nothing has checked rule `i`.
                if forall|j: int| 0 <= j < n ==> (#[trigger] follow@[j]).members() == f0[j].members() {
                    assert forall|j: int| 0 <= j < n implies (#[trigger] before[j]).members() == f0[j].members() by {
                        assert(f0[j].members().subset_of(before[j].members()));
                        assert(follow@[j].members() == before[j].members().union(landing(c, names, j)));
                        assert(before[j].members() =~= f0[j].members());
                    }
                    assert(t.members() == f0[i as int].members());
                    assert forall|k: int, j: int| 0 <= k < i + 1 && 0 <= j < n implies #[trigger] landing(
                        follows_of(bodies[k], f0[k].members(), names, nl@),
                        names,
                        j,
                    ).subset_of(f0[j].members()) by {
                        if k == i {
                            assert(follow@[j].members() == before[j].members().union(landing(c, names, j)));
                        }
                    }
                }
            }
            i += 1;
        }
        let mut changed = false;
        let mut j: usize = 0;
        while j < n
            invariant
                follow@.len() == n,
                f0.len() == n,
                lens@.len() == n,
                j <= n,
                forall|m: int| 0 <= m < n ==> lens@[m] == (#[trigger] f0[m]).members().len(),
                changed == exists|m: int| 0 <= m < j && #[trigger] follow@[m].members().len() != lens@[m],
            decreases n - j,
        {
            if follow[j].len() != lens[j] {
                changed = true;
            }
            j += 1;
        }
        proof {
            assert forall|m: int| 0 <= m < n implies (#[trigger] f0[m]).members().len() <= follow@[m].members().len() by {
                lemma_members_finite(follow@[m]);
                vstd::set_lib::lemma_len_subset(f0[m].members(), follow@[m].members());
            }
            assert forall|m: int| 0 <= m < n implies (#[trigger] member_sets(follow@)[m]).len() <= u.len() by {
                assert(member_sets(follow@)[m] == follow@[m].members());
                vstd::set_lib::lemma_len_subset(follow@[m].members(), u);
            }
            lemma_deficit_nonneg(member_sets(follow@), u.len());
        }
        if !changed {
            proof {
                assert forall|m: int| 0 <= m < n implies (#[trigger] follow@[m]).members() == f0[m].members() by {
                    lemma_members_finite(follow@[m]);
                    lemma_members_finite(f0[m]);
                    vstd::set_lib::lemma_subset_equality(f0[m].members(), follow@[m].members());
                }
                let fs = member_sets(follow@);
                assert forall|a: int, b: int| 0 <= a < names.len() && 0 <= b < names.len() implies #[trigger] landing(
                    follows_of(bodies[a], fs[a], names, nl@),
                    names,
                    b,
                ).subset_of(fs[b]) by {
                    assert(fs[a] == follow@[a].members());
                    assert(fs[b] == follow@[b].members());
                }
                assert(fs.len() == names.len());
                lemma_index_of(names, root_name());
                if index_of(names, root_name()) >= 0 {
                    assert(fs[index_of(names, root_name())] == follow@[index_of(names, root_name())].members());
                }
                assert(follow_closed(names, bodies, nl@, fs));
            }
            return follow;
        }
        proof {
            let m = choose|m: int| 0 <= m < n && #[trigger] follow@[m].members().len() != lens@[m];
            assert forall|x: int| 0 <= x < n implies #[trigger] member_sets(f0)[x].len() <= member_sets(follow@)[x].len() by {
                assert(member_sets(f0)[x] == f0[x].members());
                assert(member_sets(follow@)[x] == follow@[x].members());
            }
            assert(member_sets(f0)[m] == f0[m].members());
            assert(member_sets(follow@)[m] == follow@[m].members());
            lemma_deficit_drops(member_sets(f0), member_sets(follow@), u.len(), m);
        }
    }
}

// ---------------------------------------------------------------------
// Boundaries inferred from FOLLOW
// ---------------------------------------------------------------------

/// The pattern an element of a FOLLOW set stands for in a boundary; end
/// of input is `!.`.
pub open spec fn element_pattern(e: FollowV) -> PatternV
    decreases e,
{
    match e {
        FollowV::Literal(b) => PatternV::Literal(b),
        FollowV::CharClass(r) => PatternV::CharClass(r),
        FollowV::Rule(n) => PatternV::NonTerminal(n),
        FollowV::Capture(k, inner) => PatternV::Capture(k, Box::new(element_pattern(*inner))),
        FollowV::Eof => PatternV::NotPredicate(Box::new(PatternV::AnyChar)),
    }
}

/// The alternatives of the elements that are not character classes, in order.
pub open spec fn other_alts(es: Seq<FollowV>) -> Seq<PatternV>
    decreases es.len(),
{
    if es.len() == 0 {
        Seq::empty()
    } else {
        other_alts(es.drop_last()) + if es.last() is CharClass {
            Seq::empty()
        } else {
            seq![element_pattern(es.last())]
        }
    }
}

/// Some element is a character class.
pub open spec fn has_class(es: Seq<FollowV>) -> bool {
    exists|i: int| 0 <= i < es.len() && #[trigger] es[i] is CharClass
}

/// The characters of all the character-class elements.
pub open spec fn class_chars(es: Seq<FollowV>) -> Set<char> {
    Set::new(
        |c: char|
            exists|i: int|
                0 <= i < es.len() && #[trigger] es[i] is CharClass && ranges_set(es[i]->CharClass_0).contains(c),
    )
}

/// One alternative stands alone; several make a choice.
pub open spec fn choice_of(alts: Seq<PatternV>) -> PatternV {
    if alts.len() == 1 {
        alts[0]
    } else {
        PatternV::OrderedChoice(alts)
    }
}

/// `b` is the boundary built from `es`: the union of their character
/// classes first (when there is one), then each other element in order.
pub open spec fn boundary_shape(es: Seq<FollowV>, b: PatternV) -> bool {
    if has_class(es) {
        exists|rs: Seq<(char, char)>|
            ranges_set(rs) == class_chars(es) && b == choice_of(
                seq![PatternV::CharClass(rs)] + other_alts(es),
            )
    } else {
        b == choice_of(other_alts(es))
    }
}

/// `b` is the boundary of the set `t`, its elements taken in some order.
pub open spec fn boundary_for(t: Set<FollowV>, b: PatternV) -> bool {
    exists|es: Seq<FollowV>| es.no_duplicates() && es.to_set() == t && #[trigger] boundary_shape(es, b)
}

/// The pattern an element stands for.
fn element_to_pattern(e: &FollowElement) -> (p: Pattern)
    ensures
        p@ == element_pattern(fview(*e)),
    decreases e,
{
    match e {
        FollowElement::Literal(b) => {
            let p = Pattern::Literal(copy_bytes(b));
            assert(p@ == PatternV::Literal(b@));
            p
        },
        FollowElement::CharClass(cs) => Pattern::CharClass(cs.clone()),
        FollowElement::Rule(n) => Pattern::NonTerminal(n.clone()),
        FollowElement::Capture { kind, inner } => {
            let q = element_to_pattern(inner);
            let p = Pattern::Capture(kind.clone(), Box::new(q));
            assert(p@ == PatternV::Capture(kind@, Box::new(q@)));
            p
        },
        FollowElement::Eof => {
            let a = Pattern::AnyChar;
            assert(a@ == PatternV::AnyChar);
            let p = Pattern::NotPredicate(Box::new(a));
            assert(p@ == PatternV::NotPredicate(Box::new(PatternV::AnyChar)));
            p
        },
    }
}

proof fn lemma_pviews_push(s: Seq<Pattern>, x: Pattern)
    ensures
        pviews(s.push(x)) == pviews(s).push(pview(x)),
{
    lemma_pviews_index(s);
    lemma_pviews_index(s.push(x));
    assert(pviews(s.push(x)) =~= pviews(s).push(pview(x)));
}

proof fn lemma_pviews_cons(x: Pattern, s: Seq<Pattern>)
    ensures
        pviews(seq![x] + s) == seq![pview(x)] + pviews(s),
{
    lemma_pviews_index(s);
    lemma_pviews_index(seq![x] + s);
    assert(pviews(seq![x] + s) =~= seq![pview(x)] + pviews(s));
}

proof fn lemma_take_last_f(s: Seq<FollowV>, i: int)
    requires
        0 <= i < s.len(),
    ensures
        s.take(i + 1).drop_last() == s.take(i),
        s.take(i + 1).last() == s[i],
{
    assert(s.take(i + 1).drop_last() =~= s.take(i));
}

/// Synthesize the boundary pattern of a FOLLOW set: the union of its
/// character classes first, then each literal, rule call and capture in
/// the set's order, with end of input as `!.`. One alternative stands
/// alone; several make an ordered choice.
pub fn follow_set_to_boundary_pattern(fs: &FollowSet) -> (p: Pattern)
    ensures
        boundary_shape(fs.elems(), p@),
        boundary_for(fs.members(), p@),
{
    let elems = fs.elements();
    let ghost es = fs.elems();
    let mut alts: Vec<Pattern> = Vec::new();
    let mut union = CharSet::empty();
    let mut has = false;
    let mut i: usize = 0;
    while i < elems.len()
        invariant
            fviews(elems@) == es,
            es.len() == elems@.len(),
            i <= elems@.len(),
            pviews(alts@) == other_alts(es.take(i as int)),
            has == has_class(es.take(i as int)),
            union@ == class_chars(es.take(i as int)),
        decreases elems.len() - i,
    {
        proof {
            lemma_take_last_f(es, i as int);
            assert(es[i as int] == fview(elems@[i as int]));
        }
        let ghost before = es.take(i as int);
        let ghost after = es.take(i + 1);
        match &elems[i] {
            FollowElement::CharClass(cs) => {
                union = union.union(cs);
                has = true;
                proof {
                    assert(after[i as int] is CharClass);
                    assert(other_alts(after) =~= other_alts(before));
                    assert(union@ =~= class_chars(after)) by {
                        assert forall|c: char| union@.contains(c) == class_chars(after).contains(c) by {
                            if class_chars(after).contains(c) {
                                let k = choose|k: int|
                                    0 <= k < after.len() && #[trigger] after[k] is CharClass && ranges_set(
                                        after[k]->CharClass_0,
                                    ).contains(c);
                                if k < i {
                                    assert(before[k] == after[k]);
                                }
                            }
                            if class_chars(before).contains(c) {
                                let k = choose|k: int|
                                    0 <= k < before.len() && #[trigger] before[k] is CharClass && ranges_set(
                                        before[k]->CharClass_0,
                                    ).contains(c);
                                assert(after[k] == before[k]);
                            }
                        }
                    }
                }
            },
            other => {
                let ghost old_alts = alts@;
                let q = element_to_pattern(other);
                alts.push(q);
                proof {
                    lemma_pviews_push(old_alts, q);
                    assert(!(after[i as int] is CharClass));
                    assert(has_class(after) == has_class(before)) by {
                        if has_class(after) {
                            let k = choose|k: int| 0 <= k < after.len() && #[trigger] after[k] is CharClass;
                            assert(before[k] == after[k]);
                        }
                        if has_class(before) {
                            let k = choose|k: int| 0 <= k < before.len() && #[trigger] before[k] is CharClass;
                            assert(after[k] == before[k]);
                        }
                    }
                    assert(class_chars(after) =~= class_chars(before)) by {
                        assert forall|c: char| class_chars(after).contains(c) == class_chars(before).contains(c) by {
                            if class_chars(after).contains(c) {
                                let k = choose|k: int|
                                    0 <= k < after.len() && #[trigger] after[k] is CharClass && ranges_set(
                                        after[k]->CharClass_0,
                                    ).contains(c);
                                assert(before[k] == after[k]);
                            }
                            if class_chars(before).contains(c) {
                                let k = choose|k: int|
                                    0 <= k < before.len() && #[trigger] before[k] is CharClass && ranges_set(
                                        before[k]->CharClass_0,
                                    ).contains(c);
                                assert(after[k] == before[k]);
                            }
                        }
                    }
                }
            },
        }
        i += 1;
    }
    proof {
        assert(es.take(es.len() as int) =~= es);
    }
    let ghost others = alts@;
    let ghost rs = union.range_seq();
    let mut all: Vec<Pattern> = if has {
        let mut v = vec![Pattern::CharClass(union)];
        let ghost head = v@;
        v.append(&mut alts);
        proof {
            assert(v@ == seq![head[0]] + others);
            lemma_pviews_cons(head[0], others);
        }
        v
    } else {
        alts
    };
    let ghost alts_v = if has {
        seq![PatternV::CharClass(rs)] + other_alts(es)
    } else {
        other_alts(es)
    };
    assert(pviews(all@) == alts_v);
    proof {
        lemma_pviews_index(all@);
    }
    let p = if all.len() == 1 {
        let ghost only = all@[0];
        let p = all.pop().unwrap();
        assert(p == only);
        p
    } else {
        Pattern::OrderedChoice(all)
    };
    assert(p@ == choice_of(alts_v));
    proof {
        if has {
            assert(ranges_set(rs) == class_chars(es));
        }
        assert(boundary_shape(es, p@));
    }
    p
}

/// What `p`, followed by `t`, becomes once its `^^label` placeholders are
/// lowered: each placeholder followed by a non-empty set is replaced by
/// the explicit boundary catch whose boundary is built from that set;
/// everything else keeps its shape.
pub open spec fn resolves_to(
    p: PatternV,
    t: Set<FollowV>,
    names: Seq<Seq<char>>,
    nl: Seq<bool>,
    out: PatternV,
) -> bool
    decreases p, 0int,
{
    match p {
        PatternV::Sequence(items) => match out {
            PatternV::Sequence(outs) => outs.len() == items.len() && seq_resolves(
                items,
                outs,
                items.len() as int,
                t,
                names,
                nl,
            ),
            _ => false,
        },
        PatternV::OrderedChoice(items) => match out {
            PatternV::OrderedChoice(outs) => outs.len() == items.len() && choice_resolves(
                items,
                outs,
                items.len() as int,
                t,
                names,
                nl,
            ),
            _ => false,
        },
        PatternV::Repeat(inner) => match out {
            PatternV::Repeat(o) => resolves_to(*inner, t.union(first_of(*inner, names, nl)), names, nl, *o),
            _ => false,
        },
        PatternV::RepeatOne(inner) => match out {
            PatternV::RepeatOne(o) => resolves_to(
                *inner,
                t.union(first_of(*inner, names, nl)),
                names,
                nl,
                *o,
            ),
            _ => false,
        },
        PatternV::Optional(inner) => match out {
            PatternV::Optional(o) => resolves_to(*inner, t, names, nl, *o),
            _ => false,
        },
        PatternV::NotPredicate(inner) => match out {
            PatternV::NotPredicate(o) => resolves_to(*inner, Set::empty(), names, nl, *o),
            _ => false,
        },
        PatternV::AndPredicate(inner) => match out {
            PatternV::AndPredicate(o) => resolves_to(*inner, Set::empty(), names, nl, *o),
            _ => false,
        },
        PatternV::Capture(k, inner) => match out {
            PatternV::Capture(k2, o) => k2 == k && resolves_to(*inner, t, names, nl, *o),
            _ => false,
        },
        PatternV::Catch { inner, label, recovery } => match out {
            PatternV::Catch { inner: oi, label: ol, recovery: orc } => ol == label && resolves_to(
                *inner,
                t,
                names,
                nl,
                *oi,
            ) && resolves_to(*recovery, t, names, nl, *orc),
            _ => false,
        },
        PatternV::Lenient(inner) => match out {
            PatternV::Lenient(o) => resolves_to(*inner, t, names, nl, *o),
            _ => false,
        },
        PatternV::InferBoundaryCatch { inner, label } => t != Set::<FollowV>::empty() && exists|
            oi: PatternV,
            b: PatternV,
        |
            #![trigger lowered_catch(oi, label, b)]
            out == lowered_catch(oi, label, b) && resolves_to(*inner, t, names, nl, oi) && boundary_for(
                t,
                b,
            ),
        _ => out == p,
    }
}

/// The first `k` items of a sequence followed by `t` resolve to `outs`.
pub open spec fn seq_resolves(
    items: Seq<PatternV>,
    outs: Seq<PatternV>,
    k: int,
    t: Set<FollowV>,
    names: Seq<Seq<char>>,
    nl: Seq<bool>,
) -> bool
    decreases items, k,
{
    if k <= 0 || k > items.len() {
        true
    } else {
        seq_resolves(items, outs, k - 1, t, names, nl) && resolves_to(
            items[k - 1],
            suffix_trailing(items.subrange(k, items.len() as int), t, names, nl),
            names,
            nl,
            outs[k - 1],
        )
    }
}

/// The first `k` alternatives of a choice followed by `t` resolve to `outs`.
pub open spec fn choice_resolves(
    items: Seq<PatternV>,
    outs: Seq<PatternV>,
    k: int,
    t: Set<FollowV>,
    names: Seq<Seq<char>>,
    nl: Seq<bool>,
) -> bool
    decreases items, k,
{
    if k <= 0 || k > items.len() {
        true
    } else {
        choice_resolves(items, outs, k - 1, t, names, nl) && resolves_to(
            items[k - 1],
            t,
            names,
            nl,
            outs[k - 1],
        )
    }
}

/// Some `^^label` placeholder in `p`, followed by `t`, is followed by
/// nothing, so its boundary cannot be inferred.
pub open spec fn unresolvable(p: PatternV, t: Set<FollowV>, names: Seq<Seq<char>>, nl: Seq<bool>) -> bool
    decreases p, 0int,
{
    match p {
        PatternV::Sequence(items) => seq_unresolvable(items, items.len() as int, t, names, nl),
        PatternV::OrderedChoice(items) => choice_unresolvable(items, items.len() as int, t, names, nl),
        PatternV::Repeat(inner) => unresolvable(*inner, t.union(first_of(*inner, names, nl)), names, nl),
        PatternV::RepeatOne(inner) => unresolvable(*inner, t.union(first_of(*inner, names, nl)), names, nl),
        PatternV::Optional(inner) => unresolvable(*inner, t, names, nl),
        PatternV::NotPredicate(inner) => unresolvable(*inner, Set::empty(), names, nl),
        PatternV::AndPredicate(inner) => unresolvable(*inner, Set::empty(), names, nl),
        PatternV::Capture(_, inner) => unresolvable(*inner, t, names, nl),
        PatternV::Catch { inner, recovery, .. } => unresolvable(*inner, t, names, nl) || unresolvable(
            *recovery,
            t,
            names,
            nl,
        ),
        PatternV::Lenient(inner) => unresolvable(*inner, t, names, nl),
        PatternV::InferBoundaryCatch { inner, .. } => t == Set::<FollowV>::empty() || unresolvable(
            *inner,
            t,
            names,
            nl,
        ),
        _ => false,
    }
}

pub open spec fn seq_unresolvable(
    items: Seq<PatternV>,
    k: int,
    t: Set<FollowV>,
    names: Seq<Seq<char>>,
    nl: Seq<bool>,
) -> bool
    decreases items, k,
{
    if k <= 0 || k > items.len() {
        false
    } else {
        seq_unresolvable(items, k - 1, t, names, nl) || unresolvable(
            items[k - 1],
            suffix_trailing(items.subrange(k, items.len() as int), t, names, nl),
            names,
            nl,
        )
    }
}

pub open spec fn choice_unresolvable(
    items: Seq<PatternV>,
    k: int,
    t: Set<FollowV>,
    names: Seq<Seq<char>>,
    nl: Seq<bool>,
) -> bool
    decreases items, k,
{
    if k <= 0 || k > items.len() {
        false
    } else {
        choice_unresolvable(items, k - 1, t, names, nl) || unresolvable(items[k - 1], t, names, nl)
    }
}

proof fn lemma_seq_unresolvable_grows(
    items: Seq<PatternV>,
    k: int,
    m: int,
    t: Set<FollowV>,
    names: Seq<Seq<char>>,
    nl: Seq<bool>,
)
    requires
        0 <= k <= m <= items.len(),
        seq_unresolvable(items, k, t, names, nl),
    ensures
        seq_unresolvable(items, m, t, names, nl),
    decreases m - k,
{
    if k < m {
        lemma_seq_unresolvable_grows(items, k, m - 1, t, names, nl);
    }
}

proof fn lemma_choice_unresolvable_grows(
    items: Seq<PatternV>,
    k: int,
    m: int,
    t: Set<FollowV>,
    names: Seq<Seq<char>>,
    nl: Seq<bool>,
)
    requires
        0 <= k <= m <= items.len(),
        choice_unresolvable(items, k, t, names, nl),
    ensures
        choice_unresolvable(items, m, t, names, nl),
    decreases m - k,
{
    if k < m {
        lemma_choice_unresolvable_grows(items, k, m - 1, t, names, nl);
    }
}

proof fn lemma_seq_resolves_prefix(
    items: Seq<PatternV>,
    a: Seq<PatternV>,
    b: Seq<PatternV>,
    k: int,
    t: Set<FollowV>,
    names: Seq<Seq<char>>,
    nl: Seq<bool>,
)
    requires
        0 <= k <= a.len(),
        k <= b.len(),
        forall|m: int| 0 <= m < k ==> a[m] == b[m],
    ensures
        seq_resolves(items, a, k, t, names, nl) == seq_resolves(items, b, k, t, names, nl),
    decreases k,
{
    if k > 0 {
        lemma_seq_resolves_prefix(items, a, b, k - 1, t, names, nl);
    }
}

proof fn lemma_choice_resolves_prefix(
    items: Seq<PatternV>,
    a: Seq<PatternV>,
    b: Seq<PatternV>,
    k: int,
    t: Set<FollowV>,
    names: Seq<Seq<char>>,
    nl: Seq<bool>,
)
    requires
        0 <= k <= a.len(),
        k <= b.len(),
        forall|m: int| 0 <= m < k ==> a[m] == b[m],
    ensures
        choice_resolves(items, a, k, t, names, nl) == choice_resolves(items, b, k, t, names, nl),
    decreases k,
{
    if k > 0 {
        lemma_choice_resolves_prefix(items, a, b, k - 1, t, names, nl);
    }
}

/// Lower the `^^label` placeholders of `p`, which is followed by
/// `trailing`: each becomes the explicit boundary catch whose boundary is
/// synthesized from the FOLLOW set in force at it. A placeholder followed
/// by nothing fails with `CannotInferBoundary`.
pub fn resolve_in_pattern(
    p: &Pattern,
    trailing: &FollowSet,
    rules: &Vec<(String, Pattern)>,
    nl: &Vec<bool>,
    rule_name: &String,
) -> (r: Result<Pattern, CompileError>)
    requires
        nl@.len() == rules@.len(),
    ensures
        r is Ok <==> !unresolvable(p@, trailing.members(), names_of_rules(rules@), nl@),
        r matches Ok(o) ==> resolves_to(p@, trailing.members(), names_of_rules(rules@), nl@, o@),
        r matches Err(e) ==> e matches CompileError::CannotInferBoundary { rule, .. } && rule@
            == rule_name@,
    decreases p,
{
    let ghost names = names_of_rules(rules@);
    let ghost t = trailing.members();
    match p {
        Pattern::Sequence(items) => {
            let ghost vs = pviews(items@);
            proof {
                lemma_pviews_index(items@);
            }
            let mut out: Vec<Pattern> = Vec::new();
            let mut i: usize = 0;
            while i < items.len()
                invariant
                    *p == Pattern::Sequence(*items),
                    vs == pviews(items@),
                    vs.len() == items@.len(),
                    forall|k: int| 0 <= k < items@.len() ==> #[trigger] vs[k] == pview(items@[k]),
                    names == names_of_rules(rules@),
                    nl@.len() == rules@.len(),
                    t == trailing.members(),
                    i <= items@.len(),
                    out@.len() == i,
                    pviews(out@).len() == i,
                    seq_resolves(vs, pviews(out@), i as int, t, names, nl@),
                    !seq_unresolvable(vs, i as int, t, names, nl@),
                decreases items.len() - i,
            {
                proof {
                    vstd::std_specs::vec::axiom_vec_index_decreases(*items, i as int);
                    assert(decreases_to!(*p => (*p)->Sequence_0));
                }
                let sub = sequence_suffix_trailing(items, i + 1, trailing, rules, nl);
                match resolve_in_pattern(&items[i], &sub, rules, nl, rule_name) {
                    Err(e) => {
                        proof {
                            assert(seq_unresolvable(vs, i + 1, t, names, nl@));
                            lemma_seq_unresolvable_grows(vs, i + 1, vs.len() as int, t, names, nl@);
                        }
                        return Err(e);
                    },
                    Ok(o) => {
                        let ghost before = out@;
                        out.push(o);
                        proof {
                            lemma_pviews_push(before, o);
                            lemma_seq_resolves_prefix(vs, pviews(before), pviews(out@), i as int, t, names, nl@);
                        }
                    },
                }
                i += 1;
            }
            let r = Pattern::Sequence(out);
            assert(r@ == PatternV::Sequence(pviews(out@)));
            Ok(r)
        },
        Pattern::OrderedChoice(items) => {
            let ghost vs = pviews(items@);
            proof {
                lemma_pviews_index(items@);
            }
            let mut out: Vec<Pattern> = Vec::new();
            let mut i: usize = 0;
            while i < items.len()
                invariant
                    *p == Pattern::OrderedChoice(*items),
                    vs == pviews(items@),
                    vs.len() == items@.len(),
                    forall|k: int| 0 <= k < items@.len() ==> #[trigger] vs[k] == pview(items@[k]),
                    names == names_of_rules(rules@),
                    nl@.len() == rules@.len(),
                    t == trailing.members(),
                    i <= items@.len(),
                    out@.len() == i,
                    pviews(out@).len() == i,
                    choice_resolves(vs, pviews(out@), i as int, t, names, nl@),
                    !choice_unresolvable(vs, i as int, t, names, nl@),
                decreases items.len() - i,
            {
                proof {
                    vstd::std_specs::vec::axiom_vec_index_decreases(*items, i as int);
                    assert(decreases_to!(*p => (*p)->OrderedChoice_0));
                }
                match resolve_in_pattern(&items[i], trailing, rules, nl, rule_name) {
                    Err(e) => {
                        proof {
                            assert(choice_unresolvable(vs, i + 1, t, names, nl@));
                            lemma_choice_unresolvable_grows(vs, i + 1, vs.len() as int, t, names, nl@);
                        }
                        return Err(e);
                    },
                    Ok(o) => {
                        let ghost before = out@;
                        out.push(o);
                        proof {
                            lemma_pviews_push(before, o);
                            lemma_choice_resolves_prefix(vs, pviews(before), pviews(out@), i as int, t, names, nl@);
                        }
                    },
                }
                i += 1;
            }
            let r = Pattern::OrderedChoice(out);
            assert(r@ == PatternV::OrderedChoice(pviews(out@)));
            Ok(r)
        },
        Pattern::Repeat(inner) => {
            let mut sub = trailing.copy();
            let f = pattern_first(inner, rules, nl);
            sub.extend_from(&f);
            let o = resolve_in_pattern(inner, &sub, rules, nl, rule_name)?;
            let r = Pattern::Repeat(Box::new(o));
            assert(r@ == PatternV::Repeat(Box::new(o@)));
            Ok(r)
        },
        Pattern::RepeatOne(inner) => {
            let mut sub = trailing.copy();
            let f = pattern_first(inner, rules, nl);
            sub.extend_from(&f);
            let o = resolve_in_pattern(inner, &sub, rules, nl, rule_name)?;
            let r = Pattern::RepeatOne(Box::new(o));
            assert(r@ == PatternV::RepeatOne(Box::new(o@)));
            Ok(r)
        },
        Pattern::Optional(inner) => {
            let o = resolve_in_pattern(inner, trailing, rules, nl, rule_name)?;
            let r = Pattern::Optional(Box::new(o));
            assert(r@ == PatternV::Optional(Box::new(o@)));
            Ok(r)
        },
        Pattern::NotPredicate(inner) => {
            let none = FollowSet::new();
            let o = resolve_in_pattern(inner, &none, rules, nl, rule_name)?;
            let r = Pattern::NotPredicate(Box::new(o));
            assert(r@ == PatternV::NotPredicate(Box::new(o@)));
            Ok(r)
        },
        Pattern::AndPredicate(inner) => {
            let none = FollowSet::new();
            let o = resolve_in_pattern(inner, &none, rules, nl, rule_name)?;
            let r = Pattern::AndPredicate(Box::new(o));
            assert(r@ == PatternV::AndPredicate(Box::new(o@)));
            Ok(r)
        },
        Pattern::Capture(kind, inner) => {
            let o = resolve_in_pattern(inner, trailing, rules, nl, rule_name)?;
            let r = Pattern::Capture(kind.clone(), Box::new(o));
            assert(r@ == PatternV::Capture(kind@, Box::new(o@)));
            Ok(r)
        },
        Pattern::Lenient(inner) => {
            let o = resolve_in_pattern(inner, trailing, rules, nl, rule_name)?;
            let r = Pattern::Lenient(Box::new(o));
            assert(r@ == PatternV::Lenient(Box::new(o@)));
            Ok(r)
        },
        Pattern::Catch { inner, label, recovery } => {
            let oi = resolve_in_pattern(inner, trailing, rules, nl, rule_name)?;
            let orc = resolve_in_pattern(recovery, trailing, rules, nl, rule_name)?;
            let r = Pattern::Catch { inner: Box::new(oi), label: label.clone(), recovery: Box::new(orc) };
            assert(r@ == PatternV::Catch {
                inner: Box::new(oi@),
                label: label@,
                recovery: Box::new(orc@),
            });
            Ok(r)
        },
        Pattern::InferBoundaryCatch { inner, label } => {
            if trailing.is_empty() {
                return Err(CompileError::CannotInferBoundary { rule: rule_name.clone(), label: label.clone() });
            }
            let boundary = follow_set_to_boundary_pattern(trailing);
            let oi = resolve_in_pattern(inner, trailing, rules, nl, rule_name)?;
            let ghost oiv = oi@;
            let ghost bv = boundary@;
            let r = lower_boundary_catch(oi, label.clone(), boundary);
            assert(r@ == lowered_catch(oiv, label@, bv));
            Ok(r)
        },
        Pattern::Literal(b) => Ok(Pattern::Literal(copy_bytes(b))),
        Pattern::CharClass(cs) => Ok(Pattern::CharClass(cs.clone())),
        Pattern::AnyChar => Ok(Pattern::AnyChar),
        Pattern::NonTerminal(n) => Ok(Pattern::NonTerminal(n.clone())),
    }
}

proof fn lemma_element_free(e: FollowV)
    ensures
        placeholder_free(element_pattern(e)),
    decreases e,
{
    match e {
        FollowV::Capture(k, inner) => {
            lemma_element_free(*inner);
            assert(element_pattern(e) == PatternV::Capture(k, Box::new(element_pattern(*inner))));
        },
        FollowV::Eof => {
            assert(placeholder_free(PatternV::AnyChar));
        },
        _ => {},
    }
}

proof fn lemma_other_alts_free(es: Seq<FollowV>)
    ensures
        forall|k: int| 0 <= k < other_alts(es).len() ==> #[trigger] placeholder_free(other_alts(es)[k]),
    decreases es.len(),
{
    if es.len() > 0 {
        lemma_other_alts_free(es.drop_last());
        lemma_element_free(es.last());
        let prev = other_alts(es.drop_last());
        assert forall|k: int| 0 <= k < other_alts(es).len() implies #[trigger] placeholder_free(
            other_alts(es)[k],
        ) by {
            if k < prev.len() {
                assert(other_alts(es)[k] == prev[k]);
            }
        }
    }
}

/// A boundary synthesized from a FOLLOW set holds no placeholder.
proof fn lemma_boundary_free(t: Set<FollowV>, b: PatternV)
    requires
        boundary_for(t, b),
    ensures
        placeholder_free(b),
{
    let es = choose|es: Seq<FollowV>| es.no_duplicates() && es.to_set() == t && #[trigger] boundary_shape(es, b);
    lemma_other_alts_free(es);
    let alts = if has_class(es) {
        let rs = choose|rs: Seq<(char, char)>|
            ranges_set(rs) == class_chars(es) && b == choice_of(seq![PatternV::CharClass(rs)] + other_alts(es));
        let a = seq![PatternV::CharClass(rs)] + other_alts(es);
        assert forall|k: int| 0 <= k < a.len() implies #[trigger] placeholder_free(a[k]) by {
            if k > 0 {
                assert(a[k] == other_alts(es)[k - 1]);
            }
        }
        a
    } else {
        other_alts(es)
    };
    assert(b == choice_of(alts));
    lemma_items_free_all(alts);
}

/// Lowering leaves no placeholder behind.
pub proof fn lemma_resolves_free(
    p: PatternV,
    t: Set<FollowV>,
    names: Seq<Seq<char>>,
    nl: Seq<bool>,
    out: PatternV,
)
    requires
        resolves_to(p, t, names, nl, out),
    ensures
        placeholder_free(out),
    decreases p, 0int,
{
    match p {
        PatternV::Sequence(items) => match out {
            PatternV::Sequence(outs) => {
                lemma_seq_resolves_free(items, outs, items.len() as int, t, names, nl);
                lemma_items_free_all(outs);
            },
            _ => {},
        },
        PatternV::OrderedChoice(items) => match out {
            PatternV::OrderedChoice(outs) => {
                lemma_choice_resolves_free(items, outs, items.len() as int, t, names, nl);
                lemma_items_free_all(outs);
            },
            _ => {},
        },
        PatternV::Repeat(inner) => lemma_resolves_free(
            *inner,
            t.union(first_of(*inner, names, nl)),
            names,
            nl,
            *out->Repeat_0,
        ),
        PatternV::RepeatOne(inner) => lemma_resolves_free(
            *inner,
            t.union(first_of(*inner, names, nl)),
            names,
            nl,
            *out->RepeatOne_0,
        ),
        PatternV::Optional(inner) => lemma_resolves_free(*inner, t, names, nl, *out->Optional_0),
        PatternV::NotPredicate(inner) => lemma_resolves_free(*inner, Set::empty(), names, nl, *out->NotPredicate_0),
        PatternV::AndPredicate(inner) => lemma_resolves_free(*inner, Set::empty(), names, nl, *out->AndPredicate_0),
        PatternV::Capture(_, inner) => lemma_resolves_free(*inner, t, names, nl, *out->Capture_1),
        PatternV::Catch { inner, recovery, .. } => {
            lemma_resolves_free(*inner, t, names, nl, *out->Catch_inner);
            lemma_resolves_free(*recovery, t, names, nl, *out->Catch_recovery);
        },
        PatternV::Lenient(inner) => lemma_resolves_free(*inner, t, names, nl, *out->Lenient_0),
        PatternV::InferBoundaryCatch { inner, label } => {
            let (oi, b) = choose|oi: PatternV, b: PatternV|
                #![trigger lowered_catch(oi, label, b)]
                out == lowered_catch(oi, label, b) && resolves_to(*inner, t, names, nl, oi) && boundary_for(t, b);
            lemma_resolves_free(*inner, t, names, nl, oi);
            lemma_boundary_free(t, b);
            let a = seq![oi, PatternV::AndPredicate(Box::new(b))];
            assert(placeholder_free(a[1]));
            lemma_items_free_all(a);
            assert(placeholder_free(PatternV::Sequence(a)));
            let c = seq![PatternV::NotPredicate(Box::new(b)), PatternV::AnyChar];
            assert(placeholder_free(c[0]));
            assert(placeholder_free(c[1]));
            lemma_items_free_all(c);
            assert(placeholder_free(PatternV::Sequence(c)));
            assert(placeholder_free(stop_loop_view(b)));
            assert(placeholder_free(PatternV::Capture(super::parser::recovery_label(), Box::new(stop_loop_view(b)))));
        },
        _ => {},
    }
}

proof fn lemma_seq_resolves_free(
    items: Seq<PatternV>,
    outs: Seq<PatternV>,
    k: int,
    t: Set<FollowV>,
    names: Seq<Seq<char>>,
    nl: Seq<bool>,
)
    requires
        0 <= k <= items.len(),
        k <= outs.len(),
        seq_resolves(items, outs, k, t, names, nl),
        outs.len() == items.len(),
    ensures
        forall|m: int| 0 <= m < k ==> #[trigger] placeholder_free(outs[m]),
    decreases items, k,
{
    if k > 0 {
        lemma_seq_resolves_free(items, outs, k - 1, t, names, nl);
        lemma_resolves_free(
            items[k - 1],
            suffix_trailing(items.subrange(k, items.len() as int), t, names, nl),
            names,
            nl,
            outs[k - 1],
        );
    }
}

proof fn lemma_choice_resolves_free(
    items: Seq<PatternV>,
    outs: Seq<PatternV>,
    k: int,
    t: Set<FollowV>,
    names: Seq<Seq<char>>,
    nl: Seq<bool>,
)
    requires
        0 <= k <= items.len(),
        k <= outs.len(),
        choice_resolves(items, outs, k, t, names, nl),
        outs.len() == items.len(),
    ensures
        forall|m: int| 0 <= m < k ==> #[trigger] placeholder_free(outs[m]),
    decreases items, k,
{
    if k > 0 {
        lemma_choice_resolves_free(items, outs, k - 1, t, names, nl);
        lemma_resolves_free(items[k - 1], t, names, nl, outs[k - 1]);
    }
}

/// The FOLLOW sets of the grammar: the least assignment meeting the
/// FOLLOW constraints.
pub open spec fn rule_follow(names: Seq<Seq<char>>, bodies: Seq<PatternV>, nl: Seq<bool>) -> Seq<
    Set<FollowV>,
> {
    choose|f: Seq<Set<FollowV>>| follow_least(names, bodies, nl, f)
}

/// There is one least assignment.
pub proof fn lemma_follow_least_unique(
    names: Seq<Seq<char>>,
    bodies: Seq<PatternV>,
    nl: Seq<bool>,
    f: Seq<Set<FollowV>>,
)
    requires
        follow_least(names, bodies, nl, f),
    ensures
        rule_follow(names, bodies, nl) == f,
{
    let g = rule_follow(names, bodies, nl);
    assert(follow_least(names, bodies, nl, g));
    assert(follow_closed(names, bodies, nl, g));
    assert(follow_closed(names, bodies, nl, f));
    assert forall|j: int| 0 <= j < f.len() implies #[trigger] g[j] == f[j] by {
        assert(f[j].subset_of(g[j]));
        assert(g[j].subset_of(f[j]));
        assert(g[j] =~= f[j]);
    }
    assert(g =~= f);
}

/// Lower every `^^label` placeholder of every rule, each rule's body
/// followed by that rule's FOLLOW set.
pub fn resolve_inferred_boundaries(rules: &Vec<(String, Pattern)>) -> (r: Result<
    Vec<(String, Pattern)>,
    CompileError,
>)
    ensures
        ({
            let names = names_of_rules(rules@);
            let bodies = bodies_of_rules(rules@);
            let nl = rule_nullable(names, bodies);
            let f = rule_follow(names, bodies, nl);
            &&& r is Ok <==> forall|i: int|
                0 <= i < rules@.len() ==> !#[trigger] unresolvable(bodies[i], f[i], names, nl)
            &&& r matches Ok(out) ==> {
                &&& out@.len() == rules@.len()
                &&& names_of_rules(out@) == names
                &&& forall|i: int|
                    0 <= i < rules@.len() ==> #[trigger] resolves_to(
                        bodies[i],
                        f[i],
                        names,
                        nl,
                        pview(out@[i].1),
                    )
                &&& forall|i: int| 0 <= i < rules@.len() ==> resolved(#[trigger] out@[i].1)
            }
            &&& r matches Err(e) ==> e matches CompileError::CannotInferBoundary { rule, .. } && exists|
                i: int,
            |
                0 <= i < rules@.len() && names[i] == rule@ && #[trigger] unresolvable(
                    bodies[i],
                    f[i],
                    names,
                    nl,
                )
        }),
{
    let ghost names = names_of_rules(rules@);
    let ghost bodies = bodies_of_rules(rules@);
    let nl = compute_nullable(rules);
    let follow = compute_follow(rules);
    let ghost f = member_sets(follow@);
    proof {
        lemma_follow_least_unique(names, bodies, nl@, f);
    }
    let mut out: Vec<(String, Pattern)> = Vec::new();
    let mut i: usize = 0;
    while i < rules.len()
        invariant
            names == names_of_rules(rules@),
            bodies == bodies_of_rules(rules@),
            nl@ == rule_nullable(names, bodies),
            nl@.len() == rules@.len(),
            follow@.len() == rules@.len(),
            f == member_sets(follow@),
            f == rule_follow(names, bodies, nl@),
            i <= rules@.len(),
            out@.len() == i,
            forall|k: int| 0 <= k < i ==> (#[trigger] out@[k]).0@ == names[k],
            forall|k: int|
                0 <= k < i ==> resolves_to(bodies[k], f[k], names, nl@, pview(#[trigger] out@[k].1)),
            forall|k: int| 0 <= k < i ==> resolved(#[trigger] out@[k].1),
            forall|k: int| 0 <= k < i ==> !#[trigger] unresolvable(bodies[k], f[k], names, nl@),
        decreases rules.len() - i,
    {
        assert(f[i as int] == follow@[i as int].members());
        assert(bodies[i as int] == pview(rules@[i as int].1));
        let name = &rules[i].0;
        match resolve_in_pattern(&rules[i].1, &follow[i], rules, &nl, name) {
            Ok(body) => {
                proof {
                    lemma_resolves_free(bodies[i as int], f[i as int], names, nl@, body@);
                    lemma_resolved_view(body);
                }
                out.push((name.clone(), body));
            },
            Err(e) => {
                proof {
                    assert(names[i as int] == name@);
                }
                return Err(e);
            },
        }
        i += 1;
    }
    proof {
        assert(names_of_rules(out@) =~= names);
    }
    Ok(out)
}

} // verus!
