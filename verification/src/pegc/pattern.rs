//! Grammar AST.
use vstd::prelude::*;

use vstd::string::*;

use crate::pegvm::CharSet;

verus! {

/// A parsing expression.
#[derive(Debug)]
pub enum Pattern {
    Literal(Vec<u8>),
    CharClass(CharSet),
    AnyChar,
    Sequence(Vec<Pattern>),
    OrderedChoice(Vec<Pattern>),
    Repeat(Box<Pattern>),
    RepeatOne(Box<Pattern>),
    Optional(Box<Pattern>),
    NotPredicate(Box<Pattern>),
    AndPredicate(Box<Pattern>),
    NonTerminal(String),
    Capture(String, Box<Pattern>),
    /// Try `inner`; on failure restore its deepest-reach captures and run
    /// `recovery` from there. `label` is a diagnostic tag.
    Catch { inner: Box<Pattern>, label: String, recovery: Box<Pattern> },
    /// Runtime-transparent marker that a call site is intentionally lenient.
    Lenient(Box<Pattern>),
    /// Boundary-anchored catch whose boundary is inferred from FOLLOW;
    /// replaced before compilation.
    InferBoundaryCatch { inner: Box<Pattern>, label: String },
}

/// Abstract value of a pattern: byte strings, names and character sets
/// by their contents.
pub enum PatternV {
    Literal(Seq<u8>),
    CharClass(Seq<(char, char)>),
    AnyChar,
    Sequence(Seq<PatternV>),
    OrderedChoice(Seq<PatternV>),
    Repeat(Box<PatternV>),
    RepeatOne(Box<PatternV>),
    Optional(Box<PatternV>),
    NotPredicate(Box<PatternV>),
    AndPredicate(Box<PatternV>),
    NonTerminal(Seq<char>),
    Capture(Seq<char>, Box<PatternV>),
    Catch { inner: Box<PatternV>, label: Seq<char>, recovery: Box<PatternV> },
    Lenient(Box<PatternV>),
    InferBoundaryCatch { inner: Box<PatternV>, label: Seq<char> },
}

/// The abstract value of a pattern.
pub open spec fn pview(p: Pattern) -> PatternV
    decreases p,
{
    match p {
        Pattern::Literal(b) => PatternV::Literal(b@),
        Pattern::CharClass(cs) => PatternV::CharClass(cs.range_seq()),
        Pattern::AnyChar => PatternV::AnyChar,
        Pattern::Sequence(items) => PatternV::Sequence(pviews(items@)),
        Pattern::OrderedChoice(items) => PatternV::OrderedChoice(pviews(items@)),
        Pattern::Repeat(inner) => PatternV::Repeat(Box::new(pview(*inner))),
        Pattern::RepeatOne(inner) => PatternV::RepeatOne(Box::new(pview(*inner))),
        Pattern::Optional(inner) => PatternV::Optional(Box::new(pview(*inner))),
        Pattern::NotPredicate(inner) => PatternV::NotPredicate(Box::new(pview(*inner))),
        Pattern::AndPredicate(inner) => PatternV::AndPredicate(Box::new(pview(*inner))),
        Pattern::NonTerminal(n) => PatternV::NonTerminal(n@),
        Pattern::Capture(k, inner) => PatternV::Capture(k@, Box::new(pview(*inner))),
        Pattern::Catch { inner, label, recovery } => PatternV::Catch {
            inner: Box::new(pview(*inner)),
            label: label@,
            recovery: Box::new(pview(*recovery)),
        },
        Pattern::Lenient(inner) => PatternV::Lenient(Box::new(pview(*inner))),
        Pattern::InferBoundaryCatch { inner, label } => PatternV::InferBoundaryCatch {
            inner: Box::new(pview(*inner)),
            label: label@,
        },
    }
}

/// Abstract values of a list of patterns.
pub open spec fn pviews(items: Seq<Pattern>) -> Seq<PatternV>
    decreases items,
{
    if items.len() == 0 {
        Seq::empty()
    } else {
        seq![pview(items[0])] + pviews(items.drop_first())
    }
}

impl View for Pattern {
    type V = PatternV;

    open spec fn view(&self) -> PatternV {
        pview(*self)
    }
}

/// Number of nodes of a pattern tree.
pub open spec fn pattern_size(p: Pattern) -> nat
    decreases p,
{
    match p {
        Pattern::Sequence(items) => 1 + seq_size(items@),
        Pattern::OrderedChoice(items) => 1 + seq_size(items@),
        Pattern::Repeat(inner) => 1 + pattern_size(*inner),
        Pattern::RepeatOne(inner) => 1 + pattern_size(*inner),
        Pattern::Optional(inner) => 1 + pattern_size(*inner),
        Pattern::NotPredicate(inner) => 1 + pattern_size(*inner),
        Pattern::AndPredicate(inner) => 1 + pattern_size(*inner),
        Pattern::Capture(_, inner) => 1 + pattern_size(*inner),
        Pattern::Catch { inner, recovery, .. } => 1 + pattern_size(*inner) + pattern_size(*recovery),
        Pattern::Lenient(inner) => 1 + pattern_size(*inner),
        Pattern::InferBoundaryCatch { inner, .. } => 1 + pattern_size(*inner),
        _ => 1,
    }
}

pub open spec fn seq_size(items: Seq<Pattern>) -> nat
    decreases items,
{
    if items.len() == 0 {
        0
    } else {
        pattern_size(items[0]) + seq_size(items.drop_first())
    }
}

impl Pattern {
    /// The literal of a string's bytes.
    pub fn literal(s: &str) -> (p: Pattern)
        ensures
            p matches Pattern::Literal(b) && b@ == s.spec_bytes(),
    {
        Pattern::Literal(s.as_bytes_vec())
    }

    /// A sequence; a single item stands for itself.
    pub fn seq(items: Vec<Pattern>) -> (p: Pattern)
        ensures
            items@.len() == 1 ==> p == items@[0],
            items@.len() != 1 ==> p == Pattern::Sequence(items),
    {
        if items.len() == 1 {
            let mut items = items;
            items.pop().unwrap()
        } else {
            Pattern::Sequence(items)
        }
    }

    /// An ordered choice; a single alternative stands for itself.
    pub fn choice(items: Vec<Pattern>) -> (p: Pattern)
        ensures
            items@.len() == 1 ==> p == items@[0],
            items@.len() != 1 ==> p == Pattern::OrderedChoice(items),
    {
        if items.len() == 1 {
            let mut items = items;
            items.pop().unwrap()
        } else {
            Pattern::OrderedChoice(items)
        }
    }

    /// Labeled catch: `inner ^label recovery`.
    pub fn catch(inner: Pattern, label: &str, recovery: Pattern) -> (p: Pattern)
        ensures
            p matches Pattern::Catch { inner: i, label: l, recovery: r } && *i == inner && *r == recovery
                && l@ == label@,
    {
        Pattern::Catch { inner: Box::new(inner), label: label.to_string(), recovery: Box::new(recovery) }
    }

    /// The literal of a byte string.
    pub fn literal_bytes(bytes: Vec<u8>) -> (p: Pattern)
        ensures
            p == Pattern::Literal(bytes),
    {
        Pattern::Literal(bytes)
    }

    /// A call of the named rule.
    pub fn nt(name: &str) -> (p: Pattern)
        ensures
            p matches Pattern::NonTerminal(n) && n@ == name@,
    {
        Pattern::NonTerminal(name.to_string())
    }

    /// A character class.
    pub fn char_class(set: CharSet) -> (p: Pattern)
        ensures
            p == Pattern::CharClass(set),
    {
        Pattern::CharClass(set)
    }

    /// A capture of `inner` under `kind`.
    pub fn capture(kind: &str, inner: Pattern) -> (p: Pattern)
        ensures
            p matches Pattern::Capture(k, i) && k@ == kind@ && *i == inner,
    {
        Pattern::Capture(kind.to_string(), Box::new(inner))
    }

    /// `p?`.
    pub fn optional(inner: Pattern) -> (p: Pattern)
        ensures
            p == Pattern::Optional(Box::new(inner)),
    {
        Pattern::Optional(Box::new(inner))
    }

    /// `!p`.
    pub fn not_predicate(inner: Pattern) -> (p: Pattern)
        ensures
            p == Pattern::NotPredicate(Box::new(inner)),
    {
        Pattern::NotPredicate(Box::new(inner))
    }

    /// `.`.
    pub fn any_char() -> (p: Pattern)
        ensures
            p == Pattern::AnyChar,
    {
        Pattern::AnyChar
    }

    /// A structurally equal copy.
    pub fn deep_clone(&self) -> (r: Pattern)
        ensures
            r@ == self@,
        decreases self,
    {
        match self {
            Pattern::Literal(b) => Pattern::Literal(copy_bytes(b)),
            Pattern::CharClass(cs) => Pattern::CharClass(cs.clone()),
            Pattern::AnyChar => Pattern::AnyChar,
            Pattern::Sequence(items) => Pattern::Sequence(clone_items(items)),
            Pattern::OrderedChoice(items) => Pattern::OrderedChoice(clone_items(items)),
            Pattern::Repeat(inner) => Pattern::Repeat(Box::new(inner.deep_clone())),
            Pattern::RepeatOne(inner) => Pattern::RepeatOne(Box::new(inner.deep_clone())),
            Pattern::Optional(inner) => Pattern::Optional(Box::new(inner.deep_clone())),
            Pattern::NotPredicate(inner) => Pattern::NotPredicate(Box::new(inner.deep_clone())),
            Pattern::AndPredicate(inner) => Pattern::AndPredicate(Box::new(inner.deep_clone())),
            Pattern::NonTerminal(n) => Pattern::NonTerminal(n.clone()),
            Pattern::Capture(k, inner) => Pattern::Capture(k.clone(), Box::new(inner.deep_clone())),
            Pattern::Catch { inner, label, recovery } => Pattern::Catch {
                inner: Box::new(inner.deep_clone()),
                label: label.clone(),
                recovery: Box::new(recovery.deep_clone()),
            },
            Pattern::Lenient(inner) => Pattern::Lenient(Box::new(inner.deep_clone())),
            Pattern::InferBoundaryCatch { inner, label } => Pattern::InferBoundaryCatch {
                inner: Box::new(inner.deep_clone()),
                label: label.clone(),
            },
        }
    }
}

} // verus!

verus! {

/// Element-wise copy of a byte vector.
pub fn copy_bytes(b: &Vec<u8>) -> (r: Vec<u8>)
    ensures
        r@ == b@,
{
    let mut r: Vec<u8> = Vec::with_capacity(b.len());
    let mut i: usize = 0;
    while i < b.len()
        invariant
            i <= b.len(),
            r@ == b@.take(i as int),
        decreases b.len() - i,
    {
        r.push(b[i]);
        i += 1;
        proof {
            assert(r@ == b@.take(i as int));
        }
    }
    proof {
        assert(b@.take(b@.len() as int) == b@);
    }
    r
}

/// Structurally equal copies of a list of patterns.
pub fn clone_items(items: &Vec<Pattern>) -> (r: Vec<Pattern>)
    ensures
        pviews(r@) == pviews(items@),
        r@.len() == items@.len(),
    decreases items@,
{
    let mut r: Vec<Pattern> = Vec::with_capacity(items.len());
    let mut i: usize = 0;
    while i < items.len()
        invariant
            i <= items.len(),
            r@.len() == i,
            forall|k: int| 0 <= k < i ==> pview(#[trigger] r@[k]) == pview(items@[k]),
        decreases items.len() - i,
    {
        r.push(items[i].deep_clone());
        i += 1;
    }
    proof {
        lemma_pviews_pointwise(r@, items@);
    }
    r
}

} // verus!

verus! {

/// Lists with pointwise equal abstract values have equal abstract values.
pub proof fn lemma_pviews_pointwise(a: Seq<Pattern>, b: Seq<Pattern>)
    requires
        a.len() == b.len(),
        forall|k: int| 0 <= k < a.len() ==> pview(#[trigger] a[k]) == pview(b[k]),
    ensures
        pviews(a) == pviews(b),
    decreases a.len(),
{
    if a.len() > 0 {
        assert(pview(a[0]) == pview(b[0]));
        assert forall|k: int| 0 <= k < a.drop_first().len() implies pview(#[trigger] a.drop_first()[k])
            == pview(b.drop_first()[k]) by {
            assert(a.drop_first()[k] == a[k + 1]);
            assert(b.drop_first()[k] == b[k + 1]);
        }
        lemma_pviews_pointwise(a.drop_first(), b.drop_first());
    }
}

} // verus!

verus! {

/// `pviews` keeps length and position.
pub proof fn lemma_pviews_index(s: Seq<Pattern>)
    ensures
        pviews(s).len() == s.len(),
        forall|i: int| 0 <= i < s.len() ==> #[trigger] pviews(s)[i] == pview(s[i]),
    decreases s.len(),
{
    if s.len() > 0 {
        lemma_pviews_index(s.drop_first());
        assert forall|i: int| 0 <= i < s.len() implies #[trigger] pviews(s)[i] == pview(s[i]) by {
            if i > 0 {
                assert(s.drop_first()[i - 1] == s[i]);
            }
        }
    }
}

} // verus!
