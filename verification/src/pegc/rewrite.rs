//! Grammar rewrites that run before bytecode emission: `ignore` splicing
//! and the start-rule wrap.
use vstd::prelude::*;

use super::analysis::{bodies_of_rules, find_rule, holds_name, ignore_root, ignore_root_name, index_of, lemma_index_of, name_set, names_of_rules};
use super::compiler::{items_free, lemma_items_free_all, placeholder_free};
use super::parser::{Grammar, root_name, root_rule_name};
use super::pattern::{Pattern, PatternV, lemma_pviews_index, pview, pviews};

verus! {

/// Lists of patterns whose abstract values agree pointwise agree.
pub proof fn lemma_pviews_ext(v: Seq<Pattern>, t: Seq<PatternV>)
    requires
        v.len() == t.len(),
        forall|k: int| 0 <= k < v.len() ==> pview(#[trigger] v[k]) == t[k],
    ensures
        pviews(v) == t,
{
    lemma_pviews_index(v);
    assert(pviews(v) =~= t);
}

/// A call of the `ignore` rule.
pub open spec fn ignore_call_v() -> PatternV {
    PatternV::NonTerminal(ignore_root())
}

/// `items` with an `ignore` call between each two neighbours.
pub open spec fn splice_ignore(s: Seq<PatternV>) -> Seq<PatternV> {
    if s.len() < 2 {
        s
    } else {
        Seq::new((2 * s.len() - 1) as nat, |k: int| if k % 2 == 0 { s[k / 2] } else { ignore_call_v() })
    }
}

/// `q` with an `ignore` call in front, flattened into a sequence.
pub open spec fn prepend_ignore(q: PatternV) -> PatternV {
    match q {
        PatternV::Sequence(items) => PatternV::Sequence(seq![ignore_call_v()] + items),
        _ => PatternV::Sequence(seq![ignore_call_v(), q]),
    }
}

/// The body with `ignore` calls spliced between sequence items and in
/// front of every repetition's body, at every depth.
pub open spec fn inject_v(p: PatternV) -> PatternV
    decreases p,
{
    match p {
        PatternV::Sequence(items) => PatternV::Sequence(splice_ignore(inject_all(items))),
        PatternV::OrderedChoice(items) => PatternV::OrderedChoice(inject_all(items)),
        PatternV::Repeat(inner) => PatternV::Repeat(Box::new(prepend_ignore(inject_v(*inner)))),
        PatternV::RepeatOne(inner) => PatternV::RepeatOne(Box::new(prepend_ignore(inject_v(*inner)))),
        PatternV::Optional(inner) => PatternV::Optional(Box::new(inject_v(*inner))),
        PatternV::NotPredicate(inner) => PatternV::NotPredicate(Box::new(inject_v(*inner))),
        PatternV::AndPredicate(inner) => PatternV::AndPredicate(Box::new(inject_v(*inner))),
        PatternV::Lenient(inner) => PatternV::Lenient(Box::new(inject_v(*inner))),
        PatternV::Capture(k, inner) => PatternV::Capture(k, Box::new(inject_v(*inner))),
        PatternV::Catch { inner, label, recovery } => PatternV::Catch {
            inner: Box::new(inject_v(*inner)),
            label,
            recovery: Box::new(inject_v(*recovery)),
        },
        PatternV::InferBoundaryCatch { inner, label } => PatternV::InferBoundaryCatch {
            inner: Box::new(inject_v(*inner)),
            label,
        },
        _ => p,
    }
}

/// `inject_v` of each item.
pub open spec fn inject_all(items: Seq<PatternV>) -> Seq<PatternV>
    decreases items,
{
    if items.len() == 0 {
        Seq::empty()
    } else {
        inject_all(items.drop_last()).push(inject_v(items.last()))
    }
}

proof fn lemma_inject_all(items: Seq<PatternV>)
    ensures
        inject_all(items).len() == items.len(),
        forall|k: int| 0 <= k < items.len() ==> #[trigger] inject_all(items)[k] == inject_v(items[k]),
    decreases items.len(),
{
    if items.len() > 0 {
        lemma_inject_all(items.drop_last());
    }
}

/// Splicing `ignore` calls adds no placeholder.
pub proof fn lemma_inject_free(p: PatternV)
    requires
        placeholder_free(p),
    ensures
        placeholder_free(inject_v(p)),
    decreases p,
{
    match p {
        PatternV::Sequence(items) | PatternV::OrderedChoice(items) => {
            lemma_items_free_all(items);
            lemma_inject_all(items);
            let inj = inject_all(items);
            assert forall|k: int| 0 <= k < inj.len() implies #[trigger] placeholder_free(inj[k]) by {
                lemma_inject_free(items[k]);
            }
            lemma_items_free_all(inj);
            let sp = splice_ignore(inj);
            assert forall|k: int| 0 <= k < sp.len() implies #[trigger] placeholder_free(sp[k]) by {
                if inj.len() >= 2 && k % 2 == 0 {
                    assert(sp[k] == inj[k / 2]);
                }
            }
            lemma_items_free_all(sp);
        },
        PatternV::Repeat(inner) | PatternV::RepeatOne(inner) => {
            lemma_inject_free(*inner);
            lemma_prepend_free(inject_v(*inner));
        },
        PatternV::Optional(inner) => lemma_inject_free(*inner),
        PatternV::NotPredicate(inner) => lemma_inject_free(*inner),
        PatternV::AndPredicate(inner) => lemma_inject_free(*inner),
        PatternV::Lenient(inner) => lemma_inject_free(*inner),
        PatternV::Capture(_, inner) => lemma_inject_free(*inner),
        PatternV::Catch { inner, recovery, .. } => {
            lemma_inject_free(*inner);
            lemma_inject_free(*recovery);
        },
        _ => {},
    }
}

proof fn lemma_prepend_free(q: PatternV)
    requires
        placeholder_free(q),
    ensures
        placeholder_free(prepend_ignore(q)),
{
    let items = match q {
        PatternV::Sequence(items) => {
            lemma_items_free_all(items);
            seq![ignore_call_v()] + items
        },
        _ => seq![ignore_call_v(), q],
    };
    assert(prepend_ignore(q) == PatternV::Sequence(items));
    assert forall|k: int| 0 <= k < items.len() implies #[trigger] placeholder_free(items[k]) by {
        if let PatternV::Sequence(inner) = q {
            if k > 0 {
                assert(items[k] == inner[k - 1]);
            }
        }
    }
    lemma_items_free_all(items);
}

/// Wrapping the root adds no placeholder.
pub proof fn lemma_wrap_free(body: PatternV, active: bool)
    requires
        placeholder_free(body),
    ensures
        placeholder_free(wrap_v(body, active)),
{
    let opt = PatternV::Optional(Box::new(ignore_call_v()));
    let eof = PatternV::NotPredicate(Box::new(PatternV::AnyChar));
    assert(placeholder_free(ignore_call_v()));
    assert(placeholder_free(opt));
    assert(placeholder_free(PatternV::AnyChar));
    assert(placeholder_free(eof));
    let items = if active {
        seq![opt, body, opt, eof]
    } else {
        seq![body, eof]
    };
    assert forall|k: int| 0 <= k < items.len() implies #[trigger] placeholder_free(items[k]) by {}
    lemma_items_free_all(items);
}

/// A call of the `ignore` rule.
fn ignore_call() -> (p: Pattern)
    ensures
        p@ == ignore_call_v(),
{
    Pattern::NonTerminal(ignore_root_name())
}

fn prepend_ignore_exec(q: Pattern) -> (r: Pattern)
    ensures
        r@ == prepend_ignore(q@),
{
    match q {
        Pattern::Sequence(items) => {
            let mut out: Vec<Pattern> = vec![ignore_call()];
            let ghost src = items@;
            proof {
                lemma_pviews_index(items@);
            }
            let mut items = items;
            let mut rest: Vec<Pattern> = Vec::new();
            while items.len() > 0
                invariant
                    items@.len() + rest@.len() == src.len(),
                    forall|k: int| 0 <= k < rest@.len() ==> pview(#[trigger] rest@[k]) == pview(src[src.len() - 1 - k]),
                    forall|k: int| 0 <= k < items@.len() ==> #[trigger] items@[k] == src[k],
                decreases items@.len(),
            {
                let x = items.pop().unwrap();
                rest.push(x);
            }
            while rest.len() > 0
                invariant
                    out@.len() == 1 + src.len() - rest@.len(),
                    rest@.len() <= src.len(),
                    pview(out@[0]) == ignore_call_v(),
                    forall|k: int| 0 <= k < rest@.len() ==> pview(#[trigger] rest@[k]) == pview(src[src.len() - 1 - k]),
                    forall|k: int| 1 <= k < out@.len() ==> pview(#[trigger] out@[k]) == pview(src[k - 1]),
                decreases rest@.len(),
            {
                let x = rest.pop().unwrap();
                out.push(x);
            }
            proof {
                let t = seq![ignore_call_v()] + pviews(src);
                assert forall|k: int| 0 <= k < out@.len() implies pview(#[trigger] out@[k]) == t[k] by {
                    if k > 0 {
                        assert(t[k] == pviews(src)[k - 1]);
                    }
                }
                lemma_pviews_ext(out@, t);
            }
            Pattern::Sequence(out)
        },
        other => {
            let v = vec![ignore_call(), other];
            proof {
                lemma_pviews_ext(v@, seq![ignore_call_v(), pview(v@[1])]);
            }
            Pattern::Sequence(v)
        },
    }
}

/// The body with `ignore` calls spliced in.
pub fn inject_ignore_in(p: &Pattern) -> (r: Pattern)
    ensures
        r@ == inject_v(p@),
    decreases p,
{
    match p {
        Pattern::Sequence(items) | Pattern::OrderedChoice(items) => {
            let ghost vs = pviews(items@);
            proof {
                lemma_pviews_index(items@);
            }
            let mut done: Vec<Pattern> = Vec::new();
            let mut i: usize = 0;
            while i < items.len()
                invariant
                    *p == Pattern::Sequence(*items) || *p == Pattern::OrderedChoice(*items),
                    vs == pviews(items@),
                    vs.len() == items@.len(),
                    forall|k: int| 0 <= k < items@.len() ==> #[trigger] vs[k] == pview(items@[k]),
                    i <= items@.len(),
                    done@.len() == i,
                    forall|k: int| 0 <= k < i ==> pview(#[trigger] done@[k]) == inject_v(vs[k]),
                decreases items.len() - i,
            {
                proof {
                    vstd::std_specs::vec::axiom_vec_index_decreases(*items, i as int);
                    if *p == Pattern::Sequence(*items) {
                        assert(decreases_to!(*p => (*p)->Sequence_0));
                    } else {
                        assert(decreases_to!(*p => (*p)->OrderedChoice_0));
                    }
                }
                done.push(inject_ignore_in(&items[i]));
                i += 1;
            }
            let ghost mapped = inject_all(vs);
            proof {
                lemma_inject_all(vs);
            }
            proof {
                if *p == Pattern::Sequence(*items) {
                    assert(p@ == PatternV::Sequence(vs));
                    assert(inject_v(p@) == PatternV::Sequence(splice_ignore(mapped)));
                } else {
                    assert(p@ == PatternV::OrderedChoice(vs));
                    assert(inject_v(p@) == PatternV::OrderedChoice(mapped));
                }
            }
            match p {
                Pattern::Sequence(_) => {
                    if done.len() < 2 {
                        proof {
                            lemma_pviews_ext(done@, mapped);
                        }
                        Pattern::Sequence(done)
                    } else {
                        let n = done.len();
                        let mut out: Vec<Pattern> = Vec::new();
                        let mut rev: Vec<Pattern> = Vec::new();
                        while done.len() > 0
                            invariant
                                done@.len() + rev@.len() == n,
                                forall|k: int| 0 <= k < rev@.len() ==> pview(#[trigger] rev@[k]) == mapped[n - 1 - k],
                                forall|k: int| 0 <= k < done@.len() ==> pview(#[trigger] done@[k]) == mapped[k],
                                mapped.len() == n,
                            decreases done@.len(),
                        {
                            let x = done.pop().unwrap();
                            rev.push(x);
                        }
                        while rev.len() > 0
                            invariant
                                0 <= rev@.len() <= n,
                                n >= 2,
                                mapped.len() == n,
                                out@.len() == if rev@.len() == n {
                                    0
                                } else {
                                    2 * (n - rev@.len()) - 1
                                },
                                forall|k: int| 0 <= k < rev@.len() ==> pview(#[trigger] rev@[k]) == mapped[n - 1 - k],
                                forall|k: int|
                                    0 <= k < out@.len() ==> pview(#[trigger] out@[k]) == splice_ignore(mapped)[k],
                            decreases rev@.len(),
                        {
                            if out.len() > 0 {
                                out.push(ignore_call());
                            }
                            let x = rev.pop().unwrap();
                            out.push(x);
                        }
                        proof {
                            lemma_pviews_ext(out@, splice_ignore(mapped));
                        }
                        Pattern::Sequence(out)
                    }
                },
                _ => {
                    proof {
                        lemma_pviews_ext(done@, mapped);
                    }
                    Pattern::OrderedChoice(done)
                },
            }
        },
        Pattern::Repeat(inner) => Pattern::Repeat(Box::new(prepend_ignore_exec(inject_ignore_in(inner)))),
        Pattern::RepeatOne(inner) => Pattern::RepeatOne(Box::new(prepend_ignore_exec(inject_ignore_in(inner)))),
        Pattern::Optional(inner) => Pattern::Optional(Box::new(inject_ignore_in(inner))),
        Pattern::NotPredicate(inner) => Pattern::NotPredicate(Box::new(inject_ignore_in(inner))),
        Pattern::AndPredicate(inner) => Pattern::AndPredicate(Box::new(inject_ignore_in(inner))),
        Pattern::Lenient(inner) => Pattern::Lenient(Box::new(inject_ignore_in(inner))),
        Pattern::Capture(k, inner) => Pattern::Capture(k.clone(), Box::new(inject_ignore_in(inner))),
        Pattern::Catch { inner, label, recovery } => Pattern::Catch {
            inner: Box::new(inject_ignore_in(inner)),
            label: label.clone(),
            recovery: Box::new(inject_ignore_in(recovery)),
        },
        Pattern::InferBoundaryCatch { inner, label } => Pattern::InferBoundaryCatch {
            inner: Box::new(inject_ignore_in(inner)),
            label: label.clone(),
        },
        _ => p.deep_clone(),
    }
}

/// Rule `i` gets no `ignore` splicing: it is atomic or is `ignore` itself.
pub open spec fn exempt(g: Grammar, i: int) -> bool {
    name_set(g.atomic_rules@).contains(g.rules@[i].0@) || g.rules@[i].0@ == ignore_root()
}

/// The grammar has an `ignore` rule, so splicing is on.
pub open spec fn auto_ignore_active(g: Grammar) -> bool {
    index_of(names_of_rules(g.rules@), ignore_root()) >= 0
}

/// In every rule that is not exempt, splice `ignore` calls between
/// sequence items and in front of repetition bodies. Does nothing when
/// the grammar has no `ignore` rule.
pub fn inject_auto_ignore(grammar: &mut Grammar)
    ensures
        final(grammar).rules@.len() == old(grammar).rules@.len(),
        names_of_rules(final(grammar).rules@) == names_of_rules(old(grammar).rules@),
        forall|i: int|
            0 <= i < old(grammar).rules@.len() ==> #[trigger] pview(final(grammar).rules@[i].1) == if auto_ignore_active(
                *old(grammar),
            ) && !exempt(*old(grammar), i) {
                inject_v(pview(old(grammar).rules@[i].1))
            } else {
                pview(old(grammar).rules@[i].1)
            },
        final(grammar).atomic_rules@ == old(grammar).atomic_rules@,
        final(grammar).rule_order@ == old(grammar).rule_order@,
        final(grammar).percent_rules@ == old(grammar).percent_rules@,
        final(grammar).preferred_rules@ == old(grammar).preferred_rules@,
        final(grammar).start@ == old(grammar).start@,
{
    let ig = ignore_root_name();
    proof {
        lemma_index_of(names_of_rules(grammar.rules@), ignore_root());
    }
    let active = match find_rule(&grammar.rules, &ig) {
        Some(_) => true,
        None => false,
    };
    let ghost g0 = *grammar;
    let mut out: Vec<(String, Pattern)> = Vec::new();
    let mut i: usize = 0;
    while i < grammar.rules.len()
        invariant
            *grammar == g0,
            active == auto_ignore_active(g0),
            ig@ == ignore_root(),
            i <= g0.rules@.len(),
            out@.len() == i,
            forall|k: int| 0 <= k < i ==> #[trigger] out@[k].0@ == g0.rules@[k].0@,
            forall|k: int|
                0 <= k < i ==> #[trigger] pview(out@[k].1) == if active && !exempt(g0, k) {
                    inject_v(pview(g0.rules@[k].1))
                } else {
                    pview(g0.rules@[k].1)
                },
        decreases g0.rules@.len() - i,
    {
        let name = grammar.rules[i].0.clone();
        let skip = !active || holds_name(&grammar.atomic_rules, &name) || name == ig;
        let body = if skip {
            grammar.rules[i].1.deep_clone()
        } else {
            inject_ignore_in(&grammar.rules[i].1)
        };
        out.push((name, body));
        i += 1;
    }
    proof {
        assert(names_of_rules(out@) =~= names_of_rules(g0.rules@));
    }
    grammar.rules = out;
}

/// The start-rule wrap: `ignore? body ignore? !.`, the `ignore?` calls
/// present when splicing is on.
pub open spec fn wrap_v(body: PatternV, active: bool) -> PatternV {
    let opt = PatternV::Optional(Box::new(ignore_call_v()));
    let eof = PatternV::NotPredicate(Box::new(PatternV::AnyChar));
    if active {
        PatternV::Sequence(seq![opt, body, opt, eof])
    } else {
        PatternV::Sequence(seq![body, eof])
    }
}

/// Wrap the `root` rule's body so the parse must reach the end of input,
/// with `ignore` allowed around it. No `root` rule: no change.
pub fn wrap_root(grammar: &mut Grammar)
    ensures
        final(grammar).rules@.len() == old(grammar).rules@.len(),
        names_of_rules(final(grammar).rules@) == names_of_rules(old(grammar).rules@),
        forall|i: int|
            0 <= i < old(grammar).rules@.len() ==> #[trigger] pview(final(grammar).rules@[i].1) == if i == index_of(
                names_of_rules(old(grammar).rules@),
                root_name(),
            ) {
                wrap_v(pview(old(grammar).rules@[i].1), auto_ignore_active(*old(grammar)))
            } else {
                pview(old(grammar).rules@[i].1)
            },
        final(grammar).atomic_rules@ == old(grammar).atomic_rules@,
        final(grammar).rule_order@ == old(grammar).rule_order@,
        final(grammar).percent_rules@ == old(grammar).percent_rules@,
        final(grammar).preferred_rules@ == old(grammar).preferred_rules@,
        final(grammar).start@ == old(grammar).start@,
{
    let ig = ignore_root_name();
    let root = root_rule_name();
    proof {
        lemma_index_of(names_of_rules(grammar.rules@), ignore_root());
        lemma_index_of(names_of_rules(grammar.rules@), root_name());
    }
    let active = match find_rule(&grammar.rules, &ig) {
        Some(_) => true,
        None => false,
    };
    let ghost g0 = *grammar;
    match find_rule(&grammar.rules, &root) {
        None => {},
        Some(k) => {
            let body = grammar.rules[k].1.deep_clone();
            let mut items: Vec<Pattern> = Vec::new();
            if active {
                items.push(Pattern::Optional(Box::new(ignore_call())));
            }
            items.push(body);
            if active {
                items.push(Pattern::Optional(Box::new(ignore_call())));
            }
            items.push(Pattern::NotPredicate(Box::new(Pattern::AnyChar)));
            proof {
                let opt = PatternV::Optional(Box::new(ignore_call_v()));
                let eof = PatternV::NotPredicate(Box::new(PatternV::AnyChar));
                assert(pview(Pattern::AnyChar) == PatternV::AnyChar);
                if active {
                    let t = seq![opt, pview(g0.rules@[k as int].1), opt, eof];
                    assert(pview(items@[0]) == t[0]);
                    assert(pview(items@[1]) == t[1]);
                    assert(pview(items@[2]) == t[2]);
                    assert(pview(items@[3]) == t[3]);
                    lemma_pviews_ext(items@, t);
                } else {
                    let t = seq![pview(g0.rules@[k as int].1), eof];
                    assert(pview(items@[0]) == t[0]);
                    assert(pview(items@[1]) == t[1]);
                    lemma_pviews_ext(items@, seq![pview(g0.rules@[k as int].1), eof]);
                }
            }
            let name = grammar.rules[k].0.clone();
            grammar.rules.set(k, (name, Pattern::Sequence(items)));
            proof {
                assert(names_of_rules(grammar.rules@) =~= names_of_rules(g0.rules@));
            }
        },
    }
}

} // verus!
