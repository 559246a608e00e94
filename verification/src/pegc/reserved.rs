//! The compiler-made `reserved` and `preferred` rules: the keyword
//! strings that the grammar's `reserved` / `preferred` rules can match,
//! gathered into one word-set rule each.
use vstd::prelude::*;

use vstd::utf8::{decode_utf8, valid_utf8};

use crate::pegb::string_from_utf8;
use crate::pegvm::charset::{char_value, string_from_chars};
use crate::pegvm::CharSet;

use super::analysis::{bodies_of_rules, find_rule, holds_name, index_of, lemma_index_of, name_set, names_of_rules};
use super::compiler::CompileError;
use super::parser::Grammar;
use super::graph::{count_false, lemma_count_false_set};
use super::order::{chars_less, lemma_chars_less_irrefl, lemma_chars_less_trans, name_less};
use super::pattern::{lemma_pviews_index, pview, pviews, Pattern, PatternV};

verus! {

// ---------------------------------------------------------------------
// Keyword entries
// ---------------------------------------------------------------------

/// One keyword: for each of its code points, the ranges of the set that
/// matches it.
pub type EntryV = Seq<Seq<(char, char)>>;

/// The keyword of a plain string: one singleton set per character.
pub open spec fn literal_entry(cs: Seq<char>) -> EntryV {
    Seq::new(cs.len(), |i: int| seq![(cs[i], cs[i])])
}

/// The fixed keyword strings a pattern can match, resolving calls through
/// the rules; `None` when the pattern is not of fixed keyword shape
/// (a quantifier, wildcard, predicate or catch, a sequence piece with
/// other than one string, or a call that is unknown or already being
/// resolved).
pub open spec fn kw_entries(
    p: PatternV,
    names: Seq<Seq<char>>,
    bodies: Seq<PatternV>,
    visiting: Seq<bool>,
) -> Option<Seq<EntryV>>
    decreases count_false(visiting), p,
{
    match p {
        PatternV::Literal(b) => if valid_utf8(b) {
            Some(seq![literal_entry(decode_utf8(b))])
        } else {
            None
        },
        PatternV::CharClass(rs) => Some(seq![seq![rs]]),
        PatternV::Capture(_, inner) => kw_entries(*inner, names, bodies, visiting),
        PatternV::Lenient(inner) => kw_entries(*inner, names, bodies, visiting),
        PatternV::OrderedChoice(items) => choice_kw(items, names, bodies, visiting),
        PatternV::Sequence(items) => match seq_kw(items, names, bodies, visiting) {
            Some(e) => Some(seq![e]),
            None => None,
        },
        PatternV::NonTerminal(n) => {
            let i = index_of(names, n);
            if 0 <= i < visiting.len() && i < bodies.len() && !visiting[i] {
                proof {
                    lemma_count_false_set(visiting, i);
                }
                kw_entries(bodies[i], names, bodies, visiting.update(i, true))
            } else {
                None
            }
        },
        _ => None,
    }
}

/// The keywords of a choice: those of every alternative, in order.
pub open spec fn choice_kw(
    items: Seq<PatternV>,
    names: Seq<Seq<char>>,
    bodies: Seq<PatternV>,
    visiting: Seq<bool>,
) -> Option<Seq<EntryV>>
    decreases count_false(visiting), items,
{
    if items.len() == 0 {
        Some(Seq::empty())
    } else {
        match (choice_kw(items.drop_last(), names, bodies, visiting), kw_entries(items.last(), names, bodies, visiting)) {
            (Some(a), Some(b)) => Some(a + b),
            _ => None,
        }
    }
}

/// The one keyword of a sequence: the pieces' single keywords joined.
pub open spec fn seq_kw(
    items: Seq<PatternV>,
    names: Seq<Seq<char>>,
    bodies: Seq<PatternV>,
    visiting: Seq<bool>,
) -> Option<EntryV>
    decreases count_false(visiting), items,
{
    if items.len() == 0 {
        Some(Seq::empty())
    } else {
        match (seq_kw(items.drop_last(), names, bodies, visiting), kw_entries(items.last(), names, bodies, visiting)) {
            (Some(a), Some(b)) => if b.len() == 1 {
                Some(a + b[0])
            } else {
                None
            },
            _ => None,
        }
    }
}

/// A keyword held as character sets, by the sets' ranges.
pub open spec fn entry_view(e: Seq<CharSet>) -> EntryV {
    e.map_values(|c: CharSet| c.range_seq())
}

/// Keywords held as character sets, by the sets' ranges.
pub open spec fn entries_view(v: Seq<Vec<CharSet>>) -> Seq<EntryV> {
    v.map_values(|e: Vec<CharSet>| entry_view(e@))
}

pub open spec fn entries_opt_view(r: Option<Vec<Vec<CharSet>>>) -> Option<Seq<EntryV>> {
    match r {
        Some(v) => Some(entries_view(v@)),
        None => None,
    }
}

proof fn lemma_choice_none(items: Seq<PatternV>, names: Seq<Seq<char>>, bodies: Seq<PatternV>, visiting: Seq<bool>, j: int)
    requires
        0 <= j <= items.len(),
        choice_kw(items.take(j), names, bodies, visiting) is None,
    ensures
        choice_kw(items, names, bodies, visiting) is None,
    decreases items.len(),
{
    if j < items.len() {
        assert(items.drop_last().take(j) == items.take(j));
        lemma_choice_none(items.drop_last(), names, bodies, visiting, j);
    } else {
        assert(items.take(j) == items);
    }
}

proof fn lemma_seq_none(items: Seq<PatternV>, names: Seq<Seq<char>>, bodies: Seq<PatternV>, visiting: Seq<bool>, j: int)
    requires
        0 <= j <= items.len(),
        seq_kw(items.take(j), names, bodies, visiting) is None,
    ensures
        seq_kw(items, names, bodies, visiting) is None,
    decreases items.len(),
{
    if j < items.len() {
        assert(items.drop_last().take(j) == items.take(j));
        lemma_seq_none(items.drop_last(), names, bodies, visiting, j);
    } else {
        assert(items.take(j) == items);
    }
}

proof fn lemma_take_last(s: Seq<PatternV>, i: int)
    requires
        0 <= i < s.len(),
    ensures
        s.take(i + 1).drop_last() == s.take(i),
        s.take(i + 1).last() == s[i],
{
    assert(s.take(i + 1).drop_last() =~= s.take(i));
}

/// Copy of a keyword.
fn copy_entry(e: &Vec<CharSet>) -> (r: Vec<CharSet>)
    ensures
        entry_view(r@) == entry_view(e@),
{
    let mut r: Vec<CharSet> = Vec::new();
    let mut i: usize = 0;
    while i < e.len()
        invariant
            i <= e@.len(),
            r@.len() == i,
            forall|j: int| 0 <= j < i ==> #[trigger] r@[j].range_seq() == e@[j].range_seq(),
        decreases e.len() - i,
    {
        r.push(e[i].clone());
        i += 1;
    }
    assert(entry_view(r@) =~= entry_view(e@));
    r
}

/// The keyword of a string: one singleton set per character.
fn literal_keyword(s: &str) -> (r: Vec<CharSet>)
    ensures
        entry_view(r@) == literal_entry(s@),
{
    let n = s.unicode_len();
    let mut r: Vec<CharSet> = Vec::new();
    let mut i: usize = 0;
    while i < n
        invariant
            n == s@.len(),
            i <= n,
            r@.len() == i,
            forall|j: int| 0 <= j < i ==> #[trigger] r@[j].range_seq() == seq![(s@[j], s@[j])],
        decreases n - i,
    {
        r.push(CharSet::singleton(s.get_char(i)));
        i += 1;
    }
    assert(entry_view(r@) =~= literal_entry(s@));
    r
}

/// The fixed keyword strings `p` can match, one list of character sets
/// per string; `visiting` marks the rules being resolved and comes back
/// unchanged.
fn keyword_entries(p: &Pattern, rules: &Vec<(String, Pattern)>, visiting: &mut Vec<bool>) -> (r: Option<
    Vec<Vec<CharSet>>,
>)
    requires
        old(visiting)@.len() == rules@.len(),
    ensures
        final(visiting)@ == old(visiting)@,
        entries_opt_view(r) == kw_entries(p@, names_of_rules(rules@), bodies_of_rules(rules@), old(visiting)@),
    decreases count_false(old(visiting)@), p,
{
    let ghost names = names_of_rules(rules@);
    let ghost bodies = bodies_of_rules(rules@);
    match p {
        Pattern::Literal(b) => {
            match string_from_utf8(b.as_slice()) {
                Ok(s) => {
                    let e = literal_keyword(s.as_str());
                    let mut out: Vec<Vec<CharSet>> = Vec::new();
                    out.push(e);
                    assert(entries_view(out@) =~= seq![literal_entry(decode_utf8(b@))]);
                    Some(out)
                },
                Err(_) => None,
            }
        },
        Pattern::CharClass(cs) => {
            let mut e: Vec<CharSet> = Vec::new();
            e.push(cs.clone());
            let mut out: Vec<Vec<CharSet>> = Vec::new();
            out.push(e);
            assert(entry_view(e@) =~= seq![cs.range_seq()]);
            assert(entries_view(out@) =~= seq![seq![cs.range_seq()]]);
            Some(out)
        },
        Pattern::Capture(_, inner) => keyword_entries(inner, rules, visiting),
        Pattern::Lenient(inner) => keyword_entries(inner, rules, visiting),
        Pattern::OrderedChoice(items) => {
            let ghost vs = pviews(items@);
            proof {
                lemma_pviews_index(items@);
            }
            let mut out: Vec<Vec<CharSet>> = Vec::new();
            let mut i: usize = 0;
            while i < items.len()
                invariant
                    *p == Pattern::OrderedChoice(*items),
                    vs == pviews(items@),
                    vs.len() == items@.len(),
                    forall|k: int| 0 <= k < items@.len() ==> #[trigger] vs[k] == pview(items@[k]),
                    i <= items@.len(),
                    names == names_of_rules(rules@),
                    bodies == bodies_of_rules(rules@),
                    visiting@ == old(visiting)@,
                    visiting@.len() == rules@.len(),
                    choice_kw(vs.take(i as int), names, bodies, visiting@) == Some(entries_view(out@)),
                decreases items.len() - i,
            {
                proof {
                    vstd::std_specs::vec::axiom_vec_index_decreases(*items, i as int);
                    assert(decreases_to!(*p => (*p)->OrderedChoice_0));
                    lemma_take_last(vs, i as int);
                }
                match keyword_entries(&items[i], rules, visiting) {
                    Some(sub) => {
                        let ghost before = out@;
                        let mut k: usize = 0;
                        while k < sub.len()
                            invariant
                                k <= sub@.len(),
                                out@.len() == before.len() + k,
                                forall|j: int| 0 <= j < before.len() ==> #[trigger] out@[j] == before[j],
                                forall|j: int|
                                    0 <= j < k ==> #[trigger] entry_view(out@[before.len() + j]@) == entry_view(sub@[j]@),
                            decreases sub.len() - k,
                        {
                            out.push(copy_entry(&sub[k]));
                            k += 1;
                        }
                        i += 1;
                        assert forall|j: int| 0 <= j < out@.len() implies #[trigger] entries_view(out@)[j] == (
                        entries_view(before) + entries_view(sub@))[j] by {
                            if j >= before.len() {
                                assert(entry_view(out@[before.len() + (j - before.len())]@) == entry_view(
                                    sub@[j - before.len()]@,
                                ));
                            }
                        }
                        assert(entries_view(out@) =~= entries_view(before) + entries_view(sub@));
                    },
                    None => {
                        proof {
                            lemma_choice_none(vs, names, bodies, visiting@, i + 1);
                        }
                        return None;
                    },
                }
            }
            assert(vs.take(vs.len() as int) == vs);
            Some(out)
        },
        Pattern::Sequence(items) => {
            let ghost vs = pviews(items@);
            proof {
                lemma_pviews_index(items@);
            }
            let mut acc: Vec<CharSet> = Vec::new();
            let mut i: usize = 0;
            while i < items.len()
                invariant
                    *p == Pattern::Sequence(*items),
                    vs == pviews(items@),
                    vs.len() == items@.len(),
                    forall|k: int| 0 <= k < items@.len() ==> #[trigger] vs[k] == pview(items@[k]),
                    i <= items@.len(),
                    names == names_of_rules(rules@),
                    bodies == bodies_of_rules(rules@),
                    visiting@ == old(visiting)@,
                    visiting@.len() == rules@.len(),
                    seq_kw(vs.take(i as int), names, bodies, visiting@) == Some(entry_view(acc@)),
                decreases items.len() - i,
            {
                proof {
                    vstd::std_specs::vec::axiom_vec_index_decreases(*items, i as int);
                    assert(decreases_to!(*p => (*p)->Sequence_0));
                    lemma_take_last(vs, i as int);
                }
                match keyword_entries(&items[i], rules, visiting) {
                    Some(sub) => {
                        if sub.len() != 1 {
                            proof {
                                lemma_seq_none(vs, names, bodies, visiting@, i + 1);
                            }
                            return None;
                        }
                        let one = &sub[0];
                        let ghost before = acc@;
                        let mut k: usize = 0;
                        while k < one.len()
                            invariant
                                k <= one@.len(),
                                acc@.len() == before.len() + k,
                                forall|j: int| 0 <= j < before.len() ==> #[trigger] acc@[j] == before[j],
                                forall|j: int|
                                    0 <= j < k ==> #[trigger] acc@[before.len() + j].range_seq() == one@[j].range_seq(),
                            decreases one.len() - k,
                        {
                            acc.push(one[k].clone());
                            k += 1;
                        }
                        i += 1;
                        assert forall|j: int| 0 <= j < acc@.len() implies #[trigger] entry_view(acc@)[j] == (
                        entry_view(before) + entry_view(one@))[j] by {
                            if j >= before.len() {
                                assert(acc@[before.len() + (j - before.len())].range_seq() == one@[j - before.len()].range_seq());
                            }
                        }
                        assert(entry_view(acc@) =~= entry_view(before) + entry_view(one@));
                    },
                    None => {
                        proof {
                            lemma_seq_none(vs, names, bodies, visiting@, i + 1);
                        }
                        return None;
                    },
                }
            }
            assert(vs.take(vs.len() as int) == vs);
            let mut out: Vec<Vec<CharSet>> = Vec::new();
            out.push(acc);
            assert(entries_view(out@) =~= seq![entry_view(acc@)]);
            Some(out)
        },
        Pattern::NonTerminal(name) => {
            proof {
                lemma_index_of(names, name@);
            }
            match find_rule(rules, name) {
                Some(i) => {
                    if visiting[i] {
                        return None;
                    }
                    proof {
                        lemma_count_false_set(visiting@, i as int);
                    }
                    visiting.set(i, true);
                    let r = keyword_entries(&rules[i].1, rules, visiting);
                    visiting.set(i, false);
                    assert(visiting@ =~= old(visiting)@);
                    r
                },
                None => None,
            }
        },
        _ => None,
    }
}


// ---------------------------------------------------------------------
// The order of a word set: longer words first, then lexicographic
// ---------------------------------------------------------------------

/// `a` sorts before `b`: by low end, then by high end.
pub open spec fn pair_less(a: (char, char), b: (char, char)) -> bool {
    (a.0 as int) < (b.0 as int) || ((a.0 as int) == (b.0 as int) && (a.1 as int) < (b.1 as int))
}

/// Lexicographic order of range lists.
pub open spec fn ranges_less(a: Seq<(char, char)>, b: Seq<(char, char)>) -> bool
    decreases a.len(),
{
    if a.len() == 0 {
        b.len() > 0
    } else if b.len() == 0 {
        false
    } else if pair_less(a[0], b[0]) {
        true
    } else if a[0] == b[0] {
        ranges_less(a.drop_first(), b.drop_first())
    } else {
        false
    }
}

/// Lexicographic order of keywords, their sets compared by ranges.
pub open spec fn entry_lex_less(a: EntryV, b: EntryV) -> bool
    decreases a.len(),
{
    if a.len() == 0 {
        b.len() > 0
    } else if b.len() == 0 {
        false
    } else if ranges_less(a[0], b[0]) {
        true
    } else if a[0] == b[0] {
        entry_lex_less(a.drop_first(), b.drop_first())
    } else {
        false
    }
}

/// The order of a word-set rule's alternatives: longer keywords first,
/// equal lengths lexicographically.
pub open spec fn word_before(a: EntryV, b: EntryV) -> bool {
    a.len() > b.len() || (a.len() == b.len() && entry_lex_less(a, b))
}

proof fn lemma_ranges_less_trans(a: Seq<(char, char)>, b: Seq<(char, char)>, c: Seq<(char, char)>)
    requires
        ranges_less(a, b),
        ranges_less(b, c),
    ensures
        ranges_less(a, c),
    decreases a.len(),
{
    if a.len() > 0 && b.len() > 0 && c.len() > 0 && a[0] == b[0] && b[0] == c[0] {
        lemma_ranges_less_trans(a.drop_first(), b.drop_first(), c.drop_first());
    }
}

proof fn lemma_ranges_less_irrefl(a: Seq<(char, char)>)
    ensures
        !ranges_less(a, a),
    decreases a.len(),
{
    if a.len() > 0 {
        lemma_ranges_less_irrefl(a.drop_first());
    }
}

proof fn lemma_entry_lex_trans(a: EntryV, b: EntryV, c: EntryV)
    requires
        entry_lex_less(a, b),
        entry_lex_less(b, c),
    ensures
        entry_lex_less(a, c),
    decreases a.len(),
{
    if a.len() > 0 && b.len() > 0 && c.len() > 0 {
        if ranges_less(a[0], b[0]) && ranges_less(b[0], c[0]) {
            lemma_ranges_less_trans(a[0], b[0], c[0]);
        } else if a[0] == b[0] && b[0] == c[0] {
            lemma_ranges_less_irrefl(a[0]);
            lemma_entry_lex_trans(a.drop_first(), b.drop_first(), c.drop_first());
        } else if a[0] == b[0] {
            lemma_ranges_less_irrefl(a[0]);
        } else {
            lemma_ranges_less_irrefl(b[0]);
        }
    }
}

proof fn lemma_entry_lex_irrefl(a: EntryV)
    ensures
        !entry_lex_less(a, a),
    decreases a.len(),
{
    if a.len() > 0 {
        lemma_ranges_less_irrefl(a[0]);
        lemma_entry_lex_irrefl(a.drop_first());
    }
}

/// The order of a word set is transitive.
pub proof fn lemma_word_before_trans(a: EntryV, b: EntryV, c: EntryV)
    requires
        word_before(a, b),
        word_before(b, c),
    ensures
        word_before(a, c),
{
    if a.len() == b.len() && b.len() == c.len() {
        lemma_entry_lex_trans(a, b, c);
    }
}

/// The order of a word set is irreflexive.
pub proof fn lemma_word_before_irrefl(a: EntryV)
    ensures
        !word_before(a, a),
{
    lemma_entry_lex_irrefl(a);
}

fn pair_lt(a: (char, char), b: (char, char)) -> (r: bool)
    ensures
        r == pair_less(a, b),
{
    let (a0, a1) = (char_value(a.0), char_value(a.1));
    let (b0, b1) = (char_value(b.0), char_value(b.1));
    a0 < b0 || (a0 == b0 && a1 < b1)
}

fn ranges_lt(a: &[(char, char)], b: &[(char, char)]) -> (r: bool)
    ensures
        r == ranges_less(a@, b@),
{
    let mut i: usize = 0;
    assert(a@.skip(0) =~= a@);
    assert(b@.skip(0) =~= b@);
    while i < a.len() && i < b.len()
        invariant
            i <= a@.len(),
            i <= b@.len(),
            ranges_less(a@, b@) == ranges_less(a@.skip(i as int), b@.skip(i as int)),
        decreases a.len() - i,
    {
        assert(a@.skip(i as int)[0] == a@[i as int]);
        assert(b@.skip(i as int)[0] == b@[i as int]);
        if pair_lt(a[i], b[i]) {
            return true;
        }
        if !(char_value(a[i].0) == char_value(b[i].0) && char_value(a[i].1) == char_value(b[i].1)) {
            return false;
        }
        assert(a@.skip(i as int).drop_first() =~= a@.skip(i + 1));
        assert(b@.skip(i as int).drop_first() =~= b@.skip(i + 1));
        i += 1;
    }
    i == a.len() && i < b.len()
}

/// The two keywords are the same.
fn same_entry(a: &Vec<CharSet>, b: &Vec<CharSet>) -> (r: bool)
    ensures
        r == (entry_view(a@) == entry_view(b@)),
{
    if a.len() != b.len() {
        return false;
    }
    let mut i: usize = 0;
    while i < a.len()
        invariant
            i <= a@.len(),
            a@.len() == b@.len(),
            forall|k: int| 0 <= k < i ==> #[trigger] a@[k].range_seq() == b@[k].range_seq(),
        decreases a.len() - i,
    {
        if !a[i].same_as(&b[i]) {
            assert(entry_view(a@)[i as int] != entry_view(b@)[i as int]);
            return false;
        }
        i += 1;
    }
    assert(entry_view(a@) =~= entry_view(b@));
    true
}

fn entry_lt(a: &Vec<CharSet>, b: &Vec<CharSet>) -> (r: bool)
    ensures
        r == entry_lex_less(entry_view(a@), entry_view(b@)),
{
    let ghost av = entry_view(a@);
    let ghost bv = entry_view(b@);
    let mut i: usize = 0;
    assert(av.skip(0) =~= av);
    assert(bv.skip(0) =~= bv);
    while i < a.len() && i < b.len()
        invariant
            av == entry_view(a@),
            bv == entry_view(b@),
            i <= a@.len(),
            i <= b@.len(),
            entry_lex_less(av, bv) == entry_lex_less(av.skip(i as int), bv.skip(i as int)),
        decreases a.len() - i,
    {
        assert(av.skip(i as int)[0] == a@[i as int].range_seq());
        assert(bv.skip(i as int)[0] == b@[i as int].range_seq());
        if ranges_lt(a[i].ranges(), b[i].ranges()) {
            return true;
        }
        if !a[i].same_as(&b[i]) {
            return false;
        }
        assert(av.skip(i as int).drop_first() =~= av.skip(i + 1));
        assert(bv.skip(i as int).drop_first() =~= bv.skip(i + 1));
        i += 1;
    }
    i == a.len() && i < b.len()
}

fn word_lt(a: &Vec<CharSet>, b: &Vec<CharSet>) -> (r: bool)
    ensures
        r == word_before(entry_view(a@), entry_view(b@)),
{
    a.len() > b.len() || (a.len() == b.len() && entry_lt(a, b))
}


/// A word list in word-set order, each keyword once.
pub open spec fn word_list_ok(ws: Seq<EntryV>) -> bool {
    &&& ws.no_duplicates()
    &&& forall|i: int, j: int| 0 <= i < j < ws.len() ==> !word_before(#[trigger] ws[j], #[trigger] ws[i])
}

proof fn lemma_entries_insert(v: Seq<Vec<CharSet>>, k: int, e: Vec<CharSet>)
    requires
        0 <= k <= v.len(),
    ensures
        entries_view(v.insert(k, e)) == entries_view(v).insert(k, entry_view(e@)),
{
    assert(entries_view(v.insert(k, e)) =~= entries_view(v).insert(k, entry_view(e@)));
}

/// Add keyword `e` to a word list, keeping its order and leaving it
/// unchanged when `e` is already there.
fn add_word(list: &mut Vec<Vec<CharSet>>, e: Vec<CharSet>)
    requires
        word_list_ok(entries_view(old(list)@)),
    ensures
        word_list_ok(entries_view(final(list)@)),
        entries_view(final(list)@).to_set() == entries_view(old(list)@).to_set().insert(entry_view(e@)),
{
    let ghost ws = entries_view(list@);
    let ghost x = entry_view(e@);
    let mut k: usize = 0;
    let mut stop = false;
    while k < list.len() && !stop
        invariant
            ws == entries_view(list@),
            list@ == old(list)@,
            word_list_ok(ws),
            x == entry_view(e@),
            k <= list@.len(),
            stop ==> k < ws.len() && word_before(x, ws[k as int]),
            forall|j: int| 0 <= j < k ==> #[trigger] ws[j] != x && !word_before(x, ws[j]),
        decreases list.len() - k, if stop { 0int } else { 1int },
    {
        assert(ws[k as int] == entry_view(list@[k as int]@));
        if same_entry(&list[k], &e) {
            assert(ws.to_set().insert(x) =~= ws.to_set());
            return;
        }
        if word_lt(&e, &list[k]) {
            stop = true;
        } else {
            k += 1;
        }
    }
    proof {
        lemma_entries_insert(list@, k as int, e);
    }
    list.insert(k, e);
    proof {
        let nw = ws.insert(k as int, x);
        assert(entries_view(list@) == nw);
        assert(k < ws.len() ==> word_before(x, ws[k as int]));
        assert forall|i: int, j: int| 0 <= i < j < nw.len() implies !word_before(#[trigger] nw[j], #[trigger] nw[i]) by {
            if j < k {
                assert(nw[i] == ws[i] && nw[j] == ws[j]);
            } else if j == k {
                assert(nw[j] == x && nw[i] == ws[i]);
            } else if i > k {
                assert(nw[i] == ws[i - 1] && nw[j] == ws[j - 1]);
            } else if i == k {
                assert(nw[i] == x && nw[j] == ws[j - 1]);
                if word_before(ws[j - 1], x) {
                    if j - 1 == k {
                        lemma_word_before_trans(ws[j - 1], x, ws[k as int]);
                        lemma_word_before_irrefl(ws[k as int]);
                    } else {
                        lemma_word_before_trans(ws[j - 1], x, ws[k as int]);
                    }
                }
            } else {
                assert(nw[i] == ws[i] && nw[j] == ws[j - 1]);
            }
        }
        assert forall|i: int, j: int| 0 <= i < nw.len() && 0 <= j < nw.len() && i != j implies nw[i] != nw[j] by {
            if i != k && j != k {
                let a = if i < k { i } else { i - 1 };
                let b = if j < k { j } else { j - 1 };
                assert(nw[i] == ws[a] && nw[j] == ws[b]);
            } else {
                let o = if i == k { j } else { i };
                let b = if o < k { o } else { o - 1 };
                assert(nw[o] == ws[b]);
                if b >= k {
                    if nw[o] == x {
                        if b == k {
                            lemma_word_before_irrefl(x);
                        } else {
                            assert(!word_before(ws[b], ws[k as int]));
                        }
                    }
                }
            }
        }
        assert(nw.to_set() =~= ws.to_set().insert(x)) by {
            assert forall|y: EntryV| nw.to_set().contains(y) implies ws.to_set().insert(x).contains(y) by {
                let i = choose|i: int| 0 <= i < nw.len() && nw[i] == y;
                if i < k {
                    assert(ws[i] == y);
                } else if i > k {
                    assert(ws[i - 1] == y);
                }
            }
            assert forall|y: EntryV| ws.to_set().insert(x).contains(y) implies nw.to_set().contains(y) by {
                if y == x {
                    assert(nw[k as int] == y);
                } else {
                    let i = choose|i: int| 0 <= i < ws.len() && ws[i] == y;
                    if i < k {
                        assert(nw[i] == y);
                    } else {
                        assert(nw[i + 1] == y);
                    }
                }
            }
        }
    }
}

// ---------------------------------------------------------------------
// Word-set rules
// ---------------------------------------------------------------------

/// The one ASCII byte a set matches, when it is a single ASCII character.
pub open spec fn singleton_ascii(rs: Seq<(char, char)>) -> Option<u8> {
    if rs.len() == 1 && rs[0].0 == rs[0].1 && (rs[0].0 as int) < 128 {
        Some(rs[0].0 as u8)
    } else {
        None
    }
}

pub open spec fn all_singleton_ascii(e: EntryV) -> bool {
    forall|i: int| 0 <= i < e.len() ==> #[trigger] singleton_ascii(e[i]) is Some
}

/// A keyword as a pattern: a byte literal when every set is one ASCII
/// character, else the sets one after another.
pub open spec fn entry_pattern_view(e: EntryV) -> PatternV {
    if all_singleton_ascii(e) {
        PatternV::Literal(Seq::new(e.len(), |i: int| singleton_ascii(e[i])->0))
    } else if e.len() == 1 {
        PatternV::CharClass(e[0])
    } else {
        PatternV::Sequence(Seq::new(e.len(), |i: int| PatternV::CharClass(e[i])))
    }
}

/// A word-set rule: the choice of its keywords, in list order.
pub open spec fn word_set_view(ws: Seq<EntryV>) -> PatternV {
    if ws.len() == 1 {
        entry_pattern_view(ws[0])
    } else {
        PatternV::OrderedChoice(Seq::new(ws.len(), |i: int| entry_pattern_view(ws[i])))
    }
}

/// The single ASCII byte a char set matches, if it is a single ASCII
/// character.
fn charset_singleton_ascii(set: &CharSet) -> (r: Option<u8>)
    ensures
        r == singleton_ascii(set.range_seq()),
{
    let ranges = set.ranges();
    if ranges.len() == 1 && char_value(ranges[0].0) == char_value(ranges[0].1) && char_value(ranges[0].0) < 128 {
        Some(char_value(ranges[0].0) as u8)
    } else {
        None
    }
}

/// One keyword as a pattern.
fn entry_to_pattern(e: &Vec<CharSet>) -> (p: Pattern)
    ensures
        p@ == entry_pattern_view(entry_view(e@)),
{
    let ghost ev = entry_view(e@);
    let mut bytes: Vec<u8> = Vec::new();
    let mut all = true;
    let mut i: usize = 0;
    while i < e.len()
        invariant
            ev == entry_view(e@),
            i <= e@.len(),
            all ==> bytes@.len() == i,
            all ==> forall|k: int| 0 <= k < i ==> #[trigger] singleton_ascii(ev[k]) == Some(bytes@[k]),
            !all ==> !all_singleton_ascii(ev),
        decreases e.len() - i,
    {
        match charset_singleton_ascii(&e[i]) {
            Some(b) => {
                if all {
                    bytes.push(b);
                }
            },
            None => {
                assert(singleton_ascii(ev[i as int]) is None);
                all = false;
            },
        }
        i += 1;
    }
    if all {
        assert(bytes@ =~= Seq::new(ev.len(), |k: int| singleton_ascii(ev[k])->0));
        return Pattern::literal_bytes(bytes);
    }
    let mut items: Vec<Pattern> = Vec::new();
    let mut k: usize = 0;
    while k < e.len()
        invariant
            ev == entry_view(e@),
            k <= e@.len(),
            items@.len() == k,
            forall|j: int| 0 <= j < k ==> #[trigger] pview(items@[j]) == PatternV::CharClass(ev[j]),
        decreases e.len() - k,
    {
        items.push(Pattern::char_class(e[k].clone()));
        k += 1;
    }
    proof {
        lemma_pviews_index(items@);
        assert(pviews(items@) =~= Seq::new(ev.len(), |j: int| PatternV::CharClass(ev[j])));
    }
    Pattern::seq(items)
}

/// A word-set rule from its keywords, in the list's order.
fn build_word_set_rule(words: &Vec<Vec<CharSet>>) -> (p: Pattern)
    ensures
        p@ == word_set_view(entries_view(words@)),
{
    let ghost ws = entries_view(words@);
    let mut alts: Vec<Pattern> = Vec::new();
    let mut k: usize = 0;
    while k < words.len()
        invariant
            ws == entries_view(words@),
            k <= words@.len(),
            alts@.len() == k,
            forall|j: int| 0 <= j < k ==> #[trigger] pview(alts@[j]) == entry_pattern_view(ws[j]),
        decreases words.len() - k,
    {
        alts.push(entry_to_pattern(&words[k]));
        k += 1;
    }
    proof {
        lemma_pviews_index(alts@);
        assert(pviews(alts@) =~= Seq::new(ws.len(), |j: int| entry_pattern_view(ws[j])));
    }
    Pattern::choice(alts)
}

// ---------------------------------------------------------------------
// Conflict reports
// ---------------------------------------------------------------------

/// A keyword as text for a report: for each set, the low end of its last
/// range (so a case-folded `{A, a}` shows as `a`), or U+FFFD for an empty
/// set.
pub open spec fn display_of(e: EntryV) -> Seq<char> {
    Seq::new(e.len(), |i: int| if e[i].len() > 0 {
        e[i].last().0
    } else {
        '\u{FFFD}'
    })
}

fn entry_display(e: &Vec<CharSet>) -> (s: String)
    ensures
        s@ == display_of(entry_view(e@)),
{
    let ghost ev = entry_view(e@);
    let mut out: Vec<char> = Vec::new();
    let mut i: usize = 0;
    while i < e.len()
        invariant
            ev == entry_view(e@),
            i <= e@.len(),
            out@.len() == i,
            forall|k: int| 0 <= k < i ==> #[trigger] out@[k] == display_of(ev)[k],
        decreases e.len() - i,
    {
        let rs = e[i].ranges();
        if rs.len() > 0 {
            out.push(rs[rs.len() - 1].0);
        } else {
            out.push('\u{FFFD}');
        }
        i += 1;
    }
    assert(out@ =~= display_of(ev));
    string_from_chars(&out)
}

/// The texts, in order.
pub open spec fn texts(v: Seq<String>) -> Seq<Seq<char>> {
    v.map_values(|s: String| s@)
}

/// No text sorts before one in front of it.
pub open spec fn texts_sorted(t: Seq<Seq<char>>) -> bool {
    forall|i: int, j: int| 0 <= i < j < t.len() ==> !chars_less(#[trigger] t[j], #[trigger] t[i])
}

/// The strings sorted, equal ones kept.
fn sort_strings(v: Vec<String>) -> (r: Vec<String>)
    ensures
        texts_sorted(texts(r@)),
        texts(r@).to_multiset() == texts(v@).to_multiset(),
{
    broadcast use vstd::seq_lib::to_multiset_insert, vstd::seq_lib::to_multiset_build;

    let mut r: Vec<String> = Vec::new();
    let mut i: usize = 0;
    assert(texts(r@) =~= texts(v@.take(0)));
    while i < v.len()
        invariant
            i <= v@.len(),
            texts_sorted(texts(r@)),
            texts(r@).to_multiset() == texts(v@.take(i as int)).to_multiset(),
        decreases v.len() - i,
    {
        let ghost t = texts(r@);
        let x = v[i].clone();
        let mut k: usize = 0;
        let mut stop = false;
        while k < r.len() && !stop
            invariant
                t == texts(r@),
                k <= r@.len(),
                x@ == v@[i as int]@,
                stop ==> k < t.len() && chars_less(x@, t[k as int]),
                forall|j: int| 0 <= j < k ==> !chars_less(x@, #[trigger] t[j]),
            decreases r.len() - k, if stop { 0int } else { 1int },
        {
            if name_less(&x, &r[k]) {
                stop = true;
            } else {
                k += 1;
            }
        }
        proof {
            assert(texts(r@.insert(k as int, x)) =~= t.insert(k as int, x@));
            assert(texts(v@.take(i + 1)) =~= texts(v@.take(i as int)).push(v@[i as int]@));
        }
        r.insert(k, x);
        proof {
            let nt = t.insert(k as int, x@);
            vstd::seq_lib::to_multiset_insert(t, k as int, x@);
            vstd::seq_lib::to_multiset_build(texts(v@.take(i as int)), v@[i as int]@);
            assert(texts(r@).to_multiset() == texts(v@.take(i + 1)).to_multiset());
            assert(k < t.len() ==> chars_less(x@, t[k as int]));
            assert forall|a: int, b: int| 0 <= a < b < nt.len() implies !chars_less(#[trigger] nt[b], #[trigger] nt[a]) by {
                if b < k {
                    assert(nt[a] == t[a] && nt[b] == t[b]);
                } else if b == k {
                    assert(nt[b] == x@ && nt[a] == t[a]);
                } else if a > k {
                    assert(nt[a] == t[a - 1] && nt[b] == t[b - 1]);
                } else if a == k {
                    assert(nt[a] == x@ && nt[b] == t[b - 1]);
                    if chars_less(t[b - 1], x@) {
                        lemma_chars_less_trans(t[b - 1], x@, t[k as int]);
                        if b - 1 == k {
                            lemma_chars_less_irrefl(t[k as int]);
                        }
                    }
                } else {
                    assert(nt[a] == t[a] && nt[b] == t[b - 1]);
                }
            }
        }
        i += 1;
    }
    assert(v@.take(v@.len() as int) == v@);
    r
}


// ---------------------------------------------------------------------
// The synthesized rules
// ---------------------------------------------------------------------

/// The name of the compiler-made rule of reserved words.
pub open spec fn reserved_rule() -> Seq<char> {
    seq!['r', 'e', 's', 'e', 'r', 'v', 'e', 'd']
}

/// The name of the compiler-made rule of preferred words.
pub open spec fn preferred_rule() -> Seq<char> {
    seq!['p', 'r', 'e', 'f', 'e', 'r', 'r', 'e', 'd']
}

fn reserved_rule_name() -> (s: String)
    ensures
        s@ == reserved_rule(),
{
    let s = "reserved".to_owned();
    proof {
        reveal_strlit("reserved");
    }
    assert(s@ =~= reserved_rule());
    s
}

fn preferred_rule_name() -> (s: String)
    ensures
        s@ == preferred_rule(),
{
    let s = "preferred".to_owned();
    proof {
        reveal_strlit("preferred");
    }
    assert(s@ =~= preferred_rule());
    s
}

/// `len` flags, the one at `i` set.
pub open spec fn only_at(len: nat, i: int) -> Seq<bool> {
    Seq::new(len, |k: int| k == i)
}

/// The keywords of rule `i`'s body, resolving calls with rule `i` itself
/// already being resolved.
pub open spec fn rule_words(rules: Seq<(String, Pattern)>, i: int) -> Set<EntryV> {
    let names = names_of_rules(rules);
    let bodies = bodies_of_rules(rules);
    match kw_entries(bodies[i], names, bodies, only_at(rules.len(), i)) {
        Some(es) => es.to_set(),
        None => Set::empty(),
    }
}

/// The `k`-th keyword-set rule of the grammar yields keyword `e`, and is
/// a `preferred` rule exactly when `pref`.
pub open spec fn contributes(g: Grammar, k: int, pref: bool, e: EntryV) -> bool {
    let n = g.percent_rules@[k]@;
    let i = index_of(names_of_rules(g.rules@), n);
    &&& 0 <= k < g.percent_rules@.len()
    &&& i >= 0
    &&& name_set(g.preferred_rules@).contains(n) == pref
    &&& rule_words(g.rules@, i).contains(e)
}

/// The keywords of the first `m` keyword-set rules, of the `preferred`
/// ones (`pref`) or of the others.
pub open spec fn words_upto(g: Grammar, pref: bool, m: int) -> Set<EntryV> {
    Set::new(|e: EntryV| exists|k: int| 0 <= k < m && #[trigger] contributes(g, k, pref, e))
}

/// The keywords of the grammar's `preferred` rules (`pref`), or of its
/// `reserved` ones.
pub open spec fn percent_words(g: Grammar, pref: bool) -> Set<EntryV> {
    words_upto(g, pref, g.percent_rules@.len() as int)
}

/// The rule list with rule `n` set to `body`: replaced where a rule of
/// that name exists, added at the end otherwise.
pub open spec fn set_rule(names: Seq<Seq<char>>, bodies: Seq<PatternV>, n: Seq<char>, body: PatternV) -> (
    Seq<Seq<char>>,
    Seq<PatternV>,
) {
    let i = index_of(names, n);
    if i >= 0 {
        (names, bodies.update(i, body))
    } else {
        (names.push(n), bodies.push(body))
    }
}

/// The name list with `n` added unless it is already there.
pub open spec fn with_name(v: Seq<Seq<char>>, n: Seq<char>) -> Seq<Seq<char>> {
    if v.contains(n) {
        v
    } else {
        v.push(n)
    }
}

/// The rules after the word-set rules of the lists `rw` (reserved) and
/// `pw` (preferred) are set, each only when its list is not empty.
pub open spec fn add_word_rules(names: Seq<Seq<char>>, bodies: Seq<PatternV>, rw: Seq<EntryV>, pw: Seq<EntryV>) -> (
    Seq<Seq<char>>,
    Seq<PatternV>,
) {
    let (n1, b1) = if rw.len() > 0 {
        set_rule(names, bodies, reserved_rule(), word_set_view(rw))
    } else {
        (names, bodies)
    };
    if pw.len() > 0 {
        set_rule(n1, b1, preferred_rule(), word_set_view(pw))
    } else {
        (n1, b1)
    }
}

/// A name list after the names of the non-empty word sets are added.
pub open spec fn add_word_names(v: Seq<Seq<char>>, rw: Seq<EntryV>, pw: Seq<EntryV>) -> Seq<Seq<char>> {
    let v1 = if rw.len() > 0 {
        with_name(v, reserved_rule())
    } else {
        v
    };
    if pw.len() > 0 {
        with_name(v1, preferred_rule())
    } else {
        v1
    }
}

/// `h` is `g` with the word-set rules of the word lists `rw` and `pw`.
pub open spec fn synth_lists(g: Grammar, h: Grammar, rw: Seq<EntryV>, pw: Seq<EntryV>) -> bool {
    &&& word_list_ok(rw)
    &&& rw.to_set() == percent_words(g, false)
    &&& word_list_ok(pw)
    &&& pw.to_set() == percent_words(g, true)
    &&& (names_of_rules(h.rules@), bodies_of_rules(h.rules@)) == add_word_rules(
        names_of_rules(g.rules@),
        bodies_of_rules(g.rules@),
        rw,
        pw,
    )
    &&& texts(h.percent_rules@) == add_word_names(texts(g.percent_rules@), rw, pw)
    &&& texts(h.atomic_rules@) == add_word_names(texts(g.atomic_rules@), rw, pw)
}

/// The report of a clash: the texts of the keywords in `overlap`, sorted.
pub open spec fn conflict_report(words: Seq<String>, overlap: Set<EntryV>) -> bool {
    &&& texts_sorted(texts(words))
    &&& exists|os: Seq<EntryV>| #[trigger] report_of(words, overlap, os)
}

/// The report texts of the keywords, in order.
pub open spec fn displays(os: Seq<EntryV>) -> Seq<Seq<char>> {
    os.map_values(|e: EntryV| display_of(e))
}

/// `words` are the texts of `os`, a listing of `overlap`, in some order.
pub open spec fn report_of(words: Seq<String>, overlap: Set<EntryV>, os: Seq<EntryV>) -> bool {
    &&& os.no_duplicates()
    &&& os.to_set() == overlap
    &&& texts(words).to_multiset() == displays(os).to_multiset()
}

proof fn lemma_words_step(g: Grammar, pref: bool, k: int)
    requires
        0 <= k,
    ensures
        words_upto(g, pref, k + 1) == words_upto(g, pref, k) + Set::new(|e: EntryV| contributes(g, k, pref, e)),
{
    assert(words_upto(g, pref, k + 1) =~= words_upto(g, pref, k) + Set::new(|e: EntryV| contributes(g, k, pref, e)));
}

proof fn lemma_to_set_push<A>(s: Seq<A>, x: A)
    ensures
        s.push(x).to_set() == s.to_set().insert(x),
{
    assert forall|y: A| s.push(x).to_set().contains(y) implies s.to_set().insert(x).contains(y) by {
        let i = choose|i: int| 0 <= i < s.push(x).len() && s.push(x)[i] == y;
        if i < s.len() {
            assert(s[i] == y);
        }
    }
    assert forall|y: A| s.to_set().insert(x).contains(y) implies s.push(x).to_set().contains(y) by {
        if y == x {
            assert(s.push(x)[s.len() as int] == y);
        } else {
            let i = choose|i: int| 0 <= i < s.len() && s[i] == y;
            assert(s.push(x)[i] == y);
        }
    }
    assert(s.push(x).to_set() =~= s.to_set().insert(x));
}

/// Whether keyword `e` is in the list.
fn holds_entry(list: &Vec<Vec<CharSet>>, e: &Vec<CharSet>) -> (b: bool)
    ensures
        b == entries_view(list@).contains(entry_view(e@)),
{
    let ghost ws = entries_view(list@);
    let mut k: usize = 0;
    while k < list.len()
        invariant
            ws == entries_view(list@),
            k <= list@.len(),
            forall|j: int| 0 <= j < k ==> #[trigger] ws[j] != entry_view(e@),
        decreases list.len() - k,
    {
        if same_entry(&list[k], e) {
            assert(ws[k as int] == entry_view(e@));
            return true;
        }
        k += 1;
    }
    false
}

/// Set rule `name` to `body`: replace it where it exists, else add it.
fn put_rule(rules: &mut Vec<(String, Pattern)>, name: String, body: Pattern)
    ensures
        (names_of_rules(final(rules)@), bodies_of_rules(final(rules)@)) == set_rule(
            names_of_rules(old(rules)@),
            bodies_of_rules(old(rules)@),
            name@,
            body@,
        ),
{
    let ghost names = names_of_rules(rules@);
    let ghost bodies = bodies_of_rules(rules@);
    proof {
        lemma_index_of(names, name@);
    }
    let ghost bv = body@;
    match find_rule(rules, &name) {
        Some(i) => {
            rules.set(i, (name, body));
            assert(names_of_rules(rules@) =~= names);
            assert(bodies_of_rules(rules@) =~= bodies.update(i as int, bv));
        },
        None => {
            rules.push((name, body));
            assert(names_of_rules(rules@) =~= names.push(name@));
            assert(bodies_of_rules(rules@) =~= bodies.push(bv));
        },
    }
}

/// Add `name` to the list unless it is already there.
fn add_name(v: &mut Vec<String>, name: String)
    ensures
        texts(final(v)@) == with_name(texts(old(v)@), name@),
{
    let ghost t = texts(v@);
    let mut k: usize = 0;
    while k < v.len()
        invariant
            t == texts(v@),
            v@ == old(v)@,
            k <= v@.len(),
            forall|j: int| 0 <= j < k ==> #[trigger] t[j] != name@,
        decreases v.len() - k,
    {
        if v[k] == name {
            assert(t[k as int] == name@);
            return;
        }
        k += 1;
    }
    v.push(name);
    assert(texts(v@) =~= t.push(name@));
}

/// Add the keywords of `es` to `target`.
fn add_words(target: &mut Vec<Vec<CharSet>>, es: &Vec<Vec<CharSet>>)
    requires
        word_list_ok(entries_view(old(target)@)),
    ensures
        word_list_ok(entries_view(final(target)@)),
        entries_view(final(target)@).to_set() == entries_view(old(target)@).to_set() + entries_view(es@).to_set(),
{
    let mut t: usize = 0;
    while t < es.len()
        invariant
            t <= es@.len(),
            word_list_ok(entries_view(target@)),
            entries_view(target@).to_set() == entries_view(old(target)@).to_set() + entries_view(es@.take(t as int)).to_set(),
        decreases es.len() - t,
    {
        add_word(target, copy_entry(&es[t]));
        t += 1;
        assert(entries_view(es@.take(t as int)) =~= entries_view(es@.take(t - 1)).push(entry_view(es@[t - 1]@)));
        proof {
            lemma_to_set_push(entries_view(es@.take(t - 1)), entry_view(es@[t - 1]@));
        }
        assert(entries_view(target@).to_set() =~= entries_view(old(target)@).to_set() + entries_view(es@.take(t as int)).to_set());
    }
    assert(es@.take(es@.len() as int) == es@);
}

/// Gather the keywords that the grammar's `reserved` and `preferred`
/// rules can match into two compiler-made rules, `reserved` and
/// `preferred`: each a choice of its keywords, longest first, set only
/// when it has any, and added to the keyword-set and atomic rules. A
/// rule whose body is not of fixed keyword shape adds nothing. A keyword
/// of both a `reserved` and a `preferred` rule is a conflict: the
/// grammar stays as it was and the error lists the clashing keywords.
pub fn synthesize_reserved_preferred(grammar: &mut Grammar) -> (r: Result<(), CompileError>)
    ensures
        r is Err <==> percent_words(*old(grammar), false).intersect(percent_words(*old(grammar), true))
            != Set::<EntryV>::empty(),
        r matches Err(e) ==> {
            &&& *final(grammar) == *old(grammar)
            &&& e matches CompileError::ReservedPreferredConflict(words) && conflict_report(
                words@,
                percent_words(*old(grammar), false).intersect(percent_words(*old(grammar), true)),
            )
        },
        r is Ok ==> {
            &&& final(grammar).start == old(grammar).start
            &&& final(grammar).rule_order == old(grammar).rule_order
            &&& final(grammar).preferred_rules == old(grammar).preferred_rules
            &&& exists|rw: Seq<EntryV>, pw: Seq<EntryV>| #[trigger] synth_lists(*old(grammar), *final(grammar), rw, pw)
        },
{
    let ghost g = *grammar;
    let mut reserved: Vec<Vec<CharSet>> = Vec::new();
    let mut preferred: Vec<Vec<CharSet>> = Vec::new();
    assert(entries_view(reserved@).to_set() =~= words_upto(g, false, 0));
    assert(entries_view(preferred@).to_set() =~= words_upto(g, true, 0));
    let mut k: usize = 0;
    while k < grammar.percent_rules.len()
        invariant
            *grammar == g,
            k <= g.percent_rules@.len(),
            word_list_ok(entries_view(reserved@)),
            word_list_ok(entries_view(preferred@)),
            entries_view(reserved@).to_set() == words_upto(g, false, k as int),
            entries_view(preferred@).to_set() == words_upto(g, true, k as int),
        decreases grammar.percent_rules.len() - k,
    {
        proof {
            lemma_words_step(g, false, k as int);
            lemma_words_step(g, true, k as int);
        }
        let name = &grammar.percent_rules[k];
        let ghost n = name@;
        proof {
            lemma_index_of(names_of_rules(g.rules@), n);
        }
        match find_rule(&grammar.rules, name) {
            Some(i) => {
                let mut visiting: Vec<bool> = Vec::new();
                let mut j: usize = 0;
                while j < grammar.rules.len()
                    invariant
                        *grammar == g,
                        j <= g.rules@.len(),
                        visiting@ == Seq::new(j as nat, |x: int| x == i),
                    decreases grammar.rules.len() - j,
                {
                    visiting.push(j == i);
                    j += 1;
                    assert(visiting@ =~= Seq::new(j as nat, |x: int| x == i));
                }
                let ghost vis0 = visiting@;
                let found = keyword_entries(&grammar.rules[i].1, &grammar.rules, &mut visiting);
                proof {
                    assert(bodies_of_rules(g.rules@)[i as int] == pview(g.rules@[i as int].1));
                    assert(vis0 =~= only_at(g.rules@.len(), i as int));
                    assert(entries_opt_view(found) == kw_entries(
                        bodies_of_rules(g.rules@)[i as int],
                        names_of_rules(g.rules@),
                        bodies_of_rules(g.rules@),
                        only_at(g.rules@.len(), i as int),
                    ));
                }
                match found {
                    Some(es) => {
                        let pref = holds_name(&grammar.preferred_rules, name);
                        let ghost ev = entries_view(es@).to_set();
                        assert(rule_words(g.rules@, i as int) == ev);
                        if pref {
                            add_words(&mut preferred, &es);
                        } else {
                            add_words(&mut reserved, &es);
                        }
                        proof {
                            assert(Set::new(|e: EntryV| contributes(g, k as int, pref, e)) =~= ev);
                            assert(Set::new(|e: EntryV| contributes(g, k as int, !pref, e)) =~= Set::<EntryV>::empty());
                            assert(entries_view(reserved@).to_set() =~= words_upto(g, false, k + 1));
                            assert(entries_view(preferred@).to_set() =~= words_upto(g, true, k + 1));
                        }
                    },
                    None => {
                        proof {
                            assert(Set::new(|e: EntryV| contributes(g, k as int, false, e)) =~= Set::<EntryV>::empty());
                            assert(Set::new(|e: EntryV| contributes(g, k as int, true, e)) =~= Set::<EntryV>::empty());
                            assert(entries_view(reserved@).to_set() =~= words_upto(g, false, k + 1));
                            assert(entries_view(preferred@).to_set() =~= words_upto(g, true, k + 1));
                        }
                    },
                }
            },
            None => {
                proof {
                    assert(Set::new(|e: EntryV| contributes(g, k as int, false, e)) =~= Set::<EntryV>::empty());
                    assert(Set::new(|e: EntryV| contributes(g, k as int, true, e)) =~= Set::<EntryV>::empty());
                    assert(entries_view(reserved@).to_set() =~= words_upto(g, false, k + 1));
                    assert(entries_view(preferred@).to_set() =~= words_upto(g, true, k + 1));
                }
            },
        }
        k += 1;
    }
    let ghost rw = entries_view(reserved@);
    let ghost pw = entries_view(preferred@);
    let ghost res = percent_words(g, false);
    let ghost pre = percent_words(g, true);
    // The keywords of both sets, in the reserved list's order.
    let mut clash: Vec<String> = Vec::new();
    let ghost mut os: Seq<EntryV> = Seq::empty();
    let mut j: usize = 0;
    while j < reserved.len()
        invariant
            rw == entries_view(reserved@),
            pw == entries_view(preferred@),
            rw.to_set() == res,
            pw.to_set() == pre,
            word_list_ok(rw),
            j <= rw.len(),
            os.no_duplicates(),
            os.to_set() == rw.take(j as int).to_set().intersect(pre),
            texts(clash@) == displays(os),
        decreases reserved.len() - j,
    {
        let ghost x = rw[j as int];
        assert(x == entry_view(reserved@[j as int]@));
        if holds_entry(&preferred, &reserved[j]) {
            let d = entry_display(&reserved[j]);
            let ghost old_clash = clash@;
            let ghost old_os = os;
            clash.push(d);
            proof {
                assert(!os.contains(x)) by {
                    if os.contains(x) {
                        let m = choose|m: int| 0 <= m < os.len() && os[m] == x;
                        assert(os.to_set().contains(x));
                        let q = choose|q: int| 0 <= q < j && rw.take(j as int)[q] == x;
                        assert(rw[q] == rw[j as int]);
                    }
                }
                os = os.push(x);
                assert(texts(old_clash) == displays(old_os));
                assert(clash@ == old_clash.push(d));
                assert(d@ == display_of(x));
                assert(texts(old_clash).len() == old_clash.len());
                assert(old_clash.len() == old_os.len());
                assert(texts(clash@).len() == os.len());
                assert(texts(clash@)[old_os.len() as int] == d@);
                assert(displays(os)[old_os.len() as int] == display_of(x));
                assert forall|m: int| 0 <= m < os.len() implies #[trigger] texts(clash@)[m] == displays(os)[m] by {
                    if m < old_os.len() {
                        assert(texts(old_clash)[m] == displays(old_os)[m]);
                    }
                }
                assert(texts(clash@) =~= displays(os));
                lemma_to_set_push(old_os, x);
            }
        }
        proof {
            assert(rw.take(j + 1) == rw.take(j as int).push(x));
            lemma_to_set_push(rw.take(j as int), x);
            assert(pw.contains(x) == pre.contains(x));
            assert(os.to_set() =~= rw.take(j + 1).to_set().intersect(pre));
        }
        j += 1;
    }
    proof {
        assert(rw.take(rw.len() as int) == rw);
    }
    if clash.len() > 0 {
        let words = sort_strings(clash);
        proof {
            assert(os.len() > 0);
            assert(os.to_set().contains(os[0]));
            assert(report_of(words@, res.intersect(pre), os));
        }
        return Err(CompileError::ReservedPreferredConflict(words));
    }
    proof {
        assert(os.len() == 0);
        assert(res.intersect(pre) =~= Set::<EntryV>::empty()) by {
            assert(os.to_set() =~= Set::<EntryV>::empty());
        }
    }
    if reserved.len() > 0 {
        let rule = build_word_set_rule(&reserved);
        put_rule(&mut grammar.rules, reserved_rule_name(), rule);
        add_name(&mut grammar.percent_rules, reserved_rule_name());
        add_name(&mut grammar.atomic_rules, reserved_rule_name());
    }
    if preferred.len() > 0 {
        let rule = build_word_set_rule(&preferred);
        put_rule(&mut grammar.rules, preferred_rule_name(), rule);
        add_name(&mut grammar.percent_rules, preferred_rule_name());
        add_name(&mut grammar.atomic_rules, preferred_rule_name());
    }
    assert(synth_lists(g, *grammar, rw, pw));
    Ok(())
}

} // verus!
