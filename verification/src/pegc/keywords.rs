//! Keyword rules: the trailing `boundary` check of `reserved` and
//! `preferred` rules, and the longest-match literal trie that replaces a
//! capture-less choice of plain literals.
use vstd::prelude::*;

use super::analysis::{holds_name, name_set, names_of_rules};
use super::compiler::{items_free, lemma_items_free_all, placeholder_free};
use super::parser::Grammar;
use super::pattern::{Pattern, PatternV, lemma_pviews_index, pview, pviews};

verus! {

/// The name of the rule that checks a keyword ends at a word boundary.
pub open spec fn boundary_name() -> Seq<char> {
    seq!['b', 'o', 'u', 'n', 'd', 'a', 'r', 'y']
}

/// `"boundary"`.
pub fn boundary_rule_name() -> (s: String)
    ensures
        s@ == boundary_name(),
{
    let s = "boundary".to_owned();
    proof {
        reveal_strlit("boundary");
    }
    assert(s@ =~= boundary_name());
    s
}

/// `p ++ w` for each word `w` of `ws`.
pub open spec fn prefixed(p: Seq<u8>, ws: Set<Seq<u8>>) -> Set<Seq<u8>> {
    Set::new(|w: Seq<u8>| exists|x: Seq<u8>| ws.contains(x) && w == p + x)
}

/// The words a literal trie accepts. A trie is a choice of branches, or
/// a single branch; a branch is a literal followed by a sub-trie, or a
/// `boundary` call accepting the empty word.
pub open spec fn trie_words(p: PatternV) -> Set<Seq<u8>>
    decreases p, 1int,
{
    match p {
        PatternV::OrderedChoice(bs) => branches_words(bs, bs.len() as int),
        _ => branch_words(p),
    }
}

/// The words of the first `k` branches.
pub open spec fn branches_words(bs: Seq<PatternV>, k: int) -> Set<Seq<u8>>
    decreases bs, k,
{
    if k <= 0 || k > bs.len() {
        Set::empty()
    } else {
        branches_words(bs, k - 1).union(branch_words(bs[k - 1]))
    }
}

/// The words of one branch.
pub open spec fn branch_words(b: PatternV) -> Set<Seq<u8>>
    decreases b, 0int,
{
    match b {
        PatternV::NonTerminal(n) => if n == boundary_name() {
            set![Seq::<u8>::empty()]
        } else {
            Set::empty()
        },
        PatternV::Sequence(items) => if items.len() == 2 && items[0] is Literal {
            prefixed(items[0]->Literal_0, trie_words(items[1]))
        } else {
            Set::empty()
        },
        _ => Set::empty(),
    }
}

/// `p` is a literal trie: a choice of branches or a single branch, each
/// branch a literal followed by a trie, or a `boundary` call.
pub open spec fn trie_shaped(p: PatternV) -> bool
    decreases p, 1int,
{
    match p {
        PatternV::OrderedChoice(bs) => branches_shaped(bs, bs.len() as int),
        _ => branch_shaped(p),
    }
}

pub open spec fn branches_shaped(bs: Seq<PatternV>, k: int) -> bool
    decreases bs, k,
{
    if k <= 0 || k > bs.len() {
        true
    } else {
        branches_shaped(bs, k - 1) && branch_shaped(bs[k - 1])
    }
}

pub open spec fn branch_shaped(b: PatternV) -> bool
    decreases b, 0int,
{
    match b {
        PatternV::NonTerminal(n) => n == boundary_name(),
        PatternV::Sequence(items) => items.len() == 2 && items[0] is Literal && trie_shaped(items[1]),
        _ => false,
    }
}

/// The byte strings of a list, as a set.
pub open spec fn words_of(es: Seq<Vec<u8>>) -> Set<Seq<u8>> {
    Set::new(|w: Seq<u8>| exists|i: int| 0 <= i < es.len() && #[trigger] es[i]@ == w)
}

/// Length of the longest entry.
pub open spec fn max_len(es: Seq<Vec<u8>>) -> nat
    decreases es.len(),
{
    if es.len() == 0 {
        0
    } else {
        let m = max_len(es.drop_last());
        if es.last()@.len() > m {
            es.last()@.len()
        } else {
            m
        }
    }
}

proof fn lemma_max_len(es: Seq<Vec<u8>>)
    ensures
        forall|i: int| 0 <= i < es.len() ==> (#[trigger] es[i])@.len() <= max_len(es),
    decreases es.len(),
{
    if es.len() > 0 {
        lemma_max_len(es.drop_last());
        assert forall|i: int| 0 <= i < es.len() implies (#[trigger] es[i])@.len() <= max_len(es) by {
            if i < es.len() - 1 {
                assert(es.drop_last()[i] == es[i]);
            }
        }
    }
}

proof fn lemma_max_len_bound(es: Seq<Vec<u8>>, m: nat)
    requires
        forall|i: int| 0 <= i < es.len() ==> (#[trigger] es[i])@.len() <= m,
    ensures
        max_len(es) <= m,
    decreases es.len(),
{
    if es.len() > 0 {
        assert forall|i: int| 0 <= i < es.drop_last().len() implies (#[trigger] es.drop_last()[i])@.len() <= m by {
            assert(es.drop_last()[i] == es[i]);
        }
        lemma_max_len_bound(es.drop_last(), m);
    }
}

/// `v[1..]`.
fn tail(v: &Vec<u8>) -> (t: Vec<u8>)
    requires
        v@.len() > 0,
    ensures
        t@ == v@.drop_first(),
{
    let mut t: Vec<u8> = Vec::with_capacity(v.len() - 1);
    let mut k: usize = 1;
    while k < v.len()
        invariant
            1 <= k <= v@.len(),
            t@ == v@.subrange(1, k as int),
        decreases v.len() - k,
    {
        t.push(v[k]);
        k += 1;
        assert(t@ =~= v@.subrange(1, k as int));
    }
    assert(v@.drop_first() =~= v@.subrange(1, v@.len() as int));
    t
}

fn copy_bytes(b: &Vec<u8>) -> (r: Vec<u8>)
    ensures
        r@ == b@,
{
    let mut r: Vec<u8> = Vec::with_capacity(b.len());
    let mut i: usize = 0;
    while i < b.len()
        invariant
            i <= b@.len(),
            r@ == b@.take(i as int),
        decreases b.len() - i,
    {
        r.push(b[i]);
        i += 1;
        assert(r@ =~= b@.take(i as int));
    }
    assert(b@.take(b@.len() as int) =~= b@);
    r
}

/// Whether `v` holds `b`.
fn holds_byte(v: &Vec<u8>, b: u8) -> (r: bool)
    ensures
        r == v@.contains(b),
{
    let mut i: usize = 0;
    while i < v.len()
        invariant
            i <= v@.len(),
            forall|k: int| 0 <= k < i ==> v@[k] != b,
        decreases v.len() - i,
    {
        if v[i] == b {
            assert(v@[i as int] == b);
            return true;
        }
        i += 1;
    }
    false
}

/// The entries that start with `b`, without their first byte.
spec fn group_tails(es: Seq<Vec<u8>>, b: u8) -> Set<Seq<u8>> {
    Set::new(|w: Seq<u8>| exists|i: int| 0 <= i < es.len() && es[i]@.len() > 0 && es[i]@[0] == b && w == #[trigger] es[i]@.drop_first())
}

/// The non-empty entries whose first byte is in `used`.
spec fn grouped(es: Seq<Vec<u8>>, used: Seq<u8>) -> Set<Seq<u8>> {
    Set::new(|w: Seq<u8>| exists|i: int| 0 <= i < es.len() && #[trigger] es[i]@ == w && w.len() > 0 && used.contains(w[0]))
}

/// Build a literal trie: a branch per distinct first byte, in the order
/// the entries first use it, each a literal prefix (a chain of single
/// continuations coalesced into one literal) followed by the sub-trie of
/// what remains; a `boundary` call last when an entry ends here, so the
/// longest match is tried first. It accepts exactly the entries.
pub fn build_trie(entries: &Vec<Vec<u8>>) -> (p: Pattern)
    ensures
        trie_words(p@) == words_of(entries@),
        trie_shaped(p@),
    decreases max_len(entries@),
{
    let n = entries.len();
    let mut accept = false;
    let mut used: Vec<u8> = Vec::new();
    let mut branches: Vec<Pattern> = Vec::new();
    let mut i: usize = 0;
    proof {
        lemma_max_len(entries@);
    }
    while i < n
        invariant
            n == entries@.len(),
            i <= n,
            forall|k: int| 0 <= k < entries@.len() ==> (#[trigger] entries@[k])@.len() <= max_len(entries@),
            accept == exists|k: int| 0 <= k < i && (#[trigger] entries@[k])@.len() == 0,
            forall|k: int| 0 <= k < i && (#[trigger] entries@[k])@.len() > 0 ==> used@.contains(entries@[k]@[0]),
            forall|k: int| 0 <= k < pviews(branches@).len() ==> !(#[trigger] pviews(branches@)[k] is OrderedChoice),
            branches_words(pviews(branches@), branches@.len() as int) == grouped(entries@, used@),
            branches_shaped(pviews(branches@), branches@.len() as int),
            pviews(branches@).len() == branches@.len(),
        decreases n - i,
    {
        if entries[i].len() == 0 {
            accept = true;
        } else {
            let b = entries[i][0];
            if !holds_byte(&used, b) {
                let ghost old_used = used@;
                used.push(b);
                proof {
                    assert forall|c: u8| old_used.contains(c) implies used@.contains(c) by {
                        let j = choose|j: int| 0 <= j < old_used.len() && old_used[j] == c;
                        assert(used@[j] == c);
                    }
                    assert(used@[old_used.len() as int] == b);
                }
                // Tails of the entries that start with `b`.
                let mut rests: Vec<Vec<u8>> = Vec::new();
                let mut k: usize = 0;
                while k < n
                    invariant
                        n == entries@.len(),
                        k <= n,
                        i < n,
                        entries@[i as int]@.len() > 0 && entries@[i as int]@[0] == b,
                        k > i ==> rests@.len() > 0,
                        words_of(rests@) == group_tails(entries@.take(k as int), b),
                        forall|m: int| 0 <= m < rests@.len() ==> (#[trigger] rests@[m])@.len() + 1 <= max_len(entries@),
                        forall|m: int| 0 <= m < entries@.len() ==> (#[trigger] entries@[m])@.len() <= max_len(entries@),
                    decreases n - k,
                {
                    let ghost prev = rests@;
                    if entries[k].len() > 0 && entries[k][0] == b {
                        rests.push(tail(&entries[k]));
                        proof {
                            lemma_words_push(prev, rests@.last());
                        }
                    }
                    proof {
                        lemma_group_tails_step(entries@, k as int, b);
                    }
                    k += 1;
                }
                assert(entries@.take(n as int) =~= entries@);
                // Coalesce single continuations into the prefix.
                let mut prefix: Vec<u8> = vec![b];
                assert(prefix@ =~= seq![b]);
                loop
                    invariant
                        prefix@.len() >= 1,
                        forall|m: int| 0 <= m < rests@.len() ==> (#[trigger] rests@[m])@.len() + prefix@.len() <= max_len(entries@),
                        prefixed(prefix@, words_of(rests@)) == prefixed(seq![b], group_tails(entries@, b)),
                        rests@.len() > 0,
                    decreases max_len(entries@) - prefix@.len(),
                {
                    let mut all_same = true;
                    let mut any_empty = false;
                    let first0 = if rests[0].len() > 0 { rests[0][0] } else { 0u8 };
                    let mut m: usize = 0;
                    while m < rests.len()
                        invariant
                            m <= rests@.len(),
                            any_empty == exists|j: int| 0 <= j < m && (#[trigger] rests@[j])@.len() == 0,
                            !any_empty ==> (all_same == forall|j: int| 0 <= j < m ==> (#[trigger] rests@[j])@[0] == first0),
                        decreases rests.len() - m,
                    {
                        if rests[m].len() == 0 {
                            any_empty = true;
                        } else if rests[m][0] != first0 {
                            all_same = false;
                        }
                        m += 1;
                    }
                    if any_empty || !all_same {
                        break;
                    }
                    let mut next: Vec<Vec<u8>> = Vec::new();
                    let mut m: usize = 0;
                    while m < rests.len()
                        invariant
                            m <= rests@.len(),
                            next@.len() == m,
                            forall|j: int| 0 <= j < rests@.len() ==> (#[trigger] rests@[j])@.len() > 0 && rests@[j]@[0] == first0,
                            forall|j: int| 0 <= j < m ==> (#[trigger] next@[j])@ == rests@[j]@.drop_first(),
                        decreases rests.len() - m,
                    {
                        next.push(tail(&rests[m]));
                        m += 1;
                    }
                    proof {
                        lemma_coalesce(prefix@, rests@, next@, first0);
                    }
                    prefix.push(first0);
                    rests = next;
                }
                proof {
                    lemma_max_len_bound(rests@, (max_len(entries@) - 1) as nat);
                }
                let sub = build_trie(&rests);
                let ghost subv = sub@;
                let ghost pre = prefix@;
                let lit = Pattern::Literal(prefix);
                let items = vec![lit, sub];
                proof {
                    lemma_pviews_index(items@);
                    assert(pviews(items@) =~= seq![PatternV::Literal(pre), subv]);
                }
                let branch = Pattern::Sequence(items);
                let ghost bview = branch@;
                assert(bview == PatternV::Sequence(seq![PatternV::Literal(pre), subv]));
                assert(branch_words(bview) == prefixed(pre, trie_words(subv)));
                let ghost before = branches@;
                branches.push(branch);
                proof {
                    lemma_pviews_push(before, branches@.last());
                    lemma_branches_words_push(pviews(before), bview, pviews(before).len() as int);
                    lemma_branches_shaped_push(pviews(before), bview, pviews(before).len() as int);
                    lemma_group_added(entries@, old_used, b);
                    assert(grouped(entries@, used@) =~= grouped(entries@, old_used).union(
                        prefixed(seq![b], group_tails(entries@, b)),
                    ));
                }
            }
        }
        i += 1;
    }
    if accept {
        let ghost before = branches@;
        let call = Pattern::NonTerminal(boundary_rule_name());
        let ghost cv = call@;
        branches.push(call);
        proof {
            lemma_pviews_push(before, branches@.last());
            lemma_branches_words_push(pviews(before), cv, pviews(before).len() as int);
            lemma_branches_shaped_push(pviews(before), cv, pviews(before).len() as int);
        }
    }
    proof {
        let extra = if accept {
            set![Seq::<u8>::empty()]
        } else {
            Set::<Seq<u8>>::empty()
        };
        assert(branches_words(pviews(branches@), branches@.len() as int) == grouped(entries@, used@).union(extra));
        assert forall|w: Seq<u8>| words_of(entries@).contains(w) == grouped(entries@, used@).union(extra).contains(w) by {
            if words_of(entries@).contains(w) {
                let k = choose|k: int| 0 <= k < entries@.len() && #[trigger] entries@[k]@ == w;
                if w.len() > 0 {
                    assert(used@.contains(entries@[k]@[0]));
                    assert(grouped(entries@, used@).contains(w));
                } else {
                    assert(accept);
                    assert(w =~= Seq::<u8>::empty());
                }
            }
            if grouped(entries@, used@).contains(w) {
                let k = choose|k: int| 0 <= k < entries@.len() && #[trigger] entries@[k]@ == w && w.len() > 0 && used@.contains(w[0]);
                assert(words_of(entries@).contains(w));
            }
            if extra.contains(w) {
                let k = choose|k: int| 0 <= k < i && (#[trigger] entries@[k])@.len() == 0;
                assert(entries@[k]@ =~= w);
                assert(words_of(entries@).contains(w));
            }
        }
        assert(words_of(entries@) =~= grouped(entries@, used@).union(extra));
        lemma_pviews_index(branches@);
    }
    let p = Pattern::choice(branches);
    proof {
        if branches@.len() == 1 {
            let bs = pviews(branches@);
            assert(branches_words(bs, 0) =~= Set::<Seq<u8>>::empty());
            assert(branches_words(bs, 1) == branches_words(bs, 0).union(branch_words(bs[0])));
            assert(branches_words(bs, 1) =~= branch_words(bs[0]));
            assert(branches_shaped(bs, 1) == branch_shaped(bs[0]));
        }
    }
    p
}

proof fn lemma_branches_shaped_push(s: Seq<PatternV>, x: PatternV, k: int)
    requires
        0 <= k <= s.len(),
    ensures
        branches_shaped(s.push(x), k) == branches_shaped(s, k),
        k == s.len() ==> branches_shaped(s.push(x), k + 1) == (branches_shaped(s, k) && branch_shaped(x)),
    decreases k,
{
    if k > 0 {
        lemma_branches_shaped_push(s, x, k - 1);
        assert(s.push(x)[k - 1] == s[k - 1]);
    }
}

/// Adding a branch after the first `k` leaves their words alone, and adds
/// its own words after them.
proof fn lemma_branches_words_push(s: Seq<PatternV>, x: PatternV, k: int)
    requires
        0 <= k <= s.len(),
    ensures
        branches_words(s.push(x), k) == branches_words(s, k),
        k == s.len() ==> branches_words(s.push(x), k + 1) == branches_words(s, k).union(branch_words(x)),
    decreases k,
{
    if k > 0 {
        lemma_branches_words_push(s, x, k - 1);
        assert(s.push(x)[k - 1] == s[k - 1]);
    }
}

proof fn lemma_words_push(rs: Seq<Vec<u8>>, v: Vec<u8>)
    ensures
        words_of(rs.push(v)) == words_of(rs).insert(v@),
{
    assert forall|w: Seq<u8>| words_of(rs.push(v)).contains(w) == words_of(rs).insert(v@).contains(w) by {
        if words_of(rs).contains(w) {
            let i = choose|i: int| 0 <= i < rs.len() && #[trigger] rs[i]@ == w;
            assert(rs.push(v)[i] == rs[i]);
        }
        if w == v@ {
            assert(rs.push(v)[rs.len() as int] == v);
        }
        if words_of(rs.push(v)).contains(w) {
            let i = choose|i: int| 0 <= i < rs.push(v).len() && #[trigger] rs.push(v)[i]@ == w;
            if i < rs.len() {
                assert(rs[i] == rs.push(v)[i]);
            }
        }
    }
    assert(words_of(rs.push(v)) =~= words_of(rs).insert(v@));
}

proof fn lemma_group_tails_step(es: Seq<Vec<u8>>, k: int, b: u8)
    requires
        0 <= k < es.len(),
    ensures
        group_tails(es.take(k + 1), b) == group_tails(es.take(k), b).union(
            if es[k]@.len() > 0 && es[k]@[0] == b {
                set![es[k]@.drop_first()]
            } else {
                Set::empty()
            },
        ),
{
    let a = es.take(k + 1);
    let c = es.take(k);
    let extra = if es[k]@.len() > 0 && es[k]@[0] == b {
        set![es[k]@.drop_first()]
    } else {
        Set::<Seq<u8>>::empty()
    };
    assert forall|w: Seq<u8>| group_tails(a, b).contains(w) == group_tails(c, b).union(extra).contains(w) by {
        if group_tails(a, b).contains(w) {
            let i = choose|i: int| 0 <= i < a.len() && a[i]@.len() > 0 && a[i]@[0] == b && w == #[trigger] a[i]@.drop_first();
            if i < k {
                assert(c[i] == a[i]);
            }
        }
        if group_tails(c, b).contains(w) {
            let i = choose|i: int| 0 <= i < c.len() && c[i]@.len() > 0 && c[i]@[0] == b && w == #[trigger] c[i]@.drop_first();
            assert(a[i] == c[i]);
        }
        if extra.contains(w) {
            assert(a[k] == es[k]);
        }
    }
    assert(group_tails(a, b) =~= group_tails(c, b).union(extra));
}

/// Moving a shared first byte from the tails onto the prefix keeps the words.
proof fn lemma_coalesce(prefix: Seq<u8>, rests: Seq<Vec<u8>>, next: Seq<Vec<u8>>, f: u8)
    requires
        next.len() == rests.len(),
        forall|j: int| 0 <= j < rests.len() ==> (#[trigger] rests[j])@.len() > 0 && rests[j]@[0] == f,
        forall|j: int| 0 <= j < next.len() ==> (#[trigger] next[j])@ == rests[j]@.drop_first(),
    ensures
        prefixed(prefix.push(f), words_of(next)) == prefixed(prefix, words_of(rests)),
{
    assert forall|w: Seq<u8>| prefixed(prefix.push(f), words_of(next)).contains(w) == prefixed(prefix, words_of(rests)).contains(w) by {
        if prefixed(prefix.push(f), words_of(next)).contains(w) {
            let x = choose|x: Seq<u8>| words_of(next).contains(x) && w == prefix.push(f) + x;
            let j = choose|j: int| 0 <= j < next.len() && #[trigger] next[j]@ == x;
            assert(rests[j]@ =~= seq![f] + x);
            assert(w =~= prefix + rests[j]@);
            assert(words_of(rests).contains(rests[j]@));
        }
        if prefixed(prefix, words_of(rests)).contains(w) {
            let x = choose|x: Seq<u8>| words_of(rests).contains(x) && w == prefix + x;
            let j = choose|j: int| 0 <= j < rests.len() && #[trigger] rests[j]@ == x;
            assert(rests[j]@ =~= seq![f] + next[j]@);
            assert(w =~= prefix.push(f) + next[j]@);
            assert(words_of(next).contains(next[j]@));
        }
    }
    assert(prefixed(prefix.push(f), words_of(next)) =~= prefixed(prefix, words_of(rests)));
}

/// Grouping the entries that start with `b` adds them, as `b` before their tails.
proof fn lemma_group_added(es: Seq<Vec<u8>>, used: Seq<u8>, b: u8)
    ensures
        grouped(es, used.push(b)) == grouped(es, used).union(prefixed(seq![b], group_tails(es, b))),
{
    assert forall|w: Seq<u8>| grouped(es, used.push(b)).contains(w) == grouped(es, used).union(
        prefixed(seq![b], group_tails(es, b)),
    ).contains(w) by {
        if grouped(es, used.push(b)).contains(w) {
            let i = choose|i: int| 0 <= i < es.len() && #[trigger] es[i]@ == w && w.len() > 0 && used.push(b).contains(w[0]);
            let k = choose|k: int| 0 <= k < used.push(b).len() && used.push(b)[k] == w[0];
            if k < used.len() {
                assert(used.contains(w[0]));
            } else {
                assert(group_tails(es, b).contains(es[i]@.drop_first()));
                assert(w =~= seq![b] + es[i]@.drop_first());
            }
        }
        if grouped(es, used).contains(w) {
            let i = choose|i: int| 0 <= i < es.len() && #[trigger] es[i]@ == w && w.len() > 0 && used.contains(w[0]);
            let k = choose|k: int| 0 <= k < used.len() && used[k] == w[0];
            assert(used.push(b)[k] == w[0]);
        }
        if prefixed(seq![b], group_tails(es, b)).contains(w) {
            let x = choose|x: Seq<u8>| group_tails(es, b).contains(x) && w == seq![b] + x;
            let i = choose|i: int| 0 <= i < es.len() && es[i]@.len() > 0 && es[i]@[0] == b && x == #[trigger] es[i]@.drop_first();
            assert(es[i]@ =~= w);
            assert(used.push(b)[used.len() as int] == b);
        }
    }
    assert(grouped(es, used.push(b)) =~= grouped(es, used).union(prefixed(seq![b], group_tails(es, b))));
}

proof fn lemma_pviews_push(s: Seq<Pattern>, x: Pattern)
    ensures
        pviews(s.push(x)) == pviews(s).push(pview(x)),
{
    lemma_pviews_index(s);
    lemma_pviews_index(s.push(x));
    assert(pviews(s.push(x)) =~= pviews(s).push(pview(x)));
}

// ---------------------------------------------------------------------
// Sorting the literals of a keyword choice
// ---------------------------------------------------------------------

/// `a` comes before `b` byte by byte, a proper prefix first.
pub open spec fn lex_less(a: Seq<u8>, b: Seq<u8>) -> bool
    decreases a.len(),
{
    if b.len() == 0 {
        false
    } else if a.len() == 0 {
        true
    } else if a[0] != b[0] {
        a[0] < b[0]
    } else {
        lex_less(a.drop_first(), b.drop_first())
    }
}

/// Byte-wise comparison of `a` and `b`.
fn bytes_less(a: &Vec<u8>, b: &Vec<u8>) -> (r: bool)
    ensures
        r == lex_less(a@, b@),
{
    let mut k: usize = 0;
    assert(a@.skip(0) =~= a@);
    assert(b@.skip(0) =~= b@);
    while k < a.len() && k < b.len()
        invariant
            k <= a@.len(),
            k <= b@.len(),
            a@.take(k as int) == b@.take(k as int),
            lex_less(a@, b@) == lex_less(a@.skip(k as int), b@.skip(k as int)),
        decreases a.len() - k,
    {
        if a[k] != b[k] {
            proof {
                assert(a@.skip(k as int)[0] == a@[k as int]);
                assert(b@.skip(k as int)[0] == b@[k as int]);
            }
            return a[k] < b[k];
        }
        proof {
            assert(a@.skip(k as int).drop_first() =~= a@.skip(k + 1));
            assert(b@.skip(k as int).drop_first() =~= b@.skip(k + 1));
            assert(a@.take(k + 1) =~= a@.take(k as int).push(a@[k as int]));
            assert(b@.take(k + 1) =~= b@.take(k as int).push(b@[k as int]));
        }
        k += 1;
    }
    proof {
        assert(a@.skip(k as int).len() == a@.len() - k);
        assert(b@.skip(k as int).len() == b@.len() - k);
    }
    k < b.len()
}

/// Byte-wise equality of `a` and `b`.
fn bytes_equal(a: &Vec<u8>, b: &Vec<u8>) -> (r: bool)
    ensures
        r == (a@ == b@),
{
    crate::highlight::theme::same_bytes(a.as_slice(), b.as_slice())
}

/// The literals in byte order, each once.
fn sorted_distinct(literals: &Vec<Vec<u8>>) -> (out: Vec<Vec<u8>>)
    ensures
        words_of(out@) == words_of(literals@),
{
    let mut out: Vec<Vec<u8>> = Vec::new();
    let mut i: usize = 0;
    while i < literals.len()
        invariant
            i <= literals@.len(),
            words_of(out@) == words_of(literals@.take(i as int)),
        decreases literals.len() - i,
    {
        let x = &literals[i];
        let mut p: usize = 0;
        while p < out.len() && bytes_less(&out[p], x)
            invariant
                p <= out@.len(),
            decreases out.len() - p,
        {
            p += 1;
        }
        let ghost before = out@;
        if p < out.len() && bytes_equal(&out[p], x) {
            proof {
                assert(words_of(before).contains(x@));
                assert(words_of(before).insert(x@) =~= words_of(before));
            }
        } else {
            out.insert(p, copy_bytes(x));
            proof {
                lemma_words_insert(before, p as int, out@[p as int]);
            }
        }
        proof {
            lemma_words_push(literals@.take(i as int), literals@[i as int]);
            assert(literals@.take(i + 1) =~= literals@.take(i as int).push(literals@[i as int]));
        }
        i += 1;
    }
    assert(literals@.take(literals@.len() as int) =~= literals@);
    out
}

proof fn lemma_words_insert(rs: Seq<Vec<u8>>, p: int, v: Vec<u8>)
    requires
        0 <= p <= rs.len(),
    ensures
        words_of(rs.insert(p, v)) == words_of(rs).insert(v@),
{
    let r2 = rs.insert(p, v);
    assert forall|w: Seq<u8>| words_of(r2).contains(w) == words_of(rs).insert(v@).contains(w) by {
        if words_of(rs).contains(w) {
            let i = choose|i: int| 0 <= i < rs.len() && #[trigger] rs[i]@ == w;
            if i < p {
                assert(r2[i] == rs[i]);
            } else {
                assert(r2[i + 1] == rs[i]);
            }
        }
        if w == v@ {
            assert(r2[p] == v);
        }
        if words_of(r2).contains(w) {
            let i = choose|i: int| 0 <= i < r2.len() && #[trigger] r2[i]@ == w;
            if i < p {
                assert(rs[i] == r2[i]);
            } else if i > p {
                assert(rs[i - 1] == r2[i]);
            }
        }
    }
    assert(words_of(r2) =~= words_of(rs).insert(v@));
}

/// Fold a set of literals into a longest-match trie, whatever their order.
pub fn factor_literal_trie(literals: &Vec<Vec<u8>>) -> (p: Pattern)
    ensures
        trie_words(p@) == words_of(literals@),
        trie_shaped(p@),
{
    let sorted = sorted_distinct(literals);
    build_trie(&sorted)
}

// ---------------------------------------------------------------------
// The trailing boundary check
// ---------------------------------------------------------------------

/// A call of the `boundary` rule.
pub open spec fn boundary_call() -> PatternV {
    PatternV::NonTerminal(boundary_name())
}

/// The pattern holds a capture somewhere (rule calls are opaque).
pub open spec fn has_capture(p: PatternV) -> bool
    decreases p, 0int,
{
    match p {
        PatternV::Capture(_, _) => true,
        PatternV::Sequence(items) => items_have_capture(items, items.len() as int),
        PatternV::OrderedChoice(items) => items_have_capture(items, items.len() as int),
        PatternV::Repeat(inner) => has_capture(*inner),
        PatternV::RepeatOne(inner) => has_capture(*inner),
        PatternV::Optional(inner) => has_capture(*inner),
        PatternV::NotPredicate(inner) => has_capture(*inner),
        PatternV::AndPredicate(inner) => has_capture(*inner),
        PatternV::Lenient(inner) => has_capture(*inner),
        PatternV::Catch { inner, recovery, .. } => has_capture(*inner) || has_capture(*recovery),
        PatternV::InferBoundaryCatch { inner, .. } => has_capture(*inner),
        _ => false,
    }
}

pub open spec fn items_have_capture(items: Seq<PatternV>, k: int) -> bool
    decreases items, k,
{
    if k <= 0 || k > items.len() {
        false
    } else {
        items_have_capture(items, k - 1) || has_capture(items[k - 1])
    }
}

/// Every alternative is a plain literal.
pub open spec fn all_literals(alts: Seq<PatternV>) -> bool {
    forall|i: int| 0 <= i < alts.len() ==> #[trigger] alts[i] is Literal
}

/// The byte strings of the literal alternatives.
pub open spec fn literal_words(alts: Seq<PatternV>) -> Set<Seq<u8>> {
    Set::new(|w: Seq<u8>| exists|i: int| 0 <= i < alts.len() && #[trigger] alts[i] == PatternV::Literal(w))
}

/// `out` is `p` with a `boundary` check at the end of its match: a
/// capture-less choice of literals becomes a longest-match trie with a
/// check at each accept; another capture-less choice gets one check after
/// it; a choice with captures gets one in each branch, a sequence in its
/// last item, a capture inside it; anything else is followed by one.
pub open spec fn boundary_appended(p: PatternV, out: PatternV) -> bool
    decreases p, 0int,
{
    match p {
        PatternV::OrderedChoice(alts) => if !has_capture(p) {
            if all_literals(alts) {
                trie_words(out) == literal_words(alts) && trie_shaped(out)
            } else {
                out == PatternV::Sequence(seq![p, boundary_call()])
            }
        } else {
            match out {
                PatternV::OrderedChoice(outs) => outs.len() == alts.len() && alts_appended(
                    alts,
                    outs,
                    alts.len() as int,
                ),
                _ => false,
            }
        },
        PatternV::Sequence(items) => if items.len() == 0 {
            out == p
        } else {
            match out {
                PatternV::Sequence(outs) => outs.len() == items.len() && outs.drop_last()
                    == items.drop_last() && boundary_appended(items.last(), outs.last()),
                _ => false,
            }
        },
        PatternV::Capture(k, inner) => match out {
            PatternV::Capture(k2, o) => k2 == k && boundary_appended(*inner, *o),
            _ => false,
        },
        _ => out == PatternV::Sequence(seq![p, boundary_call()]),
    }
}

/// Each of the first `k` branches has its boundary appended.
pub open spec fn alts_appended(alts: Seq<PatternV>, outs: Seq<PatternV>, k: int) -> bool
    decreases alts, k,
{
    if k <= 0 || k > alts.len() {
        true
    } else {
        alts_appended(alts, outs, k - 1) && boundary_appended(alts[k - 1], outs[k - 1])
    }
}

/// Whether the pattern holds a capture.
fn contains_capture(p: &Pattern) -> (b: bool)
    ensures
        b == has_capture(p@),
    decreases p,
{
    match p {
        Pattern::Capture(_, _) => true,
        Pattern::Sequence(items) | Pattern::OrderedChoice(items) => {
            let ghost vs = pviews(items@);
            proof {
                lemma_pviews_index(items@);
            }
            let mut acc = false;
            let mut i: usize = 0;
            while i < items.len()
                invariant
                    *p == Pattern::Sequence(*items) || *p == Pattern::OrderedChoice(*items),
                    vs == pviews(items@),
                    vs.len() == items@.len(),
                    forall|k: int| 0 <= k < items@.len() ==> #[trigger] vs[k] == pview(items@[k]),
                    i <= items@.len(),
                    acc == items_have_capture(vs, i as int),
                decreases items.len() - i,
            {
                proof {
                    vstd::std_specs::vec::axiom_vec_index_decreases(*items, i as int);
                    if *p == Pattern::Sequence(*items) {
                        assert(decreases_to!(*p => (*p)->Sequence_0));
                    } else {
                        assert(decreases_to!(*p => (*p)->OrderedChoice_0));
                    }
                }
                let b = contains_capture(&items[i]);
                acc = acc || b;
                i += 1;
            }
            acc
        },
        Pattern::Repeat(inner) | Pattern::RepeatOne(inner) | Pattern::Optional(inner)
        | Pattern::NotPredicate(inner) | Pattern::AndPredicate(inner) | Pattern::Lenient(inner) => contains_capture(inner),
        Pattern::Catch { inner, recovery, .. } => contains_capture(inner) || contains_capture(recovery),
        Pattern::InferBoundaryCatch { inner, .. } => contains_capture(inner),
        _ => false,
    }
}

/// The bytes of each alternative, when every one is a plain literal.
fn all_plain_literals(alts: &Vec<Pattern>) -> (r: Option<Vec<Vec<u8>>>)
    ensures
        r is Some <==> all_literals(pviews(alts@)),
        r matches Some(ls) ==> words_of(ls@) == literal_words(pviews(alts@)),
{
    let ghost vs = pviews(alts@);
    proof {
        lemma_pviews_index(alts@);
    }
    let mut out: Vec<Vec<u8>> = Vec::new();
    let mut i: usize = 0;
    while i < alts.len()
        invariant
            vs == pviews(alts@),
            vs.len() == alts@.len(),
            forall|k: int| 0 <= k < alts@.len() ==> #[trigger] vs[k] == pview(alts@[k]),
            i <= alts@.len(),
            all_literals(vs.take(i as int)),
            words_of(out@) == literal_words(vs.take(i as int)),
        decreases alts.len() - i,
    {
        match &alts[i] {
            Pattern::Literal(b) => {
                let ghost before = out@;
                out.push(copy_bytes(b));
                proof {
                    lemma_words_push(before, out@.last());
                    let t = vs.take(i + 1);
                    assert(t =~= vs.take(i as int).push(PatternV::Literal(b@)));
                    assert(literal_words(t) =~= literal_words(vs.take(i as int)).insert(b@)) by {
                        assert forall|w: Seq<u8>| literal_words(t).contains(w) == literal_words(vs.take(i as int)).insert(b@).contains(w) by {
                            if literal_words(t).contains(w) {
                                let k = choose|k: int| 0 <= k < t.len() && #[trigger] t[k] == PatternV::Literal(w);
                                if k < i {
                                    assert(vs.take(i as int)[k] == t[k]);
                                }
                            }
                            if literal_words(vs.take(i as int)).contains(w) {
                                let k = choose|k: int| 0 <= k < i && #[trigger] vs.take(i as int)[k] == PatternV::Literal(w);
                                assert(t[k] == vs.take(i as int)[k]);
                            }
                            if w == b@ {
                                assert(t[i as int] == PatternV::Literal(w));
                            }
                        }
                    }
                    assert forall|k: int| 0 <= k < t.len() implies #[trigger] t[k] is Literal by {
                        if k < i {
                            assert(t[k] == vs.take(i as int)[k]);
                        }
                    }
                }
            },
            _ => {
                proof {
                    assert(!(vs[i as int] is Literal));
                }
                return None;
            },
        }
        i += 1;
    }
    assert(vs.take(vs.len() as int) =~= vs);
    Some(out)
}

/// `[p, boundary]`.
fn followed_by_boundary(p: Pattern) -> (r: Pattern)
    ensures
        r@ == PatternV::Sequence(seq![p@, boundary_call()]),
{
    let ghost pv = p@;
    let items = vec![p, Pattern::NonTerminal(boundary_rule_name())];
    proof {
        lemma_pviews_index(items@);
        assert(pviews(items@) =~= seq![pv, boundary_call()]);
    }
    Pattern::Sequence(items)
}

/// `p` with a `boundary` check appended to the end of its match.
pub fn append_boundary_in(p: &Pattern) -> (out: Pattern)
    ensures
        boundary_appended(p@, out@),
    decreases p,
{
    match p {
        Pattern::OrderedChoice(alts) => {
            if !contains_capture(p) {
                match all_plain_literals(alts) {
                    Some(literals) => {
                        let t = factor_literal_trie(&literals);
                        return t;
                    },
                    None => {
                        return followed_by_boundary(p.deep_clone());
                    },
                }
            }
            let ghost vs = pviews(alts@);
            proof {
                lemma_pviews_index(alts@);
            }
            let mut outs: Vec<Pattern> = Vec::new();
            let mut i: usize = 0;
            while i < alts.len()
                invariant
                    *p == Pattern::OrderedChoice(*alts),
                    vs == pviews(alts@),
                    vs.len() == alts@.len(),
                    forall|k: int| 0 <= k < alts@.len() ==> #[trigger] vs[k] == pview(alts@[k]),
                    i <= alts@.len(),
                    pviews(outs@).len() == i,
                    alts_appended(vs, pviews(outs@), i as int),
                decreases alts.len() - i,
            {
                proof {
                    vstd::std_specs::vec::axiom_vec_index_decreases(*alts, i as int);
                    assert(decreases_to!(*p => (*p)->OrderedChoice_0));
                }
                let o = append_boundary_in(&alts[i]);
                let ghost before = outs@;
                outs.push(o);
                proof {
                    lemma_pviews_push(before, o);
                    lemma_alts_appended_prefix(vs, pviews(before), pviews(outs@), i as int);
                }
                i += 1;
            }
            let r = Pattern::OrderedChoice(outs);
            assert(r@ == PatternV::OrderedChoice(pviews(outs@)));
            r
        },
        Pattern::Sequence(items) => {
            if items.len() == 0 {
                proof {
                    lemma_pviews_index(items@);
                }
                return p.deep_clone();
            }
            let ghost vs = pviews(items@);
            proof {
                lemma_pviews_index(items@);
            }
            let n = items.len();
            let mut outs: Vec<Pattern> = Vec::new();
            let mut i: usize = 0;
            while i + 1 < n
                invariant
                    n == items@.len(),
                    n > 0,
                    vs == pviews(items@),
                    vs.len() == items@.len(),
                    forall|k: int| 0 <= k < items@.len() ==> #[trigger] vs[k] == pview(items@[k]),
                    i + 1 <= n,
                    pviews(outs@) == vs.take(i as int),
                decreases n - i,
            {
                let c = items[i].deep_clone();
                let ghost before = outs@;
                outs.push(c);
                proof {
                    lemma_pviews_push(before, c);
                    assert(vs.take(i + 1) =~= vs.take(i as int).push(vs[i as int]));
                }
                i += 1;
            }
            proof {
                vstd::std_specs::vec::axiom_vec_index_decreases(*items, (n - 1) as int);
                assert(decreases_to!(*p => (*p)->Sequence_0));
            }
            let last = append_boundary_in(&items[n - 1]);
            let ghost before = outs@;
            outs.push(last);
            proof {
                lemma_pviews_push(before, last);
                assert(pviews(outs@).drop_last() =~= vs.drop_last());
            }
            let r = Pattern::Sequence(outs);
            assert(r@ == PatternV::Sequence(pviews(outs@)));
            r
        },
        Pattern::Capture(k, inner) => {
            let o = append_boundary_in(inner);
            let r = Pattern::Capture(k.clone(), Box::new(o));
            assert(r@ == PatternV::Capture(k@, Box::new(o@)));
            r
        },
        _ => followed_by_boundary(p.deep_clone()),
    }
}

proof fn lemma_alts_appended_prefix(alts: Seq<PatternV>, a: Seq<PatternV>, b: Seq<PatternV>, k: int)
    requires
        0 <= k <= a.len(),
        k < b.len(),
        forall|m: int| 0 <= m < a.len() ==> a[m] == b[m],
        b.len() == a.len() + 1,
    ensures
        alts_appended(alts, a, k) == alts_appended(alts, b, k),
    decreases k,
{
    if k > 0 {
        lemma_alts_appended_prefix(alts, a, b, k - 1);
    }
}

/// Append a `boundary` check to every `reserved` or `preferred` rule.
pub fn append_boundary_check(grammar: &mut Grammar)
    ensures
        final(grammar).rules@.len() == old(grammar).rules@.len(),
        names_of_rules(final(grammar).rules@) == names_of_rules(old(grammar).rules@),
        forall|i: int|
            0 <= i < old(grammar).rules@.len() ==> if name_set(old(grammar).percent_rules@).contains(old(grammar).rules@[i].0@) {
                boundary_appended(pview(old(grammar).rules@[i].1), pview(#[trigger] final(grammar).rules@[i].1))
            } else {
                pview(final(grammar).rules@[i].1) == pview(old(grammar).rules@[i].1)
            },
        final(grammar).atomic_rules@ == old(grammar).atomic_rules@,
        final(grammar).rule_order@ == old(grammar).rule_order@,
        final(grammar).percent_rules@ == old(grammar).percent_rules@,
        final(grammar).preferred_rules@ == old(grammar).preferred_rules@,
        final(grammar).start@ == old(grammar).start@,
{
    let n = grammar.rules.len();
    let mut out: Vec<(String, Pattern)> = Vec::new();
    let mut i: usize = 0;
    while i < n
        invariant
            n == grammar.rules@.len(),
            *grammar == *old(grammar),
            i <= n,
            out@.len() == i,
            forall|k: int| 0 <= k < i ==> (#[trigger] out@[k]).0 == grammar.rules@[k].0,
            forall|k: int|
                0 <= k < i ==> if name_set(grammar.percent_rules@).contains(grammar.rules@[k].0@) {
                    boundary_appended(pview(grammar.rules@[k].1), pview(#[trigger] out@[k].1))
                } else {
                    pview(out@[k].1) == pview(grammar.rules@[k].1)
                },
        decreases n - i,
    {
        let name = grammar.rules[i].0.clone();
        let body = if holds_name(&grammar.percent_rules, &grammar.rules[i].0) {
            append_boundary_in(&grammar.rules[i].1)
        } else {
            grammar.rules[i].1.deep_clone()
        };
        out.push((name, body));
        i += 1;
    }
    proof {
        assert(names_of_rules(out@) =~= names_of_rules(grammar.rules@));
    }
    grammar.rules = out;
}

proof fn lemma_trie_free(p: PatternV)
    requires
        trie_shaped(p),
    ensures
        placeholder_free(p),
    decreases p, 1int,
{
    match p {
        PatternV::OrderedChoice(bs) => {
            lemma_branches_free(bs, bs.len() as int);
            lemma_items_free_all(bs);
        },
        _ => lemma_branch_free(p),
    }
}

proof fn lemma_branches_free(bs: Seq<PatternV>, k: int)
    requires
        0 <= k <= bs.len(),
        branches_shaped(bs, k),
    ensures
        forall|m: int| 0 <= m < k ==> #[trigger] placeholder_free(bs[m]),
    decreases bs, k,
{
    if k > 0 {
        lemma_branches_free(bs, k - 1);
        lemma_branch_free(bs[k - 1]);
    }
}

proof fn lemma_branch_free(b: PatternV)
    requires
        branch_shaped(b),
    ensures
        placeholder_free(b),
    decreases b, 0int,
{
    match b {
        PatternV::Sequence(items) => {
            lemma_trie_free(items[1]);
            assert(placeholder_free(items[0]));
            lemma_items_free_all(items);
        },
        _ => {},
    }
}

proof fn lemma_followed_free(p: PatternV)
    requires
        placeholder_free(p),
    ensures
        placeholder_free(PatternV::Sequence(seq![p, boundary_call()])),
{
    let items = seq![p, boundary_call()];
    assert(placeholder_free(items[1]));
    lemma_items_free_all(items);
}

/// Appending the boundary check adds no placeholder.
pub proof fn lemma_appended_free(p: PatternV, out: PatternV)
    requires
        boundary_appended(p, out),
        placeholder_free(p),
    ensures
        placeholder_free(out),
    decreases p, 0int,
{
    match p {
        PatternV::OrderedChoice(alts) => {
            if !has_capture(p) {
                if all_literals(alts) {
                    lemma_trie_free(out);
                } else {
                    lemma_followed_free(p);
                }
            } else {
                match out {
                    PatternV::OrderedChoice(outs) => {
                        lemma_items_free_all(alts);
                        lemma_alts_free(alts, outs, alts.len() as int);
                        lemma_items_free_all(outs);
                    },
                    _ => {},
                }
            }
        },
        PatternV::Sequence(items) => {
            if items.len() > 0 {
                match out {
                    PatternV::Sequence(outs) => {
                        lemma_items_free_all(items);
                        lemma_appended_free(items.last(), outs.last());
                        assert forall|m: int| 0 <= m < outs.len() implies #[trigger] placeholder_free(outs[m]) by {
                            if m < outs.len() - 1 {
                                assert(outs[m] == outs.drop_last()[m]);
                                assert(items.drop_last()[m] == items[m]);
                            }
                        }
                        lemma_items_free_all(outs);
                    },
                    _ => {},
                }
            }
        },
        PatternV::Capture(_, inner) => match out {
            PatternV::Capture(_, o) => lemma_appended_free(*inner, *o),
            _ => {},
        },
        _ => lemma_followed_free(p),
    }
}

proof fn lemma_alts_free(alts: Seq<PatternV>, outs: Seq<PatternV>, k: int)
    requires
        0 <= k <= alts.len(),
        alts.len() == outs.len(),
        alts_appended(alts, outs, k),
        forall|m: int| 0 <= m < alts.len() ==> #[trigger] placeholder_free(alts[m]),
    ensures
        forall|m: int| 0 <= m < k ==> #[trigger] placeholder_free(outs[m]),
    decreases alts, k,
{
    if k > 0 {
        lemma_alts_free(alts, outs, k - 1);
        lemma_appended_free(alts[k - 1], outs[k - 1]);
    }
}

} // verus!
