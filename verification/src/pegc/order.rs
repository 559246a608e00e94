//! The order of rule names: lexicographic by code point, which is the
//! order of their UTF-8 bytes.
use vstd::prelude::*;

use vstd::string::*;

use crate::pegvm::charset::char_value;

verus! {

/// `a` sorts strictly before `b`.
pub open spec fn chars_less(a: Seq<char>, b: Seq<char>) -> bool
    decreases a.len(),
{
    if a.len() == 0 {
        b.len() > 0
    } else if b.len() == 0 {
        false
    } else if (a[0] as int) < (b[0] as int) {
        true
    } else if (a[0] as int) > (b[0] as int) {
        false
    } else {
        chars_less(a.drop_first(), b.drop_first())
    }
}

/// The order is transitive.
pub proof fn lemma_chars_less_trans(a: Seq<char>, b: Seq<char>, c: Seq<char>)
    requires
        chars_less(a, b),
        chars_less(b, c),
    ensures
        chars_less(a, c),
    decreases a.len(),
{
    if a.len() > 0 && b.len() > 0 && c.len() > 0 && a[0] == b[0] && b[0] == c[0] {
        lemma_chars_less_trans(a.drop_first(), b.drop_first(), c.drop_first());
    }
}

/// The order is irreflexive.
pub proof fn lemma_chars_less_irrefl(a: Seq<char>)
    ensures
        !chars_less(a, a),
    decreases a.len(),
{
    if a.len() > 0 {
        lemma_chars_less_irrefl(a.drop_first());
    }
}

/// Of two different names one sorts before the other.
pub proof fn lemma_chars_less_total(a: Seq<char>, b: Seq<char>)
    requires
        a != b,
    ensures
        chars_less(a, b) || chars_less(b, a),
    decreases a.len(),
{
    if a.len() > 0 && b.len() > 0 && a[0] == b[0] {
        if a.drop_first() == b.drop_first() {
            assert(a =~= seq![a[0]] + a.drop_first());
            assert(b =~= seq![b[0]] + b.drop_first());
        }
        lemma_chars_less_total(a.drop_first(), b.drop_first());
    } else if a.len() == 0 && b.len() == 0 {
        assert(a =~= b);
    }
}

/// Whether `a` sorts strictly before `b`.
pub fn name_less(a: &String, b: &String) -> (r: bool)
    ensures
        r == chars_less(a@, b@),
{
    let sa = a.as_str();
    let sb = b.as_str();
    let la = sa.unicode_len();
    let lb = sb.unicode_len();
    let mut i: usize = 0;
    assert(a@.skip(0) =~= a@);
    assert(b@.skip(0) =~= b@);
    while i < la && i < lb
        invariant
            sa@ == a@,
            sb@ == b@,
            la == a@.len(),
            lb == b@.len(),
            i <= la,
            i <= lb,
            chars_less(a@, b@) == chars_less(a@.skip(i as int), b@.skip(i as int)),
        decreases la - i,
    {
        let ca = char_value(sa.get_char(i));
        let cb = char_value(sb.get_char(i));
        assert(a@.skip(i as int)[0] == a@[i as int]);
        assert(b@.skip(i as int)[0] == b@[i as int]);
        if ca < cb {
            return true;
        }
        if ca > cb {
            return false;
        }
        assert(a@.skip(i as int).drop_first() =~= a@.skip(i + 1));
        assert(b@.skip(i as int).drop_first() =~= b@.skip(i + 1));
        i += 1;
    }
    i == la && i < lb
}

} // verus!

verus! {

/// The names' order with `first` in front and the rest sorted.
pub open spec fn start_then_sorted(names: Seq<Seq<char>>, ord: Seq<int>, first: int) -> bool {
    &&& ord.len() == names.len()
    &&& ord.len() > 0 ==> ord[0] == first
    &&& forall|k: int| 0 <= k < ord.len() ==> 0 <= #[trigger] ord[k] < names.len()
    &&& forall|a: int, b: int| 0 <= a < b < ord.len() ==> ord[a] != ord[b]
    &&& forall|a: int, b: int|
        1 <= a < b < ord.len() ==> !chars_less(#[trigger] names[ord[b]], #[trigger] names[ord[a]])
}

/// Positions of `names` in compile order: `first`, then the others by name.
pub fn compile_order(names: &Vec<String>, first: usize) -> (ord: Vec<usize>)
    requires
        first < names@.len(),
    ensures
        start_then_sorted(names@.map_values(|s: String| s@), ord@.map_values(|k: usize| k as int), first as int),
{
    let ghost nv = names@.map_values(|s: String| s@);
    let n = names.len();
    let mut used: Vec<bool> = Vec::new();
    let mut i: usize = 0;
    while i < n
        invariant
            n == names@.len(),
            i <= n,
            used@.len() == i,
            forall|k: int| 0 <= k < i ==> used@[k] == (k == first),
        decreases n - i,
    {
        used.push(i == first);
        i += 1;
    }
    let mut ord: Vec<usize> = Vec::new();
    ord.push(first);
    proof {
        assert forall|u: int| 0 <= u < n && #[trigger] used@[u] implies exists|k: int|
            0 <= k < ord@.len() && ord@[k] == u by {
            assert(ord@[0] == u);
        }
    }
    while ord.len() < n
        invariant
            nv == names@.map_values(|s: String| s@),
            n == names@.len(),
            used@.len() == n,
            1 <= ord@.len() <= n,
            ord@[0] == first,
            forall|k: int| 0 <= k < ord@.len() ==> (#[trigger] ord@[k]) < n && used@[ord@[k] as int],
            forall|a: int, b: int| 0 <= a < b < ord@.len() ==> ord@[a] != ord@[b],
            forall|u: int| 0 <= u < n && #[trigger] used@[u] ==> exists|k: int| 0 <= k < ord@.len() && ord@[k] == u,
            forall|a: int, b: int|
                1 <= a < b < ord@.len() ==> !chars_less(
                    #[trigger] nv[ord@[b] as int],
                    #[trigger] nv[ord@[a] as int],
                ),
            forall|a: int, u: int|
                1 <= a < ord@.len() && 0 <= u < n && !used@[u] ==> !chars_less(
                    #[trigger] nv[u],
                    #[trigger] nv[ord@[a] as int],
                ),
        decreases n - ord@.len(),
    {
        // Some position is still unused: the used ones are the placed ones.
        let mut best: usize = n;
        let mut j: usize = 0;
        while j < n
            invariant
                nv == names@.map_values(|s: String| s@),
                n == names@.len(),
                used@.len() == n,
                j <= n,
                best == n || (best < j && !used@[best as int]),
                best == n ==> forall|s: int| 0 <= s < j ==> used@[s],
                best < n ==> forall|s: int| 0 <= s < j && !used@[s] ==> !chars_less(#[trigger] nv[s], nv[best as int]),
            decreases n - j,
        {
            if !used[j] {
                if best == n {
                    best = j;
                    proof {
                        lemma_chars_less_irrefl(nv[j as int]);
                    }
                } else if name_less(&names[j], &names[best]) {
                    proof {
                        assert forall|s: int| 0 <= s < j + 1 && !used@[s] implies !chars_less(
                            #[trigger] nv[s],
                            nv[j as int],
                        ) by {
                            if s < j && chars_less(nv[s], nv[j as int]) {
                                lemma_chars_less_trans(nv[s], nv[j as int], nv[best as int]);
                            }
                            if s == j {
                                lemma_chars_less_irrefl(nv[j as int]);
                            }
                        }
                    }
                    best = j;
                }
            }
            j += 1;
        }
        if best == n {
            // Every position is placed, so the order is already complete.
            proof {
                lemma_pigeon(ord@, n as int);
                let u = choose|u: int| 0 <= u < n && !placed(ord@, u);
                assert(used@[u]);
            }
            return ord;
        }
        let ghost ord0 = ord@;
        let ghost used0 = used@;
        used.set(best, true);
        ord.push(best);
        proof {
            assert forall|u: int| 0 <= u < n && #[trigger] used@[u] implies exists|k: int|
                0 <= k < ord@.len() && ord@[k] == u by {
                if u == best {
                    assert(ord@[ord@.len() - 1] == u);
                } else {
                    let k = choose|k: int| 0 <= k < ord0.len() && ord0[k] == u;
                    assert(ord@[k] == u);
                }
            }
            assert forall|a: int, b: int| 0 <= a < b < ord@.len() implies ord@[a] != ord@[b] by {
                if b == ord@.len() - 1 {
                    assert(used0[ord0[a] as int]);
                }
            }
        }
    }
    proof {
        let ov = ord@.map_values(|k: usize| k as int);
        assert(ov.len() == nv.len());
        assert(ov[0] == first as int);
        assert forall|k: int| 0 <= k < ov.len() implies 0 <= #[trigger] ov[k] < nv.len() by {
            assert(ov[k] == ord@[k] as int);
        }
        assert forall|a: int, b: int| 1 <= a < b < ov.len() implies !chars_less(
            #[trigger] nv[ov[b]],
            #[trigger] nv[ov[a]],
        ) by {
            assert(ov[a] == ord@[a] as int && ov[b] == ord@[b] as int);
        }
        assert forall|a: int, b: int| 0 <= a < b < ov.len() implies ov[a] != ov[b] by {
            assert(ov[a] == ord@[a] as int && ov[b] == ord@[b] as int);
        }
    }
    ord
}

/// Fewer than `n` distinct placements cannot cover all of `0..n`.
proof fn lemma_pigeon(ord: Seq<usize>, n: int)
    requires
        ord.len() < n,
        forall|k: int| 0 <= k < ord.len() ==> (#[trigger] ord[k]) < n,
        forall|a: int, b: int| 0 <= a < b < ord.len() ==> ord[a] != ord[b],
    ensures
        exists|u: int| 0 <= u < n && !#[trigger] placed(ord, u),
{
    if forall|u: int| 0 <= u < n ==> #[trigger] placed(ord, u) {
        lemma_pigeon_cover(ord, n);
    }
}

/// Whether `u` occurs in `ord`.
pub open spec fn placed(ord: Seq<usize>, u: int) -> bool {
    exists|k: int| 0 <= k < ord.len() && ord[k] == u
}

proof fn lemma_pigeon_cover(ord: Seq<usize>, n: int)
    requires
        ord.len() < n,
        forall|k: int| 0 <= k < ord.len() ==> (#[trigger] ord[k]) < n,
        forall|a: int, b: int| 0 <= a < b < ord.len() ==> ord[a] != ord[b],
        forall|u: int| 0 <= u < n ==> #[trigger] placed(ord, u),
    ensures
        ord.len() >= n,
{
    let ov = ord.map_values(|x: usize| x as int);
    assert(ov.no_duplicates()) by {
        assert forall|a: int, b: int| 0 <= a < ov.len() && 0 <= b < ov.len() && a != b implies ov[a] != ov[b] by {
            if a < b {
                assert(ord[a] != ord[b]);
            } else {
                assert(ord[b] != ord[a]);
            }
        }
    }
    ov.unique_seq_to_set();
    vstd::set_lib::lemma_int_range(0, n);
    let full = vstd::set_lib::set_int_range(0, n);
    assert forall|u: int| full.contains(u) implies ov.to_set().contains(u) by {
        assert(placed(ord, u));
        let k = choose|k: int| 0 <= k < ord.len() && ord[k] == u;
        assert(ov[k] == u);
    }
    vstd::set_lib::lemma_len_subset(full, ov.to_set());
}

} // verus!

verus! {

/// `ord` lists every position of `names` once, the names in order.
pub open spec fn sorted_positions(names: Seq<Seq<char>>, ord: Seq<int>) -> bool {
    &&& ord.len() == names.len()
    &&& forall|k: int| 0 <= k < ord.len() ==> 0 <= #[trigger] ord[k] < names.len()
    &&& forall|a: int, b: int| 0 <= a < b < ord.len() ==> ord[a] != ord[b]
    &&& forall|a: int, b: int| 0 <= a < b < ord.len() ==> !chars_less(#[trigger] names[ord[b]], #[trigger] names[ord[a]])
}

/// The positions of `names`, the names sorted.
pub fn name_order(names: &Vec<String>) -> (ord: Vec<usize>)
    ensures
        sorted_positions(names@.map_values(|s: String| s@), ord@.map_values(|k: usize| k as int)),
{
    let ghost nv = names@.map_values(|s: String| s@);
    if names.len() == 0 {
        let ord: Vec<usize> = Vec::new();
        assert(ord@.map_values(|k: usize| k as int) =~= Seq::<int>::empty());
        return ord;
    }
    let mut m: usize = 0;
    let mut i: usize = 1;
    proof {
        lemma_chars_less_irrefl(nv[0]);
    }
    while i < names.len()
        invariant
            nv == names@.map_values(|s: String| s@),
            0 < names@.len(),
            m < i <= names@.len(),
            forall|k: int| 0 <= k < i ==> !chars_less(#[trigger] nv[k], nv[m as int]),
        decreases names.len() - i,
    {
        if name_less(&names[i], &names[m]) {
            proof {
                assert forall|k: int| 0 <= k <= i implies !chars_less(#[trigger] nv[k], nv[i as int]) by {
                    if k < i && chars_less(nv[k], nv[i as int]) {
                        lemma_chars_less_trans(nv[k], nv[i as int], nv[m as int]);
                    }
                    if k == i {
                        lemma_chars_less_irrefl(nv[k]);
                    }
                }
            }
            m = i;
        }
        i += 1;
    }
    let ord = compile_order(names, m);
    proof {
        let ov = ord@.map_values(|k: usize| k as int);
        assert(start_then_sorted(nv, ov, m as int));
        assert forall|a: int, b: int| 0 <= a < b < ov.len() implies !chars_less(#[trigger] nv[ov[b]], #[trigger] nv[ov[a]]) by {
            if a == 0 {
                assert(ov[0] == m);
                assert(0 <= ov[b] < nv.len());
            }
        }
    }
    ord
}

} // verus!
