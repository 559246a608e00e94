//! Reachability over the rule graphs the analyses build (first-call graph,
//! call graph), as adjacency matrices indexed by rule position.
use vstd::prelude::*;

verus! {

/// A square boolean adjacency matrix.
pub open spec fn square(adj: Seq<Seq<bool>>) -> bool {
    forall|i: int| 0 <= i < adj.len() ==> (#[trigger] adj[i]).len() == adj.len()
}

/// `p` is a walk of the graph: non-empty, in range, each step an edge.
pub open spec fn is_walk(adj: Seq<Seq<bool>>, p: Seq<int>) -> bool {
    &&& p.len() >= 1
    &&& forall|k: int| 0 <= k < p.len() ==> 0 <= #[trigger] p[k] < adj.len()
    &&& forall|k: int| 0 <= k < p.len() - 1 ==> adj[p[k]][#[trigger] p[k + 1]]
}

/// `j` can be reached (in zero or more steps) from a node marked in `starts`.
pub open spec fn reachable(adj: Seq<Seq<bool>>, starts: Seq<bool>, j: int) -> bool {
    exists|p: Seq<int>| is_walk(adj, p) && starts[p[0]] && p.last() == j
}

/// Number of `false` entries.
pub open spec fn count_false(s: Seq<bool>) -> nat
    decreases s.len(),
{
    if s.len() == 0 {
        0
    } else {
        count_false(s.drop_last()) + if s.last() {
            0nat
        } else {
            1nat
        }
    }
}

pub proof fn lemma_count_false_set(s: Seq<bool>, i: int)
    requires
        0 <= i < s.len(),
        !s[i],
    ensures
        count_false(s.update(i, true)) + 1 == count_false(s),
    decreases s.len(),
{
    if i < s.len() - 1 {
        assert(s.update(i, true).drop_last() == s.drop_last().update(i, true));
        lemma_count_false_set(s.drop_last(), i);
    } else {
        assert(s.update(i, true).drop_last() == s.drop_last());
    }
}

proof fn lemma_walk_push(adj: Seq<Seq<bool>>, p: Seq<int>, w: int)
    requires
        is_walk(adj, p),
        0 <= w < adj.len(),
        adj[p.last()][w],
    ensures
        is_walk(adj, p.push(w)),
        p.push(w)[0] == p[0],
        p.push(w).last() == w,
{
    let q = p.push(w);
    assert forall|k: int| 0 <= k < q.len() - 1 implies adj[q[k]][#[trigger] q[k + 1]] by {
        if k < p.len() - 1 {
            assert(q[k] == p[k] && q[k + 1] == p[k + 1]);
        }
    }
}

/// Closure argument: a set that holds the starts and is closed under the
/// edges holds the end of every walk from a start.
proof fn lemma_closed_contains_walk(adj: Seq<Seq<bool>>, starts: Seq<bool>, vis: Seq<bool>, p: Seq<int>)
    requires
        vis.len() == adj.len(),
        starts.len() == adj.len(),
        is_walk(adj, p),
        starts[p[0]],
        forall|v: int| 0 <= v < adj.len() && starts[v] ==> #[trigger] vis[v],
        forall|v: int, w: int|
            0 <= v < adj.len() && 0 <= w < adj.len() && #[trigger] vis[v] && #[trigger] adj[v][w]
                ==> vis[w],
    ensures
        vis[p.last()],
    decreases p.len(),
{
    if p.len() > 1 {
        let q = p.drop_last();
        assert(is_walk(adj, q)) by {
            assert forall|k: int| 0 <= k < q.len() - 1 implies adj[q[k]][#[trigger] q[k + 1]] by {
                assert(q[k] == p[k] && q[k + 1] == p[k + 1]);
            }
        }
        lemma_closed_contains_walk(adj, starts, vis, q);
        let k = p.len() - 2;
        assert(adj[p[k]][p[k + 1]]);
        assert(q.last() == p[k]);
    }
}

/// The nodes reachable from the marked starts.
pub fn reachable_from(adj: &Vec<Vec<bool>>, starts: &Vec<bool>) -> (r: Vec<bool>)
    requires
        square(adj@.map_values(|row: Vec<bool>| row@)),
        starts@.len() == adj@.len(),
    ensures
        r@.len() == adj@.len(),
        forall|j: int|
            0 <= j < adj@.len() ==> (r@[j] <==> reachable(adj@.map_values(|row: Vec<bool>| row@), starts@, j)),
{
    let ghost g = adj@.map_values(|row: Vec<bool>| row@);
    let n = adj.len();
    let mut visited: Vec<bool> = Vec::new();
    let mut work: Vec<usize> = Vec::new();
    let mut s: usize = 0;
    while s < n
        invariant
            g == adj@.map_values(|row: Vec<bool>| row@),
            n == adj@.len(),
            starts@.len() == n,
            s <= n,
            visited@.len() == s,
            forall|v: int| 0 <= v < s ==> (visited@[v] <==> starts@[v]),
            forall|k: int| 0 <= k < work@.len() ==> (#[trigger] work@[k]) < s && visited@[work@[k] as int],
            forall|v: int| 0 <= v < s && visited@[v] ==> exists|k: int| 0 <= k < work@.len() && work@[k] == v,
        decreases n - s,
    {
        let ghost work0 = work@;
        visited.push(starts[s]);
        if starts[s] {
            work.push(s);
            assert(work@[work@.len() - 1] == s);
        }
        proof {
            assert forall|v: int| 0 <= v < s + 1 && visited@[v] implies exists|k: int|
                0 <= k < work@.len() && work@[k] == v by {
                if v < s {
                    let k = choose|k: int| 0 <= k < work0.len() && work0[k] == v;
                    assert(work@[k] == v);
                } else {
                    assert(work@[work@.len() - 1] == v);
                }
            }
        }
        s += 1;
    }
    proof {
        assert forall|v: int| 0 <= v < n && #[trigger] visited@[v] implies reachable(g, starts@, v) by {
            let p = seq![v];
            assert(is_walk(g, p));
            assert(starts@[v]);
            assert(p[0] == v && p.last() == v);
        }
    }
    while work.len() > 0
        invariant
            g == adj@.map_values(|row: Vec<bool>| row@),
            square(g),
            n == adj@.len(),
            starts@.len() == n,
            visited@.len() == n,
            forall|v: int| 0 <= v < n && starts@[v] ==> #[trigger] visited@[v],
            forall|v: int| 0 <= v < n && #[trigger] visited@[v] ==> reachable(g, starts@, v),
            forall|k: int| 0 <= k < work@.len() ==> (#[trigger] work@[k]) < n && visited@[work@[k] as int],
            forall|v: int|
                0 <= v < n && #[trigger] visited@[v] ==> (exists|k: int| 0 <= k < work@.len() && work@[k] == v)
                    || (forall|w: int| 0 <= w < n && #[trigger] g[v][w] ==> visited@[w]),
        decreases count_false(visited@), work@.len(),
    {
        let ghost work_before = work@;
        let v = work.pop().unwrap();
        assert(work_before == work@.push(v));
        let ghost work_rest = work@;
        let ghost vis0 = visited@;
        let mut w: usize = 0;
        while w < n
            invariant
                g == adj@.map_values(|row: Vec<bool>| row@),
                square(g),
                n == adj@.len(),
                v < n,
                visited@[v as int],
                starts@.len() == n,
                visited@.len() == n,
                w <= n,
                count_false(visited@) <= count_false(vis0),
                count_false(visited@) == count_false(vis0) ==> work@ == work_rest,
                work@.len() >= work_rest.len(),
                forall|k: int| 0 <= k < work_rest.len() ==> work@[k] == #[trigger] work_rest[k],
                forall|v2: int| 0 <= v2 < n && vis0[v2] ==> #[trigger] visited@[v2],
                forall|v2: int| 0 <= v2 < n && starts@[v2] ==> #[trigger] visited@[v2],
                forall|v2: int| 0 <= v2 < n && #[trigger] visited@[v2] ==> reachable(g, starts@, v2),
                forall|k: int| 0 <= k < work@.len() ==> (#[trigger] work@[k]) < n && visited@[work@[k] as int],
                forall|v2: int|
                    0 <= v2 < n && #[trigger] visited@[v2] && !vis0[v2] ==> exists|k: int|
                        0 <= k < work@.len() && work@[k] == v2,
                forall|w2: int| 0 <= w2 < w && #[trigger] g[v as int][w2] ==> visited@[w2],
            decreases n - w,
        {
            assert(g[v as int] == adj@[v as int]@);
            let ghost work1 = work@;
            let ghost vis1 = visited@;
            if adj[v][w] && !visited[w] {
                proof {
                    assert(reachable(g, starts@, v as int));
                    let p = choose|p: Seq<int>| is_walk(g, p) && starts@[p[0]] && p.last() == v;
                    lemma_walk_push(g, p, w as int);
                    lemma_count_false_set(visited@, w as int);
                }
                visited.set(w, true);
                work.push(w);
                assert(work@[work@.len() - 1] == w);
            }
            proof {
                assert forall|v2: int|
                    0 <= v2 < n && #[trigger] visited@[v2] && !vis0[v2] implies exists|k: int|
                    0 <= k < work@.len() && work@[k] == v2 by {
                    if vis1[v2] {
                        let k = choose|k: int| 0 <= k < work1.len() && work1[k] == v2;
                        assert(work@[k] == v2);
                    } else {
                        assert(work@[work@.len() - 1] == v2);
                    }
                }
            }
            w += 1;
        }
        proof {
            assert forall|u: int|
                0 <= u < n && #[trigger] visited@[u] implies (exists|k: int|
                0 <= k < work@.len() && work@[k] == u) || (forall|x: int|
                0 <= x < n && #[trigger] g[u][x] ==> visited@[x]) by {
                if u != v && vis0[u] {
                    if exists|k: int| 0 <= k < work_before.len() && work_before[k] == u {
                        let k = choose|k: int| 0 <= k < work_before.len() && work_before[k] == u;
                        assert(k < work_rest.len());
                        assert(work@[k] == u);
                    } else {
                        assert forall|x: int| 0 <= x < n && #[trigger] g[u][x] implies visited@[x] by {
                            assert(vis0[x]);
                        }
                    }
                }
            }
        }
    }
    proof {
        assert forall|j: int| 0 <= j < n implies (visited@[j] <==> reachable(g, starts@, j)) by {
            if reachable(g, starts@, j) {
                let p = choose|p: Seq<int>| is_walk(g, p) && starts@[p[0]] && p.last() == j;
                lemma_closed_contains_walk(g, starts@, visited@, p);
            }
        }
    }
    visited
}

} // verus!
