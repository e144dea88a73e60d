//! Directed graphs on the numbers below a bound, and what can be reached in
//! them.

use vstd::prelude::*;

verus! {

/// A walk along edges. A single node is a walk.
pub open spec fn is_path(g: Seq<Set<int>>, p: Seq<int>) -> bool {
    &&& p.len() >= 1
    &&& forall|k: int| 0 <= k < p.len() ==> 0 <= #[trigger] p[k] < g.len()
    &&& forall|k: int| 0 <= k < p.len() - 1 ==> g[#[trigger] p[k]].contains(p[k + 1])
}

/// `j` can be reached from `i` in zero or more steps.
#[verifier::opaque]
pub open spec fn reach(g: Seq<Set<int>>, i: int, j: int) -> bool {
    exists|p: Seq<int>| #[trigger] is_path(g, p) && p[0] == i && p.last() == j
}

/// `i` and `j` lie in one strongly connected component.
pub open spec fn same_scc(g: Seq<Set<int>>, i: int, j: int) -> bool {
    reach(g, i, j) && reach(g, j, i)
}

/// `i` lies on a cycle: it has a successor from which it can be reached.
pub open spec fn on_cycle(g: Seq<Set<int>>, i: int) -> bool {
    exists|k: int| 0 <= i < g.len() && #[trigger] g[i].contains(k) && reach(g, k, i)
}

pub proof fn lemma_reach_self(g: Seq<Set<int>>, i: int)
    requires
        0 <= i < g.len(),
    ensures
        reach(g, i, i),
{
    reveal(reach);
    assert(is_path(g, seq![i]));
}

pub proof fn lemma_reach_in_range(g: Seq<Set<int>>, i: int, j: int)
    requires
        reach(g, i, j),
    ensures
        0 <= i < g.len(),
        0 <= j < g.len(),
{
    reveal(reach);
    let p = choose|p: Seq<int>| #[trigger] is_path(g, p) && p[0] == i && p.last() == j;
    assert(0 <= p[0] < g.len());
    assert(0 <= p[p.len() - 1] < g.len());
}

pub proof fn lemma_reach_extend(g: Seq<Set<int>>, i: int, j: int, k: int)
    requires
        reach(g, i, j),
        g[j].contains(k),
        0 <= k < g.len(),
    ensures
        reach(g, i, k),
{
    reveal(reach);
    let p = choose|p: Seq<int>| #[trigger] is_path(g, p) && p[0] == i && p.last() == j;
    let q = p.push(k);
    assert forall|x: int| 0 <= x < q.len() - 1 implies g[#[trigger] q[x]].contains(q[x + 1]) by {
        if x < p.len() - 1 {
            assert(g[p[x]].contains(p[x + 1]));
        }
    }
    assert(is_path(g, q));
}

pub proof fn lemma_reach_trans(g: Seq<Set<int>>, i: int, j: int, k: int)
    requires
        reach(g, i, j),
        reach(g, j, k),
    ensures
        reach(g, i, k),
{
    reveal(reach);
    let p = choose|p: Seq<int>| #[trigger] is_path(g, p) && p[0] == i && p.last() == j;
    let q = choose|q: Seq<int>| #[trigger] is_path(g, q) && q[0] == j && q.last() == k;
    let r = p + q.drop_first();
    assert forall|x: int| 0 <= x < r.len() implies 0 <= #[trigger] r[x] < g.len() by {
        if x < p.len() {
            assert(r[x] == p[x]);
        } else {
            assert(r[x] == q[x - p.len() + 1]);
        }
    }
    assert forall|x: int| 0 <= x < r.len() - 1 implies g[#[trigger] r[x]].contains(r[x + 1]) by {
        if x < p.len() - 1 {
            assert(r[x] == p[x] && r[x + 1] == p[x + 1]);
        } else if x == p.len() - 1 {
            assert(r[x] == q[0]);
            assert(r[x + 1] == q[1]);
            assert(g[q[0int]].contains(q[0int + 1]));
        } else {
            let y = x - p.len() + 1;
            assert(r[x] == q[y] && r[x + 1] == q[y + 1]);
        }
    }
    assert(is_path(g, r));
    assert(r[0] == i);
    if q.len() == 1 {
        assert(r =~= p);
    } else {
        assert(r.last() == q.last());
    }
}

/// A step along an edge is a way to reach.
pub proof fn lemma_reach_edge(g: Seq<Set<int>>, i: int, j: int)
    requires
        0 <= i < g.len(),
        0 <= j < g.len(),
        g[i].contains(j),
    ensures
        reach(g, i, j),
{
    lemma_reach_self(g, i);
    lemma_reach_extend(g, i, i, j);
}

/// A set of nodes that holds `s` and every successor of its members holds
/// all that can be reached from `s`.
pub proof fn lemma_closed_holds_reach(g: Seq<Set<int>>, inside: Set<int>, s: int, t: int)
    requires
        inside.contains(s),
        forall|u: int, v: int|
            0 <= u < g.len() && inside.contains(u) && #[trigger] g[u].contains(v) ==> inside.contains(v),
        reach(g, s, t),
    ensures
        inside.contains(t),
{
    reveal(reach);
    let p = choose|p: Seq<int>| #[trigger] is_path(g, p) && p[0] == s && p.last() == t;
    lemma_path_inside(g, inside, p, p.len() - 1);
}

proof fn lemma_path_inside(g: Seq<Set<int>>, inside: Set<int>, p: Seq<int>, k: int)
    requires
        is_path(g, p),
        inside.contains(p[0]),
        forall|u: int, v: int|
            0 <= u < g.len() && inside.contains(u) && #[trigger] g[u].contains(v) ==> inside.contains(v),
        0 <= k < p.len(),
    ensures
        inside.contains(p[k]),
    decreases k,
{
    if k > 0 {
        lemma_path_inside(g, inside, p, k - 1);
        assert(g[p[k - 1]].contains(p[k - 1 + 1]));
    }
}

/// A list without repeats of numbers below `n` has at most `n` items.
pub proof fn lemma_distinct_bounded(s: Seq<usize>, n: nat)
    requires
        s.no_duplicates(),
        forall|k: int| 0 <= k < s.len() ==> s[k] < n,
    ensures
        s.len() <= n,
    decreases n,
{
    if s.len() > 0 {
        if n == 0 {
            assert(s[0] < n);
        } else {
            let top = (n - 1) as usize;
            if s.contains(top) {
                let p = s.index_of(top);
                let r = s.remove(p);
                assert forall|k: int| 0 <= k < r.len() implies r[k] < n - 1 by {
                    if k < p {
                        assert(r[k] == s[k]);
                    } else {
                        assert(r[k] == s[k + 1]);
                    }
                }
                assert(r.no_duplicates()) by {
                    assert forall|a: int, b: int| 0 <= a < r.len() && 0 <= b < r.len() && a != b implies r[a] != r[b] by {
                        let a2 = if a < p { a } else { a + 1 };
                        let b2 = if b < p { b } else { b + 1 };
                        assert(r[a] == s[a2] && r[b] == s[b2]);
                    }
                }
                lemma_distinct_bounded(r, (n - 1) as nat);
            } else {
                assert forall|k: int| 0 <= k < s.len() implies s[k] < n - 1 by {
                    if s[k] == top {
                        assert(s.contains(top));
                    }
                }
                lemma_distinct_bounded(s, (n - 1) as nat);
            }
        }
    }
}

/// Each list holds only numbers below the number of lists.
pub open spec fn is_adjacency(adj: Seq<Vec<usize>>) -> bool {
    forall|i: int, k: int|
        0 <= i < adj.len() && 0 <= k < adj[i].len() ==> #[trigger] adj[i][k] < adj.len()
}

/// The graph that adjacency lists stand for.
pub open spec fn graph_of_lists(adj: Seq<Vec<usize>>) -> Seq<Set<int>> {
    Seq::new(
        adj.len(),
        |i: int| Set::new(|j: int| exists|k: int| 0 <= k < adj[i].len() && #[trigger] adj[i][k] == j),
    )
}

/// The nodes that can be reached from `s`, as a row of flags.
pub(crate) fn reachable_from(adj: &Vec<Vec<usize>>, s: usize) -> (seen: Vec<bool>)
    requires
        is_adjacency(adj@),
        s < adj.len(),
    ensures
        seen.len() == adj.len(),
        forall|j: int| 0 <= j < adj.len() ==> seen[j] == reach(graph_of_lists(adj@), s as int, j),
{
    let n = adj.len();
    let ghost g = graph_of_lists(adj@);
    let mut seen: Vec<bool> = Vec::new();
    while seen.len() < n
        invariant
            seen.len() <= n,
            forall|j: int| 0 <= j < seen.len() ==> !seen[j],
        decreases n - seen.len(),
    {
        seen.push(false);
    }
    seen.set(s, true);
    let mut order: Vec<usize> = Vec::new();
    order.push(s);
    let mut head: usize = 0;
    proof {
        lemma_reach_self(g, s as int);
        assert(order@ =~= seq![s]);
        assert(order@[0] == s);
    }
    while head < order.len()
        invariant
            n == adj.len(),
            g == graph_of_lists(adj@),
            is_adjacency(adj@),
            seen.len() == n,
            head <= order.len() <= n,
            order.len() >= 1,
            order[0] == s,
            order@.no_duplicates(),
            forall|k: int| 0 <= k < order.len() ==> #[trigger] order[k] < n,
            forall|k: int| 0 <= k < order.len() ==> seen[#[trigger] order[k] as int],
            forall|k: int| 0 <= k < order.len() ==> reach(g, s as int, #[trigger] order[k] as int),
            forall|v: int| 0 <= v < n && seen[v] ==> order@.contains(v as usize),
            forall|k: int, e: int|
                0 <= k < head && 0 <= e < adj[order[k] as int].len() ==> seen[#[trigger] adj[order[k] as int][e] as int],
        decreases n - head,
    {
        let u = order[head];
        let mut e: usize = 0;
        while e < adj[u].len()
            invariant
                n == adj.len(),
                g == graph_of_lists(adj@),
                is_adjacency(adj@),
                seen.len() == n,
                head < order.len() <= n,
                order[0] == s,
                u == order[head as int],
                u < n,
                e <= adj[u as int].len(),
                order@.no_duplicates(),
                forall|k: int| 0 <= k < order.len() ==> #[trigger] order[k] < n,
                forall|k: int| 0 <= k < order.len() ==> seen[#[trigger] order[k] as int],
                forall|k: int|
                    0 <= k < order.len() ==> reach(g, s as int, #[trigger] order[k] as int),
                forall|v: int| 0 <= v < n && seen[v] ==> order@.contains(v as usize),
                forall|k: int, e: int|
                    0 <= k < head && 0 <= e < adj[order[k] as int].len() ==> seen[#[trigger] adj[order[k] as int][e] as int],
                forall|x: int| 0 <= x < e ==> seen[#[trigger] adj[u as int][x] as int],
            decreases adj[u as int].len() - e,
        {
            let v = adj[u][e];
            if !seen[v] {
                let ghost old_seen = seen@;
                let ghost old_order = order@;
                seen.set(v, true);
                order.push(v);
                proof {
                    assert(g[u as int].contains(v as int));
                    lemma_reach_extend(g, s as int, u as int, v as int);
                    assert(order@.no_duplicates()) by {
                        assert forall|a: int, b: int|
                            0 <= a < order.len() && 0 <= b < order.len() && a != b implies order[a]
                            != order[b] by {
                            if a < old_order.len() && b < old_order.len() {
                            } else if a < old_order.len() {
                                assert(old_seen[old_order[a] as int]);
                            } else {
                                assert(old_seen[old_order[b] as int]);
                            }
                        }
                    }
                    lemma_distinct_bounded(order@, n as nat);
                    assert forall|w: int| 0 <= w < n && seen[w] implies order@.contains(
                        w as usize,
                    ) by {
                        if w == v {
                            assert(order[old_order.len() as int] == v);
                        } else {
                            assert(old_seen[w]);
                            let k = old_order.index_of(w as usize);
                            assert(order[k] == w as usize);
                        }
                    }
                    assert forall|k: int| 0 <= k < order.len() implies seen[#[trigger] order[k] as int] by {
                        if k < old_order.len() {
                            assert(old_seen[old_order[k] as int]);
                        }
                    }
                    assert forall|k: int| 0 <= k < order.len() implies reach(
                        g,
                        s as int,
                        #[trigger] order[k] as int,
                    ) by {
                        if k < old_order.len() {
                            assert(order[k] == old_order[k]);
                        }
                    }
                    assert forall|k: int, e: int|
                        0 <= k < head && 0 <= e < adj[order[k] as int].len() implies seen[#[trigger] adj[order[k] as int][e] as int] by {
                        assert(order[k] == old_order[k]);
                        assert(old_seen[adj[old_order[k] as int][e] as int]);
                    }
                    assert forall|x: int| 0 <= x <= e implies seen[#[trigger] adj[u as int][x] as int] by {
                        if x < e {
                            assert(old_seen[adj[u as int][x] as int]);
                        }
                    }
                }
            }
            e += 1;
        }
        head += 1;
    }
    proof {
        let inside = Set::new(|v: int| 0 <= v < n && seen[v]);
        assert forall|j: int| 0 <= j < n implies seen[j] == reach(g, s as int, j) by {
            if seen[j] {
                let k = order@.index_of(j as usize);
                assert(order[k] == j as usize);
            }
            if reach(g, s as int, j) {
                assert(seen[order[0] as int]);
                assert(inside.contains(s as int));
                assert forall|u: int, v: int|
                    0 <= u < g.len() && inside.contains(u) && #[trigger] g[u].contains(
                        v,
                    ) implies inside.contains(v) by {
                    let k = order@.index_of(u as usize);
                    assert(order[k] == u as usize);
                    let x = choose|x: int| 0 <= x < adj[u].len() && #[trigger] adj[u][x] == v;
                    assert(seen[adj[order[k] as int][x] as int]);
                }
                lemma_closed_holds_reach(g, inside, s as int, j);
            }
        }
    }
    seen
}

/// `m` says of every pair of nodes whether the second can be reached from
/// the first.
pub open spec fn is_closure(m: Seq<Vec<bool>>, g: Seq<Set<int>>) -> bool {
    &&& m.len() == g.len()
    &&& forall|i: int| 0 <= i < m.len() ==> (#[trigger] m[i]).len() == g.len()
    &&& forall|i: int, j: int|
        0 <= i < g.len() && 0 <= j < g.len() ==> m[i][j] == #[trigger] reach(g, i, j)
}

/// What can be reached from each node.
pub(crate) fn closure(adj: &Vec<Vec<usize>>) -> (m: Vec<Vec<bool>>)
    requires
        is_adjacency(adj@),
    ensures
        is_closure(m@, graph_of_lists(adj@)),
{
    let mut m: Vec<Vec<bool>> = Vec::new();
    let mut s: usize = 0;
    while s < adj.len()
        invariant
            s <= adj.len(),
            is_adjacency(adj@),
            m.len() == s,
            forall|i: int| 0 <= i < s ==> (#[trigger] m[i]).len() == adj.len(),
            forall|i: int, j: int|
                0 <= i < s && 0 <= j < adj.len() ==> m[i][j] == #[trigger] reach(
                    graph_of_lists(adj@),
                    i,
                    j,
                ),
        decreases adj.len() - s,
    {
        let row = reachable_from(adj, s);
        m.push(row);
        s += 1;
    }
    m
}

} // verus!
