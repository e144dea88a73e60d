//! The order in which a unit lists its declarations does not enter the
//! digests.

use crate::extract::unique_names;
use crate::graph::{is_path, reach, same_scc};
use crate::model::DeclModel;
use crate::refs::body_names;
use crate::unit::{
    component_names, declared, digest_at, graph_of, group_bytes, group_chunks, group_digest,
    in_order, lemma_place_of, linked, place_of, provisional, rewritten_body, table_for,
};
use vstd::prelude::*;

verus! {

/// `p` lists the numbers below its length, each once; `q` undoes it.
pub open spec fn is_permutation(p: Seq<int>, q: Seq<int>) -> bool {
    &&& p.len() == q.len()
    &&& forall|i: int| 0 <= i < p.len() ==> 0 <= #[trigger] p[i] < p.len() && q[p[i]] == i
    &&& forall|j: int| 0 <= j < q.len() ==> 0 <= #[trigger] q[j] < q.len() && p[q[j]] == j
}

/// The items in another order: at place `i` stands what stood at `p[i]`.
pub open spec fn permuted<T>(s: Seq<T>, p: Seq<int>) -> Seq<T> {
    Seq::new(s.len(), |i: int| s[p[i]])
}

/// The unit `ds` in the order `p`, with the digests `fin` in that order.
pub open spec fn reordering(ds: Seq<DeclModel>, p: Seq<int>, q: Seq<int>) -> bool {
    &&& unique_names(ds)
    &&& p.len() == ds.len()
    &&& is_permutation(p, q)
}

proof fn lemma_permuted_edges(ds: Seq<DeclModel>, p: Seq<int>, q: Seq<int>, i: int, j: int)
    requires
        reordering(ds, p, q),
        0 <= i < ds.len(),
        0 <= j < ds.len(),
    ensures
        graph_of(permuted(ds, p))[i].contains(j) == graph_of(ds)[p[i]].contains(p[j]),
{
}

proof fn lemma_path_there(ds: Seq<DeclModel>, p: Seq<int>, q: Seq<int>, path: Seq<int>)
    requires
        reordering(ds, p, q),
        is_path(graph_of(permuted(ds, p)), path),
    ensures
        is_path(graph_of(ds), Seq::new(path.len(), |x: int| p[path[x]])),
{
    let g = graph_of(ds);
    let g2 = graph_of(permuted(ds, p));
    let image = Seq::new(path.len(), |x: int| p[path[x]]);
    assert forall|x: int| 0 <= x < image.len() implies 0 <= #[trigger] image[x] < g.len() by {
        assert(0 <= path[x] < g2.len());
    }
    assert forall|x: int| 0 <= x < image.len() - 1 implies g[#[trigger] image[x]].contains(
        image[x + 1],
    ) by {
        assert(0 <= path[x] < g2.len());
        assert(0 <= path[x + 1] < g2.len());
        assert(g2[path[x]].contains(path[x + 1]));
        lemma_permuted_edges(ds, p, q, path[x], path[x + 1]);
    }
}

proof fn lemma_path_back(ds: Seq<DeclModel>, p: Seq<int>, q: Seq<int>, path: Seq<int>)
    requires
        reordering(ds, p, q),
        is_path(graph_of(ds), path),
    ensures
        is_path(graph_of(permuted(ds, p)), Seq::new(path.len(), |x: int| q[path[x]])),
{
    let g = graph_of(ds);
    let g2 = graph_of(permuted(ds, p));
    let image = Seq::new(path.len(), |x: int| q[path[x]]);
    assert forall|x: int| 0 <= x < image.len() implies 0 <= #[trigger] image[x] < g2.len() by {
        assert(0 <= path[x] < g.len());
    }
    assert forall|x: int| 0 <= x < image.len() - 1 implies g2[#[trigger] image[x]].contains(
        image[x + 1],
    ) by {
        assert(0 <= path[x] < g.len());
        assert(0 <= path[x + 1] < g.len());
        assert(g[path[x]].contains(path[x + 1]));
        lemma_permuted_edges(ds, p, q, q[path[x]], q[path[x + 1]]);
    }
}

/// What reaches what is the same in every order.
pub proof fn lemma_permuted_reach(ds: Seq<DeclModel>, p: Seq<int>, q: Seq<int>, i: int, j: int)
    requires
        reordering(ds, p, q),
        0 <= i < ds.len(),
        0 <= j < ds.len(),
    ensures
        reach(graph_of(permuted(ds, p)), i, j) == reach(graph_of(ds), p[i], p[j]),
        same_scc(graph_of(permuted(ds, p)), i, j) == same_scc(graph_of(ds), p[i], p[j]),
{
    lemma_permuted_reach_one(ds, p, q, i, j);
    lemma_permuted_reach_one(ds, p, q, j, i);
}

proof fn lemma_permuted_reach_one(ds: Seq<DeclModel>, p: Seq<int>, q: Seq<int>, i: int, j: int)
    requires
        reordering(ds, p, q),
        0 <= i < ds.len(),
        0 <= j < ds.len(),
    ensures
        reach(graph_of(permuted(ds, p)), i, j) == reach(graph_of(ds), p[i], p[j]),
{
    reveal(reach);
    let g = graph_of(ds);
    let g2 = graph_of(permuted(ds, p));
    if reach(g2, i, j) {
        let path = choose|path: Seq<int>| #[trigger] is_path(g2, path) && path[0] == i && path.last() == j;
        lemma_path_there(ds, p, q, path);
        let image = Seq::new(path.len(), |x: int| p[path[x]]);
        assert(is_path(g, image) && image[0] == p[i] && image.last() == p[j]);
    }
    if reach(g, p[i], p[j]) {
        let path = choose|path: Seq<int>| #[trigger]
            is_path(g, path) && path[0] == p[i] && path.last() == p[j];
        lemma_path_back(ds, p, q, path);
        let image = Seq::new(path.len(), |x: int| q[path[x]]);
        assert(is_path(g2, image) && image[0] == i && image.last() == j);
    }
}

/// In every order the same names are declared, and a name leads to the
/// place at which its declaration now stands.
pub proof fn lemma_permuted_places(ds: Seq<DeclModel>, p: Seq<int>, q: Seq<int>, n: Seq<char>)
    requires
        reordering(ds, p, q),
    ensures
        unique_names(permuted(ds, p)),
        declared(permuted(ds, p), n) == declared(ds, n),
        declared(ds, n) ==> 0 <= place_of(permuted(ds, p), n) < ds.len() && p[place_of(
            permuted(ds, p),
            n,
        )] == place_of(ds, n),
{
    let ds2 = permuted(ds, p);
    assert forall|a: int, b: int| 0 <= a < b < ds2.len() implies ds2[a].name != ds2[b].name by {
        if p[a] < p[b] {
            assert(ds[p[a]].name != ds[p[b]].name);
        } else {
            assert(q[p[a]] != q[p[b]]);
            assert(ds[p[b]].name != ds[p[a]].name);
        }
    }
    if declared(ds2, n) {
        let j = choose|j: int| 0 <= j < ds2.len() && #[trigger] ds2[j].name == n;
        assert(ds[p[j]].name == n);
    }
    if declared(ds, n) {
        let j = place_of(ds, n);
        assert(0 <= j < ds.len() && ds[j].name == n);
        assert(ds2[q[j]].name == n);
        lemma_place_of(ds2, q[j]);
        lemma_place_of(ds, j);
    }
}

pub proof fn lemma_permuted_table(
    ds: Seq<DeclModel>,
    fin: Seq<Seq<char>>,
    p: Seq<int>,
    q: Seq<int>,
    i: int,
    intra: Option<Seq<char>>,
)
    requires
        reordering(ds, p, q),
        fin.len() == ds.len(),
        0 <= i < ds.len(),
    ensures
        table_for(permuted(ds, p), permuted(fin, p), i, intra) == table_for(ds, fin, p[i], intra),
{
    reveal(table_for);
    let ds2 = permuted(ds, p);
    let fin2 = permuted(fin, p);
    let t1 = table_for(ds, fin, p[i], intra);
    let t2 = table_for(ds2, fin2, i, intra);
    assert forall|n: Seq<char>| t1.dom().contains(n) == t2.dom().contains(n) by {
        lemma_permuted_places(ds, p, q, n);
        if declared(ds, n) {
            lemma_permuted_reach(ds, p, q, i, place_of(ds2, n));
        }
    }
    assert(t1.dom() =~= t2.dom());
    assert forall|n: Seq<char>| t1.dom().contains(n) implies t1[n] == t2[n] by {
        lemma_permuted_places(ds, p, q, n);
        lemma_permuted_reach(ds, p, q, i, place_of(ds2, n));
    }
    assert(t1 =~= t2);
}

pub proof fn lemma_permuted_group(
    ds: Seq<DeclModel>,
    fin: Seq<Seq<char>>,
    p: Seq<int>,
    q: Seq<int>,
    i: int,
)
    requires
        reordering(ds, p, q),
        fin.len() == ds.len(),
        0 <= i < ds.len(),
    ensures
        group_digest(permuted(ds, p), permuted(fin, p), i) == group_digest(ds, fin, p[i]),
{
    reveal(group_bytes);
    reveal(component_names);
    let ds2 = permuted(ds, p);
    let fin2 = permuted(fin, p);
    assert forall|n: Seq<char>| component_names(ds2, i).contains(n) == component_names(
        ds,
        p[i],
    ).contains(n) by {
        if component_names(ds2, i).contains(n) {
            let j = choose|j: int|
                0 <= j < ds2.len() && #[trigger] ds2[j].name == n && same_scc(graph_of(ds2), i, j);
            lemma_permuted_reach(ds, p, q, i, j);
            assert(ds[p[j]].name == n);
        }
        if component_names(ds, p[i]).contains(n) {
            let j = choose|j: int|
                0 <= j < ds.len() && #[trigger] ds[j].name == n && same_scc(graph_of(ds), p[i], j);
            lemma_permuted_reach(ds, p, q, i, q[j]);
            assert(ds2[q[j]].name == n);
        }
    }
    assert(component_names(ds2, i) =~= component_names(ds, p[i]));
    let names = in_order(component_names(ds, p[i]));
    let c1 = group_chunks(ds, fin, p[i], names);
    let c2 = group_chunks(ds2, fin2, i, names);
    assert forall|x: int| 0 <= x < names.len() implies c1[x] == c2[x] by {
        let n = names[x];
        if component_names(ds, p[i]).contains(n) {
            lemma_permuted_places(ds, p, q, n);
            let j2 = place_of(ds2, n);
            lemma_permuted_table(ds, fin, p, q, j2, None);
        }
    }
    assert(c1 =~= c2);
}

/// Order invariance. Let a unit list its declarations in another order.
/// Then every declaration has the final digest and the rewritten body that
/// it had: the digests of the unit in the new order are the final digests of
/// the reordered unit.
pub proof fn law_order_invariance(
    ds: Seq<DeclModel>,
    fin: Seq<Seq<char>>,
    p: Seq<int>,
    q: Seq<int>,
)
    requires
        reordering(ds, p, q),
        linked(ds, fin),
    ensures
        linked(permuted(ds, p), permuted(fin, p)),
        forall|i: int|
            0 <= i < ds.len() ==> #[trigger] rewritten_body(permuted(ds, p), permuted(fin, p), i)
                == rewritten_body(ds, fin, p[i]),
{
    let ds2 = permuted(ds, p);
    let fin2 = permuted(fin, p);
    assert forall|i: int| 0 <= i < ds.len() implies #[trigger] rewritten_body(ds2, fin2, i)
        == rewritten_body(ds, fin, p[i]) by {
        lemma_permuted_group(ds, fin, p, q, i);
        lemma_permuted_table(ds, fin, p, q, i, Some(group_digest(ds, fin, p[i])));
    }
    assert forall|i: int| 0 <= i < ds2.len() implies fin2[i] == #[trigger] digest_at(ds2, fin2, i) by {
        assert(rewritten_body(ds2, fin2, i) == rewritten_body(ds, fin, p[i]));
        assert(fin[p[i]] == digest_at(ds, fin, p[i]));
    }
}

} // verus!
