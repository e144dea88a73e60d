//! Renaming a declaration, with every reference to it, leaves the digests of
//! the unit as they are.

use crate::canon::canon_body;
use crate::extract::unique_names;
use crate::graph::{
    is_path, lemma_reach_edge, lemma_reach_in_range, lemma_reach_trans, on_cycle, reach, same_scc,
};
use crate::model::{BodyModel, DeclModel, TargetModel};
use crate::refs::{body_names, body_targets};
use crate::rewrite::{map_body, resolve, resolver, subst_body};
use crate::targets::{
    agree_on, image, lemma_map_body_targets, lemma_map_same_body, lemma_map_twice_body, then_map,
};
use crate::unit::{
    component_names, declared, digest_at, graph_of, group_bytes, group_chunks, group_digest,
    in_order, lemma_acyclic_table, lemma_place_of, linked, member_chunk, place_of, provisional,
    provisional_body, rewritten_body, table_for,
};
use vstd::prelude::*;

verus! {

/// A reference after the name `old` has become `new`.
pub open spec fn rename_target(old: Seq<char>, new: Seq<char>, t: TargetModel) -> TargetModel {
    match t {
        TargetModel::Name(n) => if n == old {
            TargetModel::Name(new)
        } else {
            TargetModel::Name(n)
        },
        TargetModel::Digest(d) => TargetModel::Digest(d),
    }
}

pub open spec fn renamer(old: Seq<char>, new: Seq<char>) -> spec_fn(TargetModel) -> TargetModel {
    |t: TargetModel| rename_target(old, new, t)
}

/// A declaration after the name `old` has become `new`, in its own name and
/// in its body.
pub open spec fn rename_decl(d: DeclModel, old: Seq<char>, new: Seq<char>) -> DeclModel {
    DeclModel {
        name: if d.name == old {
            new
        } else {
            d.name
        },
        body: map_body(d.body, renamer(old, new)),
        span: d.span,
    }
}

/// A unit after the name `old` has become `new` everywhere.
pub open spec fn rename_unit(ds: Seq<DeclModel>, old: Seq<char>, new: Seq<char>) -> Seq<DeclModel> {
    Seq::new(ds.len(), |i: int| rename_decl(ds[i], old, new))
}

/// The unit does not know the name: no declaration has it and no body
/// mentions it.
pub open spec fn is_fresh(ds: Seq<DeclModel>, new: Seq<char>) -> bool {
    &&& !declared(ds, new)
    &&& forall|i: int| 0 <= i < ds.len() ==> !(#[trigger] body_names(ds[i].body)).contains(new)
}

/// The `k`-th declaration of the unit can take the name `new`: the unit has
/// no name twice, does not know `new`, and the declaration lies on no cycle.
pub open spec fn can_rename(ds: Seq<DeclModel>, k: int, new: Seq<char>) -> bool {
    &&& unique_names(ds)
    &&& 0 <= k < ds.len()
    &&& is_fresh(ds, new)
    &&& !on_cycle(graph_of(ds), k)
}

/// Where one node reaches another, its first step leads to a node that
/// reaches the other.
pub proof fn lemma_first_step(g: Seq<Set<int>>, a: int, b: int)
    requires
        reach(g, a, b),
        a != b,
    ensures
        exists|s: int| #[trigger] g[a].contains(s) && reach(g, s, b),
{
    reveal(reach);
    let p = choose|p: Seq<int>| #[trigger] is_path(g, p) && p[0] == a && p.last() == b;
    let q = p.drop_first();
    assert(p.len() >= 2);
    assert(g[p[0int]].contains(p[0int + 1]));
    assert forall|x: int| 0 <= x < q.len() - 1 implies g[#[trigger] q[x]].contains(q[x + 1]) by {
        assert(g[p[x + 1]].contains(p[x + 1 + 1]));
    }
    assert forall|x: int| 0 <= x < q.len() implies 0 <= #[trigger] q[x] < g.len() by {
        assert(0 <= p[x + 1] < g.len());
    }
    assert(is_path(g, q));
    assert(q[0] == p[1]);
    assert(q.last() == b);
    assert(g[a].contains(p[1]) && reach(g, p[1], b));
}

/// A declaration that lies on no cycle shares its component with no
/// declaration that mentions it or that it mentions.
pub proof fn lemma_off_cycle(ds: Seq<DeclModel>, k: int, i: int)
    requires
        0 <= k < ds.len(),
        0 <= i < ds.len(),
        !on_cycle(graph_of(ds), k),
        same_scc(graph_of(ds), i, k),
    ensures
        i == k,
        !graph_of(ds)[k].contains(k),
{
    let g = graph_of(ds);
    if i != k {
        lemma_first_step(g, k, i);
        let s = choose|s: int| #[trigger] g[k].contains(s) && reach(g, s, i);
        lemma_reach_trans(g, s, i, k);
        assert(g[k].contains(s) && reach(g, s, k));
    }
    if g[k].contains(k) {
        assert(reach(g, k, k));
    }
}

/// After the renaming, the names are as before but for the one renamed.
pub proof fn lemma_renamed_names(ds: Seq<DeclModel>, k: int, new: Seq<char>)
    requires
        can_rename(ds, k, new),
    ensures
        unique_names(rename_unit(ds, ds[k].name, new)),
        forall|j: int|
            0 <= j < ds.len() ==> (#[trigger] rename_unit(ds, ds[k].name, new)[j]).name == if j == k {
                new
            } else {
                ds[j].name
            },
        forall|j: int| 0 <= j < ds.len() && j != k ==> #[trigger] ds[j].name != new && ds[j].name
            != ds[k].name,
        ds[k].name != new,
{
    let old = ds[k].name;
    let ds2 = rename_unit(ds, old, new);
    assert forall|j: int| 0 <= j < ds.len() && j != k implies #[trigger] ds[j].name != new
        && ds[j].name != old by {
        if j < k {
            assert(ds[j].name != ds[k].name);
        } else {
            assert(ds[k].name != ds[j].name);
        }
    }
}

/// After the renaming, a body mentions `new` where it mentioned `old`, and
/// the other names as before.
pub proof fn lemma_renamed_mentions(ds: Seq<DeclModel>, k: int, new: Seq<char>, i: int, n: Seq<char>)
    requires
        can_rename(ds, k, new),
        0 <= i < ds.len(),
    ensures
        body_names(rename_unit(ds, ds[k].name, new)[i].body).contains(n) == (if n == new {
            body_names(ds[i].body).contains(ds[k].name)
        } else if n == ds[k].name {
            false
        } else {
            body_names(ds[i].body).contains(n)
        }),
{
    let old = ds[k].name;
    let f = renamer(old, new);
    let b = ds[i].body;
    lemma_renamed_names(ds, k, new);
    lemma_map_body_targets(b, f);
    let after = body_targets(map_body(b, f));
    assert(!body_names(b).contains(new));
    if after.contains(TargetModel::Name(n)) {
        let s = choose|s: TargetModel| body_targets(b).contains(s) && TargetModel::Name(n)
            == #[trigger] f(s);
        assert(f(s) == rename_target(old, new, s));
        match s {
            TargetModel::Name(m) => {
                assert(body_names(b).contains(m));
            },
            TargetModel::Digest(_) => {},
        }
    }
    if n == new {
        if body_names(b).contains(old) {
            assert(f(TargetModel::Name(old)) == TargetModel::Name(new));
            assert(image(body_targets(b), f).contains(TargetModel::Name(new)));
        }
    } else if n != old {
        if body_names(b).contains(n) {
            assert(f(TargetModel::Name(n)) == TargetModel::Name(n));
            assert(image(body_targets(b), f).contains(TargetModel::Name(n)));
        }
    }
}

/// The renaming leaves the dependency graph as it is.
pub proof fn lemma_renamed_graph(ds: Seq<DeclModel>, k: int, new: Seq<char>)
    requires
        can_rename(ds, k, new),
    ensures
        graph_of(rename_unit(ds, ds[k].name, new)) == graph_of(ds),
{
    let old = ds[k].name;
    let ds2 = rename_unit(ds, old, new);
    lemma_renamed_names(ds, k, new);
    assert forall|i: int| 0 <= i < ds.len() implies graph_of(ds2)[i] =~= graph_of(ds)[i] by {
        assert forall|j: int| graph_of(ds2)[i].contains(j) == graph_of(ds)[i].contains(j) by {
            if 0 <= j < ds.len() {
                lemma_renamed_mentions(ds, k, new, i, ds2[j].name);
            }
        }
    }
    assert(graph_of(ds2) =~= graph_of(ds));
}

/// After the renaming, the names lead to the places they led to.
pub proof fn lemma_renamed_places(ds: Seq<DeclModel>, k: int, new: Seq<char>, n: Seq<char>)
    requires
        can_rename(ds, k, new),
    ensures
        declared(rename_unit(ds, ds[k].name, new), n) == (n == new || (declared(ds, n) && n
            != ds[k].name)),
        n == new ==> place_of(rename_unit(ds, ds[k].name, new), n) == k,
        n != new && n != ds[k].name && declared(ds, n) ==> place_of(
            rename_unit(ds, ds[k].name, new),
            n,
        ) == place_of(ds, n),
        declared(ds, ds[k].name),
        place_of(ds, ds[k].name) == k,
{
    let old = ds[k].name;
    let ds2 = rename_unit(ds, old, new);
    lemma_renamed_names(ds, k, new);
    lemma_place_of(ds, k);
    lemma_place_of(ds2, k);
    if declared(ds2, n) {
        let j = choose|j: int| 0 <= j < ds2.len() && #[trigger] ds2[j].name == n;
        if j != k {
            assert(ds[j].name == n);
        }
    }
    if declared(ds, n) && n != old {
        let j = place_of(ds, n);
        assert(0 <= j < ds.len() && ds[j].name == n);
        assert(ds2[j].name == n);
        lemma_place_of(ds2, j);
    }
}

/// The renamed body, resolved against the table of the renamed unit, is
/// the body resolved against the table of the unit.
pub proof fn lemma_renamed_subst(
    ds: Seq<DeclModel>,
    fin: Seq<Seq<char>>,
    k: int,
    new: Seq<char>,
    i: int,
    intra: Option<Seq<char>>,
)
    requires
        can_rename(ds, k, new),
        0 <= i < ds.len(),
    ensures
        subst_body(
            rename_unit(ds, ds[k].name, new)[i].body,
            table_for(rename_unit(ds, ds[k].name, new), fin, i, intra),
        ) == subst_body(ds[i].body, table_for(ds, fin, i, intra)),
{
    reveal(table_for);
    let old = ds[k].name;
    let ds2 = rename_unit(ds, old, new);
    let b = ds[i].body;
    let t1 = table_for(ds, fin, i, intra);
    let t2 = table_for(ds2, fin, i, intra);
    let f = renamer(old, new);
    lemma_renamed_names(ds, k, new);
    lemma_renamed_graph(ds, k, new);
    lemma_map_twice_body(b, f, resolver(t2));
    assert forall|t: TargetModel| body_targets(b).contains(t) implies #[trigger] then_map(
        f,
        resolver(t2),
    )(t) == resolver(t1)(t) by {
        match t {
            TargetModel::Name(m) => {
                assert(body_names(b).contains(m));
                let m2 = if m == old {
                    new
                } else {
                    m
                };
                assert(f(t) == TargetModel::Name(m2));
                lemma_renamed_places(ds, k, new, m2);
                lemma_renamed_places(ds, k, new, m);
                lemma_renamed_mentions(ds, k, new, i, m2);
                if m == old {
                    assert(graph_of(ds)[i].contains(k));
                    if same_scc(graph_of(ds), i, k) {
                        lemma_off_cycle(ds, k, i);
                    }
                    assert(t1.contains_key(m));
                    assert(t2.contains_key(m2));
                } else {
                    assert(t1.contains_key(m) == t2.contains_key(m2));
                }
            },
            TargetModel::Digest(d) => {},
        }
    }
    lemma_map_same_body(b, then_map(f, resolver(t2)), resolver(t1));
}

/// The renaming leaves every provisional digest as it is.
pub proof fn lemma_renamed_provisional(
    ds: Seq<DeclModel>,
    fin: Seq<Seq<char>>,
    k: int,
    new: Seq<char>,
    i: int,
)
    requires
        can_rename(ds, k, new),
        0 <= i < ds.len(),
    ensures
        provisional(rename_unit(ds, ds[k].name, new), fin, i) == provisional(ds, fin, i),
{
    lemma_renamed_subst(ds, fin, k, new, i, None);
}

/// The renaming leaves the digest of every component as it is but that
/// of the renamed declaration's own, which is a component of one.
pub proof fn lemma_renamed_group(
    ds: Seq<DeclModel>,
    fin: Seq<Seq<char>>,
    k: int,
    new: Seq<char>,
    i: int,
)
    requires
        can_rename(ds, k, new),
        0 <= i < ds.len(),
        i != k,
    ensures
        group_digest(rename_unit(ds, ds[k].name, new), fin, i) == group_digest(ds, fin, i),
{
    reveal(group_bytes);
    reveal(component_names);
    let old = ds[k].name;
    let ds2 = rename_unit(ds, old, new);
    let g = graph_of(ds);
    lemma_renamed_names(ds, k, new);
    lemma_renamed_graph(ds, k, new);
    if same_scc(g, i, k) {
        lemma_off_cycle(ds, k, i);
    }
    assert forall|n: Seq<char>| component_names(ds2, i).contains(n) == component_names(
        ds,
        i,
    ).contains(n) by {
        if component_names(ds2, i).contains(n) {
            let j = choose|j: int|
                0 <= j < ds2.len() && #[trigger] ds2[j].name == n && same_scc(graph_of(ds2), i, j);
            assert(j != k);
            assert(ds[j].name == n);
        }
        if component_names(ds, i).contains(n) {
            let j = choose|j: int|
                0 <= j < ds.len() && #[trigger] ds[j].name == n && same_scc(g, i, j);
            assert(j != k);
            assert(ds2[j].name == n);
        }
    }
    assert(component_names(ds2, i) =~= component_names(ds, i));
    let names = in_order(component_names(ds, i));
    let c1 = group_chunks(ds, fin, i, names);
    let c2 = group_chunks(ds2, fin, i, names);
    assert forall|x: int| 0 <= x < names.len() implies c1[x] == c2[x] by {
        let n = names[x];
        if component_names(ds, i).contains(n) {
            let j = choose|j: int|
                0 <= j < ds.len() && #[trigger] ds[j].name == n && same_scc(g, i, j);
            assert(j != k);
            lemma_place_of(ds, j);
            lemma_renamed_places(ds, k, new, n);
            lemma_renamed_provisional(ds, fin, k, new, j);
        }
    }
    assert(c1 =~= c2);
}

/// Rename invariance. Let a declaration that lies on no cycle take a name
/// that the unit does not know, in its own name and wherever a body
/// mentions it. Then the final digests of the unit are the final digests of
/// the renamed unit, and every rewritten body stays what it was: the digest
/// of the renamed declaration does not change, and no other digest does.
pub proof fn law_rename_invariance(
    ds: Seq<DeclModel>,
    fin: Seq<Seq<char>>,
    k: int,
    new: Seq<char>,
)
    requires
        can_rename(ds, k, new),
        linked(ds, fin),
    ensures
        linked(rename_unit(ds, ds[k].name, new), fin),
        forall|i: int|
            0 <= i < ds.len() ==> #[trigger] rewritten_body(
                rename_unit(ds, ds[k].name, new),
                fin,
                i,
            ) == rewritten_body(ds, fin, i),
{
    let old = ds[k].name;
    let ds2 = rename_unit(ds, old, new);
    let g = graph_of(ds);
    lemma_renamed_graph(ds, k, new);
    assert forall|i: int| 0 <= i < ds.len() implies #[trigger] rewritten_body(ds2, fin, i)
        == rewritten_body(ds, fin, i) by {
        if i != k {
            lemma_renamed_group(ds, fin, k, new, i);
            lemma_renamed_subst(ds, fin, k, new, i, Some(group_digest(ds, fin, i)));
        } else {
            assert forall|j: int| #[trigger] g[k].contains(j) implies !same_scc(g, k, j) by {
                if same_scc(g, k, j) {
                    lemma_reach_in_range(g, k, j);
                    assert(reach(g, j, k));
                    assert(on_cycle(g, k));
                }
            }
            lemma_acyclic_table(ds, fin, k, group_digest(ds, fin, k));
            lemma_acyclic_table(ds2, fin, k, group_digest(ds2, fin, k));
            lemma_renamed_subst(ds, fin, k, new, k, None);
        }
    }
    assert forall|i: int| 0 <= i < ds2.len() implies fin[i] == #[trigger] digest_at(ds2, fin, i) by {
        assert(rewritten_body(ds2, fin, i) == rewritten_body(ds, fin, i));
        assert(fin[i] == digest_at(ds, fin, i));
    }
}

} // verus!
