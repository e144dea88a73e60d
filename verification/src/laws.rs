//! What holds of the library as a whole.

use crate::canon::{
    bound_leq, canon_body, canon_bounds, lemma_bound_order_total, lemma_canon_body_twice,
};
use crate::digest::digest_of;
use crate::encode::enc_body;
use crate::extract::unique_names;
use crate::graph::{lemma_reach_self, lemma_reach_trans, reach, same_scc};
use crate::model::{BodyModel, BoundModel, DeclModel, TargetModel, TypeModel};
use crate::normal::law_canonical_input_is_immaterial;
use crate::permute::{law_order_invariance, lemma_permuted_places, permuted, reordering};
use crate::refs::{body_names, body_targets};
use crate::rename::{can_rename, law_rename_invariance, lemma_renamed_names, rename_unit};
use crate::rewrite::{resolve, resolver, subst_body};
use crate::store::{canon_unit, is_digest, Compiler};
use crate::targets::{image, lemma_canon_body_targets, lemma_map_body_targets};
use crate::unique::lemma_body_unique;
use crate::unit::{
    below, declared, digest_at, graph_of, group_digest, lemma_frame, lemma_group_shared,
    lemma_mention_is_edge, linked, place_of, rewritten_body, table_for,
};
use vstd::prelude::*;
use vstd::seq_lib::lemma_sorted_unique;
use vstd::set_lib::{lemma_int_range, lemma_len_subset, set_int_range};

verus! {

/// A body is in canonical form: canonicalization leaves it as it is.
pub open spec fn is_canonical(b: BodyModel) -> bool {
    canon_body(b) == b
}

/// What canonicalization gives is in canonical form.
pub proof fn law_canonical_once(b: BodyModel)
    ensures
        is_canonical(canon_body(b)),
{
    lemma_canon_body_twice(b);
}

/// The digest of a canonical form depends on its bytes alone, and the bytes
/// tell canonical forms apart: where two canonical forms have different
/// digests they differ, and where they differ they are hashed as different
/// byte strings.
pub proof fn law_digest_goes_by_shape(a: BodyModel, b: BodyModel)
    requires
        is_canonical(a),
        is_canonical(b),
    ensures
        a == b <==> enc_body(a) == enc_body(b),
        a == b ==> digest_of(a) == digest_of(b),
{
    if enc_body(a) == enc_body(b) {
        lemma_body_unique(a, b);
    }
}

/// The order in which a bound list is written does not matter: two lists
/// that hold the same bounds as often have one canonical order.
pub proof fn law_bound_order_is_dropped(a: Seq<BoundModel>, b: Seq<BoundModel>)
    requires
        a.to_multiset() == b.to_multiset(),
    ensures
        canon_bounds(a) == canon_bounds(b),
        canon_body(BodyModel::Trait(a)) == canon_body(BodyModel::Trait(b)),
        digest_of(canon_body(BodyModel::Trait(a))) == digest_of(canon_body(BodyModel::Trait(b))),
        canon_body(BodyModel::TypeAlias(TypeModel::ImplTrait(a))) == canon_body(
            BodyModel::TypeAlias(TypeModel::ImplTrait(b)),
        ),
        canon_body(BodyModel::TypeAlias(TypeModel::TraitObject(a))) == canon_body(
            BodyModel::TypeAlias(TypeModel::TraitObject(b)),
        ),
{
    lemma_bound_order_total();
    a.lemma_sort_by_ensures(bound_leq());
    b.lemma_sort_by_ensures(bound_leq());
    lemma_sorted_unique(canon_bounds(a), canon_bounds(b), bound_leq());
}

/// The declarations that can be reached from the `i`-th.
pub open spec fn reach_set(ds: Seq<DeclModel>, i: int) -> Set<int> {
    Set::new(|j: int| 0 <= j < ds.len() && reach(graph_of(ds), i, j))
}

proof fn lemma_reach_set_finite(ds: Seq<DeclModel>, i: int)
    ensures
        reach_set(ds, i).finite(),
        reach_set(ds, i).len() <= ds.len(),
{
    lemma_int_range(0, ds.len() as int);
    assert(reach_set(ds, i).subset_of(set_int_range(0, ds.len() as int)));
    lemma_len_subset(reach_set(ds, i), set_int_range(0, ds.len() as int));
}

/// What lies strictly below a declaration reaches fewer declarations.
proof fn lemma_below_reaches_fewer(ds: Seq<DeclModel>, i: int, j: int)
    requires
        0 <= i < ds.len(),
        0 <= j < ds.len(),
        below(ds, i, j),
    ensures
        reach_set(ds, j).len() < reach_set(ds, i).len(),
{
    let g = graph_of(ds);
    lemma_reach_set_finite(ds, i);
    lemma_reach_set_finite(ds, j);
    lemma_reach_self(g, i);
    let rest = reach_set(ds, i).remove(i);
    assert forall|k: int| reach_set(ds, j).contains(k) implies rest.contains(k) by {
        lemma_reach_trans(g, i, j, k);
    }
    assert(reach_set(ds, j).subset_of(rest));
    assert(reach_set(ds, i).contains(i));
    assert(reach_set(ds, i).len() == rest.len() + 1);
    lemma_len_subset(reach_set(ds, j), rest);
}

proof fn lemma_one_digest_at(ds: Seq<DeclModel>, f1: Seq<Seq<char>>, f2: Seq<Seq<char>>, i: int)
    requires
        unique_names(ds),
        linked(ds, f1),
        linked(ds, f2),
        0 <= i < ds.len(),
    ensures
        f1[i] == f2[i],
    decreases reach_set(ds, i).len(),
{
    assert forall|j: int| 0 <= j < ds.len() && below(ds, i, j) implies f1[j] == f2[j] by {
        lemma_below_reaches_fewer(ds, i, j);
        lemma_one_digest_at(ds, f1, f2, j);
    }
    lemma_frame(ds, f1, f2, i);
    assert(f1[i] == digest_at(ds, f1, i));
    assert(f2[i] == digest_at(ds, f2, i));
}

/// A unit has one linking only: the condition `linked` says what every
/// final digest is.
pub proof fn law_one_linking(ds: Seq<DeclModel>, f1: Seq<Seq<char>>, f2: Seq<Seq<char>>)
    requires
        unique_names(ds),
        linked(ds, f1),
        linked(ds, f2),
    ensures
        f1 == f2,
{
    assert forall|i: int| 0 <= i < ds.len() implies f1[i] == f2[i] by {
        lemma_one_digest_at(ds, f1, f2, i);
    }
    assert(f1 =~= f2);
}

/// Every reference of a rewritten body is accounted for. A name that is
/// left is the name of no declaration: it is a leaf. A digest is the final
/// digest of a declaration of another component that the body mentions, or
/// the digest of the body's own component, or it stood in the body before.
pub proof fn law_references_are_resolved(
    ds: Seq<DeclModel>,
    fin: Seq<Seq<char>>,
    i: int,
    t: TargetModel,
)
    requires
        0 <= i < ds.len(),
        fin.len() == ds.len(),
        body_targets(rewritten_body(ds, fin, i)).contains(t),
    ensures
        match t {
            TargetModel::Name(n) => !declared(ds, n) && body_names(ds[i].body).contains(n),
            TargetModel::Digest(d) => {
                ||| exists|j: int|
                    0 <= j < ds.len() && #[trigger] graph_of(ds)[i].contains(j) && !same_scc(
                        graph_of(ds),
                        i,
                        j,
                    ) && d == fin[j]
                ||| exists|j: int|
                    0 <= j < ds.len() && #[trigger] graph_of(ds)[i].contains(j) && same_scc(
                        graph_of(ds),
                        i,
                        j,
                    ) && d == group_digest(ds, fin, i)
                ||| body_targets(ds[i].body).contains(TargetModel::Digest(d))
            },
        },
{
    reveal(table_for);
    let table = table_for(ds, fin, i, Some(group_digest(ds, fin, i)));
    let body = ds[i].body;
    lemma_canon_body_targets(subst_body(body, table));
    lemma_map_body_targets(body, resolver(table));
    assert(image(body_targets(body), resolver(table)).contains(t));
    let s = choose|s: TargetModel| body_targets(body).contains(s) && t == #[trigger] resolver(table)(s);
    assert(t == resolve(table, s));
    match s {
        TargetModel::Name(n) => {
            assert(body_names(body).contains(n));
            if table.contains_key(n) {
                lemma_mention_is_edge(ds, i, n);
                let j = place_of(ds, n);
                assert(graph_of(ds)[i].contains(j));
            }
        },
        TargetModel::Digest(d) => {},
    }
}

/// No dangling reference. Every reference of a rewritten declaration of
/// the store is a digest that the store has as a key, or the name of no
/// declaration, wherever the declaration mentions no member of its own
/// component and its body came with names only. It holds of no other
/// declaration, unless the digest of its component, or a digest that its
/// body came with, happens to be the final digest of a declaration: the
/// store has final digests for keys and nothing else.
pub proof fn law_no_dangling_reference(c: Compiler, ds: Seq<DeclModel>, i: int, t: TargetModel)
    requires
        c.is_store_of(ds),
        0 <= i < ds.len(),
        forall|j: int|
            #[trigger] graph_of(ds)[i].contains(j) && same_scc(graph_of(ds), i, j) ==> is_digest(
                c.digests(),
                group_digest(ds, c.digests(), i),
            ),
        forall|d: Seq<char>| #[trigger]
            body_targets(ds[i].body).contains(TargetModel::Digest(d)) ==> is_digest(c.digests(), d),
        body_targets(c.declarations()[i].body).contains(t),
    ensures
        match t {
            TargetModel::Name(n) => !c@.by_name.contains_key(n),
            TargetModel::Digest(d) => c@.by_digest.contains_key(d),
        },
{
    let fin = c.digests();
    law_references_are_resolved(ds, fin, i, t);
    match t {
        TargetModel::Name(n) => {},
        TargetModel::Digest(d) => {
            if exists|j: int|
                0 <= j < ds.len() && #[trigger] graph_of(ds)[i].contains(j) && !same_scc(
                    graph_of(ds),
                    i,
                    j,
                ) && d == fin[j] {
                let j = choose|j: int|
                    0 <= j < ds.len() && #[trigger] graph_of(ds)[i].contains(j) && !same_scc(
                        graph_of(ds),
                        i,
                        j,
                    ) && d == fin[j];
                assert(fin[j] == d);
            }
            assert(is_digest(fin, d));
        },
    }
}

/// Cycle closure. The members of one component are rewritten against one
/// digest of the component: every reference from a member to a member
/// carries it, and so the final digest of each member is a function of it.
pub proof fn law_cycle_shares_digest(ds: Seq<DeclModel>, fin: Seq<Seq<char>>, a: int, b: int)
    requires
        same_scc(graph_of(ds), a, b),
    ensures
        group_digest(ds, fin, a) == group_digest(ds, fin, b),
        rewritten_body(ds, fin, a) == canon_body(
            subst_body(ds[a].body, table_for(ds, fin, a, Some(group_digest(ds, fin, a)))),
        ),
        rewritten_body(ds, fin, b) == canon_body(
            subst_body(ds[b].body, table_for(ds, fin, b, Some(group_digest(ds, fin, a)))),
        ),
{
    lemma_group_shared(ds, fin, a, b);
}

/// Rename invariance of the store. Of two units that differ in the name
/// of one declaration, which lies on no cycle and takes a name that the
/// unit did not know, the stores hold the same final digests, declaration
/// by declaration.
pub proof fn law_store_after_rename(
    before: Compiler,
    after: Compiler,
    unit: Seq<DeclModel>,
    k: int,
    new: Seq<char>,
)
    requires
        can_rename(unit, k, new),
        before.is_store_of(canon_unit(unit)),
        after.is_store_of(canon_unit(rename_unit(unit, unit[k].name, new))),
    ensures
        after.digests() == before.digests(),
{
    let fin = before.digests();
    let renamed = rename_unit(unit, unit[k].name, new);
    law_canonical_input_is_immaterial(unit, fin);
    law_rename_invariance(unit, fin, k, new);
    lemma_renamed_names(unit, k, new);
    law_canonical_input_is_immaterial(renamed, fin);
    law_canonical_input_is_immaterial(renamed, after.digests());
    law_one_linking(renamed, fin, after.digests());
}

/// Order invariance of the store. Of two units that list the same
/// declarations in different orders, the stores give every name the same
/// final digest.
pub proof fn law_store_in_any_order(
    before: Compiler,
    after: Compiler,
    unit: Seq<DeclModel>,
    p: Seq<int>,
    q: Seq<int>,
)
    requires
        reordering(unit, p, q),
        before.is_store_of(canon_unit(unit)),
        after.is_store_of(canon_unit(permuted(unit, p))),
    ensures
        after.digests() == permuted(before.digests(), p),
        after@.by_name == before@.by_name,
{
    let fin = before.digests();
    let cs = canon_unit(unit);
    let moved = permuted(unit, p);
    assert(canon_unit(moved) =~= permuted(cs, p));
    assert(unique_names(cs)) by {
        assert forall|a: int, b: int| 0 <= a < b < cs.len() implies cs[a].name != cs[b].name by {
            assert(unit[a].name != unit[b].name);
        }
    }
    law_order_invariance(cs, fin, p, q);
    lemma_permuted_places(cs, p, q, Seq::empty());
    law_one_linking(permuted(cs, p), permuted(fin, p), after.digests());
    assert forall|n: Seq<char>| after@.by_name.dom().contains(n) == before@.by_name.dom().contains(
        n,
    ) by {
        lemma_permuted_places(cs, p, q, n);
    }
    assert(after@.by_name.dom() =~= before@.by_name.dom());
    assert forall|n: Seq<char>| after@.by_name.dom().contains(n) implies after@.by_name[n]
        == before@.by_name[n] by {
        lemma_permuted_places(cs, p, q, n);
    }
    assert(after@.by_name =~= before@.by_name);
}

} // verus!
