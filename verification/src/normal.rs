//! Rewriting does not care whether what it is given is in canonical form
//! already: the canonical form of the result is the same.

use crate::canon::{
    bound_leq, canon_body, canon_bounds, canon_decl, canon_field, canon_fields, canon_members,
    canon_type, canon_types, canon_variant, canon_variants, lemma_bound_order_total,
};
use crate::model::{
    BodyModel, BoundModel, DeclModel, FieldModel, FieldsModel, TargetModel, TypeModel,
    VariantModel,
};
use crate::extract::unique_names;
use crate::graph::same_scc;
use crate::refs::body_names;
use crate::rewrite::{
    map_body, map_bound, map_bounds, map_fields, map_members, map_type, map_types, map_variants,
    resolver,
};
use crate::store::canon_unit;
use crate::targets::lemma_canon_body_targets;
use crate::unit::{
    component_names, declared, digest_at, graph_of, group_bytes, group_chunks, group_digest,
    in_order, lemma_place_of, linked, place_of, provisional, rewritten_body, table_for,
};
use vstd::prelude::*;
use vstd::seq_lib::lemma_sorted_unique;

verus! {

/// Two lists that hold the same items as often still do so after one and
/// the same change to every item.
pub proof fn lemma_mapped_items<A, B>(a: Seq<A>, b: Seq<A>, f: spec_fn(A) -> B)
    requires
        a.to_multiset() == b.to_multiset(),
    ensures
        a.map_values(f).to_multiset() == b.map_values(f).to_multiset(),
    decreases a.len(),
{
    a.to_multiset_ensures();
    b.to_multiset_ensures();
    if a.len() == 0 {
        assert(b.len() == 0);
        assert(a.map_values(f) =~= b.map_values(f));
    } else {
        let x = a.last();
        assert(a.contains(x));
        assert(a.to_multiset().count(x) > 0);
        assert(b.contains(x));
        let j = choose|j: int| 0 <= j < b.len() && b[j] == x;
        let a1 = a.drop_last();
        let b1 = b.remove(j);
        assert(a1 =~= a.remove(a.len() - 1));
        assert(a1.to_multiset() =~= a.to_multiset().remove(x));
        assert(b1.to_multiset() =~= b.to_multiset().remove(x));
        lemma_mapped_items(a1, b1, f);
        let ma = a1.map_values(f);
        let mb = b1.map_values(f);
        assert(a.map_values(f) =~= ma.push(f(x)));
        assert(b.map_values(f) =~= mb.insert(j, f(x)));
        vstd::seq_lib::to_multiset_build(ma, f(x));
        vstd::seq_lib::to_multiset_insert(mb, j, f(x));
    }
}

pub proof fn lemma_canon_absorbs_bounds(bs: Seq<BoundModel>, f: spec_fn(TargetModel) -> TargetModel)
    ensures
        canon_bounds(map_bounds(canon_bounds(bs), f)) == canon_bounds(map_bounds(bs, f)),
{
    let sorted = canon_bounds(bs);
    let g = |b: BoundModel| map_bound(b, f);
    lemma_bound_order_total();
    bs.lemma_sort_by_ensures(bound_leq());
    lemma_mapped_items(sorted, bs, g);
    let x = map_bounds(sorted, f);
    let y = map_bounds(bs, f);
    assert(x =~= sorted.map_values(g));
    assert(y =~= bs.map_values(g));
    x.lemma_sort_by_ensures(bound_leq());
    y.lemma_sort_by_ensures(bound_leq());
    lemma_sorted_unique(canon_bounds(x), canon_bounds(y), bound_leq());
}

pub proof fn lemma_canon_absorbs_type(t: TypeModel, f: spec_fn(TargetModel) -> TargetModel)
    ensures
        canon_type(map_type(canon_type(t), f)) == canon_type(map_type(t, f)),
    decreases t,
{
    match t {
        TypeModel::Path { target, args, span } => lemma_canon_absorbs_types(args, f),
        TypeModel::Reference { mutable, elem } => lemma_canon_absorbs_type(*elem, f),
        TypeModel::Array { elem, len } => lemma_canon_absorbs_type(*elem, f),
        TypeModel::Slice(e) => lemma_canon_absorbs_type(*e, f),
        TypeModel::Tuple(es) => lemma_canon_absorbs_types(es, f),
        TypeModel::Paren(e) => lemma_canon_absorbs_type(*e, f),
        TypeModel::Group(e) => lemma_canon_absorbs_type(*e, f),
        TypeModel::ImplTrait(bs) => lemma_canon_absorbs_bounds(bs, f),
        TypeModel::TraitObject(bs) => lemma_canon_absorbs_bounds(bs, f),
        TypeModel::Macro(m) => {},
        TypeModel::Opaque(_) => {},
    }
}

pub proof fn lemma_canon_absorbs_types(ts: Seq<TypeModel>, f: spec_fn(TargetModel) -> TargetModel)
    ensures
        canon_types(map_types(canon_types(ts), f)) == canon_types(map_types(ts, f)),
    decreases ts,
{
    let a = canon_types(map_types(canon_types(ts), f));
    let b = canon_types(map_types(ts, f));
    assert forall|i: int| 0 <= i < ts.len() implies a[i] == b[i] by {
        lemma_canon_absorbs_type(ts[i], f);
    }
    assert(a =~= b);
}

pub proof fn lemma_canon_absorbs_members(fs: Seq<FieldModel>, f: spec_fn(TargetModel) -> TargetModel)
    ensures
        canon_members(map_members(canon_members(fs), f)) == canon_members(map_members(fs, f)),
{
    let a = canon_members(map_members(canon_members(fs), f));
    let b = canon_members(map_members(fs, f));
    assert forall|i: int| 0 <= i < fs.len() implies a[i] == b[i] by {
        lemma_canon_absorbs_type(fs[i].ty, f);
    }
    assert(a =~= b);
}

pub proof fn lemma_canon_absorbs_fields(x: FieldsModel, f: spec_fn(TargetModel) -> TargetModel)
    ensures
        canon_fields(map_fields(canon_fields(x), f)) == canon_fields(map_fields(x, f)),
{
    match x {
        FieldsModel::Named(fs) => lemma_canon_absorbs_members(fs, f),
        FieldsModel::Unnamed(ts) => lemma_canon_absorbs_types(ts, f),
        FieldsModel::Unit => {},
    }
}

pub proof fn lemma_canon_absorbs_variants(
    vs: Seq<VariantModel>,
    f: spec_fn(TargetModel) -> TargetModel,
)
    ensures
        canon_variants(map_variants(canon_variants(vs), f)) == canon_variants(map_variants(vs, f)),
{
    let a = canon_variants(map_variants(canon_variants(vs), f));
    let b = canon_variants(map_variants(vs, f));
    assert forall|i: int| 0 <= i < vs.len() implies a[i] == b[i] by {
        lemma_canon_absorbs_fields(vs[i].fields, f);
    }
    assert(a =~= b);
}

/// The canonical form of a rewritten body is the same whether the body was
/// brought into canonical form before the rewriting or not.
pub proof fn lemma_canon_absorbs_body(b: BodyModel, f: spec_fn(TargetModel) -> TargetModel)
    ensures
        canon_body(map_body(canon_body(b), f)) == canon_body(map_body(b, f)),
{
    match b {
        BodyModel::Function { params, ret } => {
            lemma_canon_absorbs_members(params, f);
            lemma_canon_absorbs_type(ret, f);
        },
        BodyModel::Struct(x) => lemma_canon_absorbs_fields(x, f),
        BodyModel::Union(x) => lemma_canon_absorbs_fields(x, f),
        BodyModel::Enum(vs) => lemma_canon_absorbs_variants(vs, f),
        BodyModel::Const { ty, value } => lemma_canon_absorbs_type(ty, f),
        BodyModel::Static { ty, value } => lemma_canon_absorbs_type(ty, f),
        BodyModel::TypeAlias(t) => lemma_canon_absorbs_type(t, f),
        BodyModel::Trait(bs) => lemma_canon_absorbs_bounds(bs, f),
    }
}

proof fn lemma_canon_unit_places(ds: Seq<DeclModel>, n: Seq<char>)
    requires
        unique_names(ds),
    ensures
        unique_names(canon_unit(ds)),
        graph_of(canon_unit(ds)) == graph_of(ds),
        declared(canon_unit(ds), n) == declared(ds, n),
        declared(ds, n) ==> place_of(canon_unit(ds), n) == place_of(ds, n),
{
    let cs = canon_unit(ds);
    assert forall|a: int, b: int| 0 <= a < b < cs.len() implies cs[a].name != cs[b].name by {
        assert(ds[a].name != ds[b].name);
    }
    assert forall|i: int| 0 <= i < ds.len() implies graph_of(cs)[i] =~= graph_of(ds)[i] by {
        lemma_canon_body_targets(ds[i].body);
    }
    assert(graph_of(cs) =~= graph_of(ds));
    if declared(cs, n) {
        let j = choose|j: int| 0 <= j < cs.len() && #[trigger] cs[j].name == n;
        assert(ds[j].name == n);
    }
    if declared(ds, n) {
        let j = place_of(ds, n);
        assert(0 <= j < ds.len() && ds[j].name == n);
        assert(cs[j].name == n);
        lemma_place_of(cs, j);
        lemma_place_of(ds, j);
    }
}

proof fn lemma_canon_unit_table(
    ds: Seq<DeclModel>,
    fin: Seq<Seq<char>>,
    i: int,
    intra: Option<Seq<char>>,
)
    requires
        unique_names(ds),
        0 <= i < ds.len(),
    ensures
        table_for(canon_unit(ds), fin, i, intra) == table_for(ds, fin, i, intra),
{
    reveal(table_for);
    let cs = canon_unit(ds);
    let t1 = table_for(cs, fin, i, intra);
    let t2 = table_for(ds, fin, i, intra);
    lemma_canon_body_targets(ds[i].body);
    assert forall|n: Seq<char>| t1.dom().contains(n) == t2.dom().contains(n) by {
        lemma_canon_unit_places(ds, n);
    }
    assert(t1.dom() =~= t2.dom());
    assert forall|n: Seq<char>| t1.dom().contains(n) implies t1[n] == t2[n] by {
        lemma_canon_unit_places(ds, n);
    }
    assert(t1 =~= t2);
}

proof fn lemma_canon_unit_group(ds: Seq<DeclModel>, fin: Seq<Seq<char>>, i: int)
    requires
        unique_names(ds),
        0 <= i < ds.len(),
    ensures
        group_digest(canon_unit(ds), fin, i) == group_digest(ds, fin, i),
{
    reveal(group_bytes);
    reveal(component_names);
    let cs = canon_unit(ds);
    lemma_canon_unit_places(ds, ds[i].name);
    assert forall|n: Seq<char>| component_names(cs, i).contains(n) == component_names(
        ds,
        i,
    ).contains(n) by {
        if component_names(cs, i).contains(n) {
            let j = choose|j: int|
                0 <= j < cs.len() && #[trigger] cs[j].name == n && same_scc(graph_of(cs), i, j);
            assert(ds[j].name == n);
        }
        if component_names(ds, i).contains(n) {
            let j = choose|j: int|
                0 <= j < ds.len() && #[trigger] ds[j].name == n && same_scc(graph_of(ds), i, j);
            assert(cs[j].name == n);
        }
    }
    assert(component_names(cs, i) =~= component_names(ds, i));
    let names = in_order(component_names(ds, i));
    let c1 = group_chunks(ds, fin, i, names);
    let c2 = group_chunks(cs, fin, i, names);
    assert forall|x: int| 0 <= x < names.len() implies c1[x] == c2[x] by {
        let n = names[x];
        if component_names(ds, i).contains(n) {
            let j = choose|j: int|
                0 <= j < ds.len() && #[trigger] ds[j].name == n && same_scc(graph_of(ds), i, j);
            lemma_place_of(ds, j);
            lemma_canon_unit_places(ds, n);
            lemma_canon_unit_table(ds, fin, j, None);
            lemma_canon_absorbs_body(ds[j].body, resolver(table_for(ds, fin, j, None)));
        }
    }
    assert(c1 =~= c2);
}

/// It does not matter to the linker whether the declarations it is given
/// are in canonical form: the final digests and the rewritten bodies of a
/// unit are those of the unit in canonical form.
pub proof fn law_canonical_input_is_immaterial(ds: Seq<DeclModel>, fin: Seq<Seq<char>>)
    requires
        unique_names(ds),
    ensures
        linked(canon_unit(ds), fin) <==> linked(ds, fin),
        forall|i: int|
            0 <= i < ds.len() ==> #[trigger] rewritten_body(canon_unit(ds), fin, i)
                == rewritten_body(ds, fin, i),
{
    let cs = canon_unit(ds);
    assert forall|i: int| 0 <= i < ds.len() implies #[trigger] rewritten_body(cs, fin, i)
        == rewritten_body(ds, fin, i) by {
        lemma_canon_unit_group(ds, fin, i);
        let intra = Some(group_digest(ds, fin, i));
        lemma_canon_unit_table(ds, fin, i, intra);
        lemma_canon_absorbs_body(ds[i].body, resolver(table_for(ds, fin, i, intra)));
    }
    assert forall|i: int| 0 <= i < ds.len() implies #[trigger] digest_at(cs, fin, i) == digest_at(
        ds,
        fin,
        i,
    ) by {
        assert(rewritten_body(cs, fin, i) == rewritten_body(ds, fin, i));
    }
    if linked(ds, fin) {
        assert forall|i: int| 0 <= i < cs.len() implies fin[i] == #[trigger] digest_at(cs, fin, i) by {
            assert(digest_at(cs, fin, i) == digest_at(ds, fin, i));
        }
    }
    if linked(cs, fin) {
        assert forall|i: int| 0 <= i < ds.len() implies fin[i] == #[trigger] digest_at(ds, fin, i) by {
            assert(digest_at(cs, fin, i) == digest_at(ds, fin, i));
        }
    }
}

} // verus!
