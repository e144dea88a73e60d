//! How the references of a body fare under rewriting and under
//! canonicalization.

use crate::canon::{
    bound_leq, canon_body, canon_bounds, canon_fields, canon_members, canon_type, canon_types,
    canon_variants, lemma_bound_order_total,
};
use crate::model::{
    BodyModel, BoundModel, FieldModel, FieldsModel, TargetModel, TypeModel, VariantModel,
};
use crate::refs::{
    body_targets, bound_sets, bound_target, bounds_targets, fields_targets, member_sets,
    members_targets, type_sets, type_targets, types_targets, union_all, variant_sets,
    variants_targets,
};
use crate::rewrite::{
    map_body, map_bound, map_bounds, map_field, map_fields, map_members, map_type, map_types,
    map_variant, map_variants,
};
use vstd::prelude::*;

verus! {

/// What `f` makes of the members of a set.
pub open spec fn image(s: Set<TargetModel>, f: spec_fn(TargetModel) -> TargetModel) -> Set<
    TargetModel,
> {
    Set::new(|y: TargetModel| exists|x: TargetModel| s.contains(x) && y == #[trigger] f(x))
}

proof fn lemma_image_single(t: TargetModel, f: spec_fn(TargetModel) -> TargetModel)
    ensures
        image(set![t], f) == set![f(t)],
{
    assert forall|y: TargetModel| set![f(t)].contains(y) implies image(set![t], f).contains(y) by {
        assert(set![t].contains(t) && y == f(t));
    }
    assert(image(set![t], f) =~= set![f(t)]);
}

proof fn lemma_image_union(
    a: Set<TargetModel>,
    b: Set<TargetModel>,
    f: spec_fn(TargetModel) -> TargetModel,
)
    ensures
        image(a.union(b), f) == image(a, f).union(image(b, f)),
{
    assert forall|y: TargetModel| image(a.union(b), f).contains(y) implies image(a, f).union(
        image(b, f),
    ).contains(y) by {
        let x = choose|x: TargetModel| a.union(b).contains(x) && y == #[trigger] f(x);
        if a.contains(x) {
            assert(image(a, f).contains(y));
        } else {
            assert(image(b, f).contains(y));
        }
    }
    assert forall|y: TargetModel| image(a, f).union(image(b, f)).contains(y) implies image(
        a.union(b),
        f,
    ).contains(y) by {
        if image(a, f).contains(y) {
            let x = choose|x: TargetModel| a.contains(x) && y == #[trigger] f(x);
            assert(a.union(b).contains(x));
        } else {
            let x = choose|x: TargetModel| b.contains(x) && y == #[trigger] f(x);
            assert(a.union(b).contains(x));
        }
    }
    assert(image(a.union(b), f) =~= image(a, f).union(image(b, f)));
}

proof fn lemma_image_empty(f: spec_fn(TargetModel) -> TargetModel)
    ensures
        image(Set::empty(), f) == Set::<TargetModel>::empty(),
{
    assert(image(Set::empty(), f) =~= Set::<TargetModel>::empty());
}

/// Where each set of one list is the image of the set at its place in
/// another, the union of the one is the image of the union of the other.
proof fn lemma_image_union_all(
    a: Seq<Set<TargetModel>>,
    b: Seq<Set<TargetModel>>,
    f: spec_fn(TargetModel) -> TargetModel,
)
    requires
        a.len() == b.len(),
        forall|i: int| 0 <= i < a.len() ==> #[trigger] b[i] == image(a[i], f),
    ensures
        union_all(b) == image(union_all(a), f),
{
    assert forall|y: TargetModel| union_all(b).contains(y) implies image(union_all(a), f).contains(
        y,
    ) by {
        let i = choose|i: int| 0 <= i < b.len() && #[trigger] b[i].contains(y);
        assert(image(a[i], f).contains(y));
        let x = choose|x: TargetModel| a[i].contains(x) && y == #[trigger] f(x);
        assert(union_all(a).contains(x));
    }
    assert forall|y: TargetModel| image(union_all(a), f).contains(y) implies union_all(b).contains(
        y,
    ) by {
        let x = choose|x: TargetModel| union_all(a).contains(x) && y == #[trigger] f(x);
        let i = choose|i: int| 0 <= i < a.len() && #[trigger] a[i].contains(x);
        assert(image(a[i], f).contains(y));
        assert(b[i].contains(y));
    }
    assert(union_all(b) =~= image(union_all(a), f));
}

pub proof fn lemma_map_bounds_targets(bs: Seq<BoundModel>, f: spec_fn(TargetModel) -> TargetModel)
    ensures
        bounds_targets(map_bounds(bs, f)) == image(bounds_targets(bs), f),
{
    let a = bound_sets(bs);
    let b = bound_sets(map_bounds(bs, f));
    assert forall|i: int| 0 <= i < a.len() implies #[trigger] b[i] == image(a[i], f) by {
        lemma_image_single(bound_target(bs[i]), f);
        assert(bound_target(map_bound(bs[i], f)) == f(bound_target(bs[i])));
    }
    lemma_image_union_all(a, b, f);
}

/// The references of a rewritten type expression are what `f` makes of the
/// references of the type expression.
pub proof fn lemma_map_type_targets(t: TypeModel, f: spec_fn(TargetModel) -> TargetModel)
    ensures
        type_targets(map_type(t, f)) == image(type_targets(t), f),
    decreases t,
{
    match t {
        TypeModel::Path { target, args, span } => {
            lemma_map_types_targets(args, f);
            lemma_image_single(target, f);
            lemma_image_union(set![target], types_targets(args), f);
        },
        TypeModel::Reference { mutable, elem } => lemma_map_type_targets(*elem, f),
        TypeModel::Array { elem, len } => lemma_map_type_targets(*elem, f),
        TypeModel::Slice(e) => lemma_map_type_targets(*e, f),
        TypeModel::Tuple(es) => lemma_map_types_targets(es, f),
        TypeModel::Paren(e) => lemma_map_type_targets(*e, f),
        TypeModel::Group(e) => lemma_map_type_targets(*e, f),
        TypeModel::ImplTrait(bs) => lemma_map_bounds_targets(bs, f),
        TypeModel::TraitObject(bs) => lemma_map_bounds_targets(bs, f),
        TypeModel::Macro(m) => lemma_image_single(m, f),
        TypeModel::Opaque(_) => lemma_image_empty(f),
    }
}

pub proof fn lemma_map_types_targets(ts: Seq<TypeModel>, f: spec_fn(TargetModel) -> TargetModel)
    ensures
        types_targets(map_types(ts, f)) == image(types_targets(ts), f),
    decreases ts,
{
    let a = type_sets(ts);
    let b = type_sets(map_types(ts, f));
    assert forall|i: int| 0 <= i < a.len() implies #[trigger] b[i] == image(a[i], f) by {
        lemma_map_type_targets(ts[i], f);
    }
    lemma_image_union_all(a, b, f);
}

pub proof fn lemma_map_members_targets(fs: Seq<FieldModel>, f: spec_fn(TargetModel) -> TargetModel)
    ensures
        members_targets(map_members(fs, f)) == image(members_targets(fs), f),
{
    let a = member_sets(fs);
    let b = member_sets(map_members(fs, f));
    assert forall|i: int| 0 <= i < a.len() implies #[trigger] b[i] == image(a[i], f) by {
        lemma_map_type_targets(fs[i].ty, f);
    }
    lemma_image_union_all(a, b, f);
}

pub proof fn lemma_map_fields_targets(x: FieldsModel, f: spec_fn(TargetModel) -> TargetModel)
    ensures
        fields_targets(map_fields(x, f)) == image(fields_targets(x), f),
{
    match x {
        FieldsModel::Named(fs) => lemma_map_members_targets(fs, f),
        FieldsModel::Unnamed(ts) => lemma_map_types_targets(ts, f),
        FieldsModel::Unit => lemma_image_empty(f),
    }
}

pub proof fn lemma_map_variants_targets(
    vs: Seq<VariantModel>,
    f: spec_fn(TargetModel) -> TargetModel,
)
    ensures
        variants_targets(map_variants(vs, f)) == image(variants_targets(vs), f),
{
    let a = variant_sets(vs);
    let b = variant_sets(map_variants(vs, f));
    assert forall|i: int| 0 <= i < a.len() implies #[trigger] b[i] == image(a[i], f) by {
        lemma_map_fields_targets(vs[i].fields, f);
    }
    lemma_image_union_all(a, b, f);
}

/// The references of a rewritten body are what `f` makes of the references
/// of the body.
pub proof fn lemma_map_body_targets(b: BodyModel, f: spec_fn(TargetModel) -> TargetModel)
    ensures
        body_targets(map_body(b, f)) == image(body_targets(b), f),
{
    match b {
        BodyModel::Function { params, ret } => {
            lemma_map_members_targets(params, f);
            lemma_map_type_targets(ret, f);
            lemma_image_union(members_targets(params), type_targets(ret), f);
        },
        BodyModel::Struct(x) => lemma_map_fields_targets(x, f),
        BodyModel::Union(x) => lemma_map_fields_targets(x, f),
        BodyModel::Enum(vs) => lemma_map_variants_targets(vs, f),
        BodyModel::Const { ty, value } => lemma_map_type_targets(ty, f),
        BodyModel::Static { ty, value } => lemma_map_type_targets(ty, f),
        BodyModel::TypeAlias(t) => lemma_map_type_targets(t, f),
        BodyModel::Trait(bs) => lemma_map_bounds_targets(bs, f),
    }
}

pub proof fn lemma_canon_bounds_targets(bs: Seq<BoundModel>)
    ensures
        bounds_targets(canon_bounds(bs)) == bounds_targets(bs),
{
    let sorted = canon_bounds(bs);
    lemma_bound_order_total();
    bs.lemma_sort_by_ensures(bound_leq());
    bs.to_multiset_ensures();
    sorted.to_multiset_ensures();
    let a = bound_sets(bs);
    let b = bound_sets(sorted);
    assert forall|t: TargetModel| union_all(a).contains(t) implies union_all(b).contains(t) by {
        let i = choose|i: int| 0 <= i < a.len() && #[trigger] a[i].contains(t);
        assert(bs.contains(bs[i]));
        assert(bs.to_multiset().count(bs[i]) > 0);
        assert(sorted.to_multiset().count(bs[i]) > 0);
        assert(sorted.contains(bs[i]));
        let j = choose|j: int| 0 <= j < sorted.len() && sorted[j] == bs[i];
        assert(b[j].contains(t));
    }
    assert forall|t: TargetModel| union_all(b).contains(t) implies union_all(a).contains(t) by {
        let j = choose|j: int| 0 <= j < b.len() && #[trigger] b[j].contains(t);
        assert(sorted.contains(sorted[j]));
        assert(sorted.to_multiset().count(sorted[j]) > 0);
        assert(bs.to_multiset().count(sorted[j]) > 0);
        assert(bs.contains(sorted[j]));
        let i = choose|i: int| 0 <= i < bs.len() && bs[i] == sorted[j];
        assert(a[i].contains(t));
    }
    assert(union_all(b) =~= union_all(a));
}

/// The canonical form has the references of what it was made of.
pub proof fn lemma_canon_type_targets(t: TypeModel)
    ensures
        type_targets(canon_type(t)) == type_targets(t),
    decreases t,
{
    match t {
        TypeModel::Path { target, args, span } => lemma_canon_types_targets(args),
        TypeModel::Reference { mutable, elem } => lemma_canon_type_targets(*elem),
        TypeModel::Array { elem, len } => lemma_canon_type_targets(*elem),
        TypeModel::Slice(e) => lemma_canon_type_targets(*e),
        TypeModel::Tuple(es) => lemma_canon_types_targets(es),
        TypeModel::Paren(e) => lemma_canon_type_targets(*e),
        TypeModel::Group(e) => lemma_canon_type_targets(*e),
        TypeModel::ImplTrait(bs) => lemma_canon_bounds_targets(bs),
        TypeModel::TraitObject(bs) => lemma_canon_bounds_targets(bs),
        TypeModel::Macro(m) => {},
        TypeModel::Opaque(_) => {},
    }
}

pub proof fn lemma_canon_types_targets(ts: Seq<TypeModel>)
    ensures
        types_targets(canon_types(ts)) == types_targets(ts),
    decreases ts,
{
    let a = type_sets(ts);
    let b = type_sets(canon_types(ts));
    assert forall|i: int| 0 <= i < a.len() implies a[i] == b[i] by {
        lemma_canon_type_targets(ts[i]);
    }
    assert(a =~= b);
}

pub proof fn lemma_canon_members_targets(fs: Seq<FieldModel>)
    ensures
        members_targets(canon_members(fs)) == members_targets(fs),
{
    let a = member_sets(fs);
    let b = member_sets(canon_members(fs));
    assert forall|i: int| 0 <= i < a.len() implies a[i] == b[i] by {
        lemma_canon_type_targets(fs[i].ty);
    }
    assert(a =~= b);
}

pub proof fn lemma_canon_fields_targets(x: FieldsModel)
    ensures
        fields_targets(canon_fields(x)) == fields_targets(x),
{
    match x {
        FieldsModel::Named(fs) => lemma_canon_members_targets(fs),
        FieldsModel::Unnamed(ts) => lemma_canon_types_targets(ts),
        FieldsModel::Unit => {},
    }
}

pub proof fn lemma_canon_variants_targets(vs: Seq<VariantModel>)
    ensures
        variants_targets(canon_variants(vs)) == variants_targets(vs),
{
    let a = variant_sets(vs);
    let b = variant_sets(canon_variants(vs));
    assert forall|i: int| 0 <= i < a.len() implies a[i] == b[i] by {
        lemma_canon_fields_targets(vs[i].fields);
    }
    assert(a =~= b);
}

/// The canonical form has the references of what it was made of.
pub proof fn lemma_canon_body_targets(b: BodyModel)
    ensures
        body_targets(canon_body(b)) == body_targets(b),
{
    match b {
        BodyModel::Function { params, ret } => {
            lemma_canon_members_targets(params);
            lemma_canon_type_targets(ret);
        },
        BodyModel::Struct(x) => lemma_canon_fields_targets(x),
        BodyModel::Union(x) => lemma_canon_fields_targets(x),
        BodyModel::Enum(vs) => lemma_canon_variants_targets(vs),
        BodyModel::Const { ty, value } => lemma_canon_type_targets(ty),
        BodyModel::Static { ty, value } => lemma_canon_type_targets(ty),
        BodyModel::TypeAlias(t) => lemma_canon_type_targets(t),
        BodyModel::Trait(bs) => lemma_canon_bounds_targets(bs),
    }
}

/// First `f`, then `g`.
pub open spec fn then_map(
    f: spec_fn(TargetModel) -> TargetModel,
    g: spec_fn(TargetModel) -> TargetModel,
) -> spec_fn(TargetModel) -> TargetModel {
    |t: TargetModel| g(f(t))
}

pub proof fn lemma_map_twice_bounds(
    bs: Seq<BoundModel>,
    f: spec_fn(TargetModel) -> TargetModel,
    g: spec_fn(TargetModel) -> TargetModel,
)
    ensures
        map_bounds(map_bounds(bs, f), g) == map_bounds(bs, then_map(f, g)),
{
    assert(map_bounds(map_bounds(bs, f), g) =~= map_bounds(bs, then_map(f, g)));
}

/// Rewriting twice is rewriting once with both steps.
pub proof fn lemma_map_twice_type(
    t: TypeModel,
    f: spec_fn(TargetModel) -> TargetModel,
    g: spec_fn(TargetModel) -> TargetModel,
)
    ensures
        map_type(map_type(t, f), g) == map_type(t, then_map(f, g)),
    decreases t,
{
    match t {
        TypeModel::Path { target, args, span } => lemma_map_twice_types(args, f, g),
        TypeModel::Reference { mutable, elem } => lemma_map_twice_type(*elem, f, g),
        TypeModel::Array { elem, len } => lemma_map_twice_type(*elem, f, g),
        TypeModel::Slice(e) => lemma_map_twice_type(*e, f, g),
        TypeModel::Tuple(es) => lemma_map_twice_types(es, f, g),
        TypeModel::Paren(e) => lemma_map_twice_type(*e, f, g),
        TypeModel::Group(e) => lemma_map_twice_type(*e, f, g),
        TypeModel::ImplTrait(bs) => lemma_map_twice_bounds(bs, f, g),
        TypeModel::TraitObject(bs) => lemma_map_twice_bounds(bs, f, g),
        TypeModel::Macro(m) => {},
        TypeModel::Opaque(_) => {},
    }
}

pub proof fn lemma_map_twice_types(
    ts: Seq<TypeModel>,
    f: spec_fn(TargetModel) -> TargetModel,
    g: spec_fn(TargetModel) -> TargetModel,
)
    ensures
        map_types(map_types(ts, f), g) == map_types(ts, then_map(f, g)),
    decreases ts,
{
    let a = map_types(map_types(ts, f), g);
    let b = map_types(ts, then_map(f, g));
    assert forall|i: int| 0 <= i < ts.len() implies a[i] == b[i] by {
        lemma_map_twice_type(ts[i], f, g);
    }
    assert(a =~= b);
}

pub proof fn lemma_map_twice_members(
    fs: Seq<FieldModel>,
    f: spec_fn(TargetModel) -> TargetModel,
    g: spec_fn(TargetModel) -> TargetModel,
)
    ensures
        map_members(map_members(fs, f), g) == map_members(fs, then_map(f, g)),
{
    let a = map_members(map_members(fs, f), g);
    let b = map_members(fs, then_map(f, g));
    assert forall|i: int| 0 <= i < fs.len() implies a[i] == b[i] by {
        lemma_map_twice_type(fs[i].ty, f, g);
    }
    assert(a =~= b);
}

pub proof fn lemma_map_twice_fields(
    x: FieldsModel,
    f: spec_fn(TargetModel) -> TargetModel,
    g: spec_fn(TargetModel) -> TargetModel,
)
    ensures
        map_fields(map_fields(x, f), g) == map_fields(x, then_map(f, g)),
{
    match x {
        FieldsModel::Named(fs) => lemma_map_twice_members(fs, f, g),
        FieldsModel::Unnamed(ts) => lemma_map_twice_types(ts, f, g),
        FieldsModel::Unit => {},
    }
}

pub proof fn lemma_map_twice_variants(
    vs: Seq<VariantModel>,
    f: spec_fn(TargetModel) -> TargetModel,
    g: spec_fn(TargetModel) -> TargetModel,
)
    ensures
        map_variants(map_variants(vs, f), g) == map_variants(vs, then_map(f, g)),
{
    let a = map_variants(map_variants(vs, f), g);
    let b = map_variants(vs, then_map(f, g));
    assert forall|i: int| 0 <= i < vs.len() implies a[i] == b[i] by {
        lemma_map_twice_fields(vs[i].fields, f, g);
    }
    assert(a =~= b);
}

/// Rewriting twice is rewriting once with both steps.
pub proof fn lemma_map_twice_body(
    b: BodyModel,
    f: spec_fn(TargetModel) -> TargetModel,
    g: spec_fn(TargetModel) -> TargetModel,
)
    ensures
        map_body(map_body(b, f), g) == map_body(b, then_map(f, g)),
{
    match b {
        BodyModel::Function { params, ret } => {
            lemma_map_twice_members(params, f, g);
            lemma_map_twice_type(ret, f, g);
        },
        BodyModel::Struct(x) => lemma_map_twice_fields(x, f, g),
        BodyModel::Union(x) => lemma_map_twice_fields(x, f, g),
        BodyModel::Enum(vs) => lemma_map_twice_variants(vs, f, g),
        BodyModel::Const { ty, value } => lemma_map_twice_type(ty, f, g),
        BodyModel::Static { ty, value } => lemma_map_twice_type(ty, f, g),
        BodyModel::TypeAlias(t) => lemma_map_twice_type(t, f, g),
        BodyModel::Trait(bs) => lemma_map_twice_bounds(bs, f, g),
    }
}

/// `f` and `g` make the same of every member of the set.
pub open spec fn agree_on(
    s: Set<TargetModel>,
    f: spec_fn(TargetModel) -> TargetModel,
    g: spec_fn(TargetModel) -> TargetModel,
) -> bool {
    forall|t: TargetModel| s.contains(t) ==> #[trigger] f(t) == g(t)
}

pub proof fn lemma_map_same_bounds(
    bs: Seq<BoundModel>,
    f: spec_fn(TargetModel) -> TargetModel,
    g: spec_fn(TargetModel) -> TargetModel,
)
    requires
        agree_on(bounds_targets(bs), f, g),
    ensures
        map_bounds(bs, f) == map_bounds(bs, g),
{
    let a = map_bounds(bs, f);
    let b = map_bounds(bs, g);
    assert forall|i: int| 0 <= i < bs.len() implies a[i] == b[i] by {
        assert(bound_sets(bs)[i].contains(bound_target(bs[i])));
        assert(bounds_targets(bs).contains(bound_target(bs[i])));
    }
    assert(a =~= b);
}

/// Two rewritings that make the same of every reference of a type
/// expression make the same of the type expression.
pub proof fn lemma_map_same_type(
    t: TypeModel,
    f: spec_fn(TargetModel) -> TargetModel,
    g: spec_fn(TargetModel) -> TargetModel,
)
    requires
        agree_on(type_targets(t), f, g),
    ensures
        map_type(t, f) == map_type(t, g),
    decreases t,
{
    match t {
        TypeModel::Path { target, args, span } => {
            assert(type_targets(t).contains(target));
            assert forall|x: TargetModel| types_targets(args).contains(x) implies type_targets(
                t,
            ).contains(x) by {}
            lemma_map_same_types(args, f, g);
        },
        TypeModel::Reference { mutable, elem } => lemma_map_same_type(*elem, f, g),
        TypeModel::Array { elem, len } => lemma_map_same_type(*elem, f, g),
        TypeModel::Slice(e) => lemma_map_same_type(*e, f, g),
        TypeModel::Tuple(es) => lemma_map_same_types(es, f, g),
        TypeModel::Paren(e) => lemma_map_same_type(*e, f, g),
        TypeModel::Group(e) => lemma_map_same_type(*e, f, g),
        TypeModel::ImplTrait(bs) => lemma_map_same_bounds(bs, f, g),
        TypeModel::TraitObject(bs) => lemma_map_same_bounds(bs, f, g),
        TypeModel::Macro(m) => {
            assert(type_targets(t).contains(m));
        },
        TypeModel::Opaque(_) => {},
    }
}

pub proof fn lemma_map_same_types(
    ts: Seq<TypeModel>,
    f: spec_fn(TargetModel) -> TargetModel,
    g: spec_fn(TargetModel) -> TargetModel,
)
    requires
        agree_on(types_targets(ts), f, g),
    ensures
        map_types(ts, f) == map_types(ts, g),
    decreases ts,
{
    let a = map_types(ts, f);
    let b = map_types(ts, g);
    assert forall|i: int| 0 <= i < ts.len() implies a[i] == b[i] by {
        assert forall|x: TargetModel| type_targets(ts[i]).contains(x) implies types_targets(
            ts,
        ).contains(x) by {
            assert(type_sets(ts)[i].contains(x));
        }
        lemma_map_same_type(ts[i], f, g);
    }
    assert(a =~= b);
}

pub proof fn lemma_map_same_members(
    fs: Seq<FieldModel>,
    f: spec_fn(TargetModel) -> TargetModel,
    g: spec_fn(TargetModel) -> TargetModel,
)
    requires
        agree_on(members_targets(fs), f, g),
    ensures
        map_members(fs, f) == map_members(fs, g),
{
    let a = map_members(fs, f);
    let b = map_members(fs, g);
    assert forall|i: int| 0 <= i < fs.len() implies a[i] == b[i] by {
        assert forall|x: TargetModel| type_targets(fs[i].ty).contains(x) implies members_targets(
            fs,
        ).contains(x) by {
            assert(member_sets(fs)[i].contains(x));
        }
        lemma_map_same_type(fs[i].ty, f, g);
    }
    assert(a =~= b);
}

pub proof fn lemma_map_same_fields(
    x: FieldsModel,
    f: spec_fn(TargetModel) -> TargetModel,
    g: spec_fn(TargetModel) -> TargetModel,
)
    requires
        agree_on(fields_targets(x), f, g),
    ensures
        map_fields(x, f) == map_fields(x, g),
{
    match x {
        FieldsModel::Named(fs) => lemma_map_same_members(fs, f, g),
        FieldsModel::Unnamed(ts) => lemma_map_same_types(ts, f, g),
        FieldsModel::Unit => {},
    }
}

pub proof fn lemma_map_same_variants(
    vs: Seq<VariantModel>,
    f: spec_fn(TargetModel) -> TargetModel,
    g: spec_fn(TargetModel) -> TargetModel,
)
    requires
        agree_on(variants_targets(vs), f, g),
    ensures
        map_variants(vs, f) == map_variants(vs, g),
{
    let a = map_variants(vs, f);
    let b = map_variants(vs, g);
    assert forall|i: int| 0 <= i < vs.len() implies a[i] == b[i] by {
        assert forall|x: TargetModel|
            fields_targets(vs[i].fields).contains(x) implies variants_targets(vs).contains(x) by {
            assert(variant_sets(vs)[i].contains(x));
        }
        lemma_map_same_fields(vs[i].fields, f, g);
    }
    assert(a =~= b);
}

/// Two rewritings that make the same of every reference of a body make the
/// same of the body.
pub proof fn lemma_map_same_body(
    b: BodyModel,
    f: spec_fn(TargetModel) -> TargetModel,
    g: spec_fn(TargetModel) -> TargetModel,
)
    requires
        agree_on(body_targets(b), f, g),
    ensures
        map_body(b, f) == map_body(b, g),
{
    match b {
        BodyModel::Function { params, ret } => {
            assert forall|x: TargetModel| members_targets(params).contains(x) implies body_targets(
                b,
            ).contains(x) by {}
            assert forall|x: TargetModel| type_targets(ret).contains(x) implies body_targets(
                b,
            ).contains(x) by {}
            lemma_map_same_members(params, f, g);
            lemma_map_same_type(ret, f, g);
        },
        BodyModel::Struct(x) => lemma_map_same_fields(x, f, g),
        BodyModel::Union(x) => lemma_map_same_fields(x, f, g),
        BodyModel::Enum(vs) => lemma_map_same_variants(vs, f, g),
        BodyModel::Const { ty, value } => lemma_map_same_type(ty, f, g),
        BodyModel::Static { ty, value } => lemma_map_same_type(ty, f, g),
        BodyModel::TypeAlias(t) => lemma_map_same_type(t, f, g),
        BodyModel::Trait(bs) => lemma_map_same_bounds(bs, f, g),
    }
}

} // verus!
