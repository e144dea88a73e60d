//! The canonical form of a declaration: every position blanked, and every
//! bound list in the order of the bounds' byte forms. The order of fields,
//! parameters, tuple items and variants means something and stays.

use crate::encode::{enc_bound, put_bound};
use crate::model::{
    bounds_model, members_model, types_model, variants_model, Body, BodyModel, Bound, BoundModel,
    DeclModel, Declaration, Field, FieldModel, Fields, FieldsModel, Span, Target, TypeExpr,
    TypeModel, Variant, VariantModel,
};
use crate::order::{bytes_le, lemma_keyed_total_ordering, lemma_lex_total, lemma_lex_transitive, lex_le};
use crate::unique::lemma_bound_unique;
use vstd::prelude::*;
use vstd::relations::{sorted_by, total_ordering};
use vstd::seq_lib::lemma_sorted_unique;

verus! {

/// The order of bounds: that of their byte forms.
pub open spec fn bound_leq() -> spec_fn(BoundModel, BoundModel) -> bool {
    |a: BoundModel, b: BoundModel| lex_le(enc_bound(a), enc_bound(b))
}

/// A bound list in canonical order.
pub open spec fn canon_bounds(bs: Seq<BoundModel>) -> Seq<BoundModel> {
    bs.sort_by(bound_leq())
}

/// The canonical form of a type expression: positions blank, bound lists in order.
pub open spec fn canon_type(t: TypeModel) -> TypeModel
    decreases t,
{
    match t {
        TypeModel::Path { target, args, span } => TypeModel::Path {
            target: target,
            args: canon_types(args),
            span: Span::blank(),
        },
        TypeModel::Reference { mutable, elem } => TypeModel::Reference {
            mutable: mutable,
            elem: Box::new(canon_type(*elem)),
        },
        TypeModel::Array { elem, len } => TypeModel::Array {
            elem: Box::new(canon_type(*elem)),
            len: len,
        },
        TypeModel::Slice(e) => TypeModel::Slice(Box::new(canon_type(*e))),
        TypeModel::Tuple(es) => TypeModel::Tuple(canon_types(es)),
        TypeModel::Paren(e) => TypeModel::Paren(Box::new(canon_type(*e))),
        TypeModel::Group(e) => TypeModel::Group(Box::new(canon_type(*e))),
        TypeModel::ImplTrait(bs) => TypeModel::ImplTrait(canon_bounds(bs)),
        TypeModel::TraitObject(bs) => TypeModel::TraitObject(canon_bounds(bs)),
        TypeModel::Macro(t) => TypeModel::Macro(t),
        TypeModel::Opaque(s) => TypeModel::Opaque(s),
    }
}

/// The canonical form of each type expression of a list.
pub open spec fn canon_types(ts: Seq<TypeModel>) -> Seq<TypeModel>
    decreases ts,
{
    Seq::new(
        ts.len(),
        |i: int|
            if 0 <= i < ts.len() {
                canon_type(ts[i])
            } else {
                arbitrary()
            },
    )
}

/// The canonical form of a member.
pub open spec fn canon_field(f: FieldModel) -> FieldModel {
    FieldModel { name: f.name, ty: canon_type(f.ty), span: Span::blank() }
}

/// The canonical form of each member of a list.
pub open spec fn canon_members(fs: Seq<FieldModel>) -> Seq<FieldModel> {
    Seq::new(fs.len(), |i: int| canon_field(fs[i]))
}

/// The canonical form of a member list.
pub open spec fn canon_fields(f: FieldsModel) -> FieldsModel {
    match f {
        FieldsModel::Named(fs) => FieldsModel::Named(canon_members(fs)),
        FieldsModel::Unnamed(ts) => FieldsModel::Unnamed(canon_types(ts)),
        FieldsModel::Unit => FieldsModel::Unit,
    }
}

/// The canonical form of a variant.
pub open spec fn canon_variant(v: VariantModel) -> VariantModel {
    VariantModel { name: v.name, fields: canon_fields(v.fields), span: Span::blank() }
}

/// The canonical form of each variant of a list.
pub open spec fn canon_variants(vs: Seq<VariantModel>) -> Seq<VariantModel> {
    Seq::new(vs.len(), |i: int| canon_variant(vs[i]))
}

/// The canonical form of a body.
pub open spec fn canon_body(b: BodyModel) -> BodyModel {
    match b {
        BodyModel::Function { params, ret } => BodyModel::Function {
            params: canon_members(params),
            ret: canon_type(ret),
        },
        BodyModel::Struct(f) => BodyModel::Struct(canon_fields(f)),
        BodyModel::Union(f) => BodyModel::Union(canon_fields(f)),
        BodyModel::Enum(vs) => BodyModel::Enum(canon_variants(vs)),
        BodyModel::Const { ty, value } => BodyModel::Const { ty: canon_type(ty), value: value },
        BodyModel::Static { ty, value } => BodyModel::Static { ty: canon_type(ty), value: value },
        BodyModel::TypeAlias(t) => BodyModel::TypeAlias(canon_type(t)),
        BodyModel::Trait(bs) => BodyModel::Trait(canon_bounds(bs)),
    }
}

/// The canonical form of a declaration. It keeps the name.
pub open spec fn canon_decl(d: DeclModel) -> DeclModel {
    DeclModel { name: d.name, body: canon_body(d.body), span: Span::blank() }
}

/// Bounds are totally ordered by their byte forms.
pub proof fn lemma_bound_order_total()
    ensures
        total_ordering(bound_leq()),
{
    let key = |b: BoundModel| enc_bound(b);
    assert forall|x: BoundModel, y: BoundModel| #[trigger] key(x) == #[trigger] key(y) implies x
        == y by {
        lemma_bound_unique(x, y, Seq::empty(), Seq::empty());
    }
    lemma_keyed_total_ordering(key, bound_leq());
}

/// A copy of a reference.
pub fn copy_target(t: &Target) -> (r: Target)
    ensures
        r@ == t@,
{
    match t {
        Target::Name(n) => Target::Name(n.clone()),
        Target::Digest(d) => Target::Digest(d.clone()),
    }
}

/// A copy of a bound.
pub fn copy_bound(b: &Bound) -> (r: Bound)
    ensures
        r@ == b@,
{
    match b {
        Bound::Trait(t) => Bound::Trait(copy_target(t)),
        Bound::Lifetime(t) => Bound::Lifetime(copy_target(t)),
    }
}

/// Puts a bound list into canonical order.
pub fn sort_bounds(bs: &Vec<Bound>) -> (out: Vec<Bound>)
    ensures
        bounds_model(out@) == canon_bounds(bounds_model(bs@)),
{
    let ghost src = bounds_model(bs@);
    let ghost leq = bound_leq();
    let mut out: Vec<Bound> = Vec::new();
    let mut keys: Vec<Vec<u8>> = Vec::new();
    let mut i: usize = 0;
    proof {
        assert(bounds_model(out@) =~= src.take(0));
    }
    while i < bs.len()
        invariant
            i <= bs.len(),
            src == bounds_model(bs@),
            leq == bound_leq(),
            keys.len() == out.len(),
            forall|k: int| 0 <= k < out.len() ==> keys[k]@ == enc_bound(#[trigger] out[k]@),
            sorted_by(bounds_model(out@), leq),
            bounds_model(out@).to_multiset() == src.take(i as int).to_multiset(),
        decreases bs.len() - i,
    {
        let b = copy_bound(&bs[i]);
        let mut key: Vec<u8> = Vec::new();
        put_bound(&b, &mut key);
        assert(key@ =~= enc_bound(b@));
        let mut p: usize = 0;
        while p < keys.len() && bytes_le(&keys[p], &key)
            invariant
                p <= keys.len(),
                forall|k: int| 0 <= k < p ==> lex_le(#[trigger] keys[k]@, key@),
            decreases keys.len() - p,
        {
            p += 1;
        }
        let ghost before = bounds_model(out@);
        proof {
            assert forall|k: int| 0 <= k < p implies leq(#[trigger] before[k], b@) by {
                assert(keys[k]@ == enc_bound(out[k]@));
            }
            assert forall|k: int| p <= k < before.len() implies leq(b@, #[trigger] before[k]) by {
                assert(keys[k]@ == enc_bound(out[k]@));
                assert(keys[p as int]@ == enc_bound(out[p as int]@));
                lemma_lex_total(keys[p as int]@, key@);
                if k > p {
                    assert(leq(before[p as int], before[k]));
                    lemma_lex_transitive(key@, keys[p as int]@, keys[k]@);
                }
            }
        }
        out.insert(p, b);
        keys.insert(p, key);
        proof {
            let after = bounds_model(out@);
            assert(after =~= before.insert(p as int, b@));
            assert forall|x: int, y: int| 0 <= x < y < after.len() implies #[trigger] leq(
                after[x],
                after[y],
            ) by {
                if y < p {
                    assert(leq(before[x], before[y]));
                } else if y == p {
                    assert(leq(before[x], b@));
                } else if x == p {
                    assert(leq(b@, before[y - 1]));
                } else if x < p {
                    assert(leq(before[x], before[y - 1]));
                } else {
                    assert(leq(before[x - 1], before[y - 1]));
                }
            }
            vstd::seq_lib::to_multiset_insert(before, p as int, b@);
            assert(src.take(i as int + 1) =~= src.take(i as int).push(src[i as int]));
            vstd::seq_lib::to_multiset_build(src.take(i as int), src[i as int]);
        }
        i += 1;
    }
    proof {
        assert(src.take(bs.len() as int) =~= src);
        lemma_bound_order_total();
        src.lemma_sort_by_ensures(leq);
        lemma_sorted_unique(bounds_model(out@), src.sort_by(leq), leq);
    }
    out
}

/// The canonical form of a type expression.
#[verifier::loop_isolation(false)]
pub fn canonical_type(t: &TypeExpr) -> (r: TypeExpr)
    ensures
        r@ == canon_type(t@),
    decreases t,
{
    match t {
        TypeExpr::Path { target, args, span } => {
            let args2 = canonical_types(args);
            let r = TypeExpr::Path { target: copy_target(target), args: args2, span: Span::none() };
            proof {
                assert(t@->Path_args =~= types_model(args@));
                assert(r@->Path_args =~= types_model(args2@));
            }
            r
        },
        TypeExpr::Reference { mutable, elem } => TypeExpr::Reference {
            mutable: *mutable,
            elem: Box::new(canonical_type(elem)),
        },
        TypeExpr::Array { elem, len } => TypeExpr::Array {
            elem: Box::new(canonical_type(elem)),
            len: len.clone(),
        },
        TypeExpr::Slice(e) => TypeExpr::Slice(Box::new(canonical_type(e))),
        TypeExpr::Tuple(es) => {
            let es2 = canonical_types(es);
            let r = TypeExpr::Tuple(es2);
            proof {
                assert(t@->Tuple_0 =~= types_model(es@));
                assert(r@->Tuple_0 =~= types_model(es2@));
            }
            r
        },
        TypeExpr::Paren(e) => TypeExpr::Paren(Box::new(canonical_type(e))),
        TypeExpr::Group(e) => TypeExpr::Group(Box::new(canonical_type(e))),
        TypeExpr::ImplTrait(bs) => TypeExpr::ImplTrait(sort_bounds(bs)),
        TypeExpr::TraitObject(bs) => TypeExpr::TraitObject(sort_bounds(bs)),
        TypeExpr::Macro(m) => TypeExpr::Macro(copy_target(m)),
        TypeExpr::Opaque(s) => TypeExpr::Opaque(s.clone()),
    }
}

/// The canonical form of each type expression of a list.
#[verifier::loop_isolation(false)]
pub fn canonical_types(ts: &Vec<TypeExpr>) -> (out: Vec<TypeExpr>)
    ensures
        types_model(out@) == canon_types(types_model(ts@)),
    decreases ts,
{
    let mut out: Vec<TypeExpr> = Vec::new();
    let mut i: usize = 0;
    while i < ts.len()
        invariant
            i <= ts.len(),
            out.len() == i,
            forall|k: int| 0 <= k < i ==> out[k]@ == canon_type(#[trigger] ts[k]@),
        decreases ts.len() - i,
    {
        let c = canonical_type(&ts[i]);
        out.push(c);
        i += 1;
    }
    assert(types_model(out@) =~= canon_types(types_model(ts@)));
    out
}

/// The canonical form of a member.
pub fn canonical_field(f: &Field) -> (r: Field)
    ensures
        r@ == canon_field(f@),
{
    Field { name: f.name.clone(), ty: canonical_type(&f.ty), span: Span::none() }
}

/// The canonical form of each member of a list.
pub fn canonical_members(fs: &Vec<Field>) -> (out: Vec<Field>)
    ensures
        members_model(out@) == canon_members(members_model(fs@)),
{
    let mut out: Vec<Field> = Vec::new();
    let mut i: usize = 0;
    while i < fs.len()
        invariant
            i <= fs.len(),
            out.len() == i,
            forall|k: int| 0 <= k < i ==> out[k]@ == canon_field(#[trigger] fs[k]@),
        decreases fs.len() - i,
    {
        let c = canonical_field(&fs[i]);
        out.push(c);
        i += 1;
    }
    assert(members_model(out@) =~= canon_members(members_model(fs@)));
    out
}

/// The canonical form of a member list.
pub fn canonical_fields(f: &Fields) -> (r: Fields)
    ensures
        r@ == canon_fields(f@),
{
    match f {
        Fields::Named(fs) => Fields::Named(canonical_members(fs)),
        Fields::Unnamed(ts) => Fields::Unnamed(canonical_types(ts)),
        Fields::Unit => Fields::Unit,
    }
}

/// The canonical form of a variant.
pub fn canonical_variant(v: &Variant) -> (r: Variant)
    ensures
        r@ == canon_variant(v@),
{
    Variant { name: v.name.clone(), fields: canonical_fields(&v.fields), span: Span::none() }
}

/// The canonical form of each variant of a list.
pub fn canonical_variants(vs: &Vec<Variant>) -> (out: Vec<Variant>)
    ensures
        variants_model(out@) == canon_variants(variants_model(vs@)),
{
    let mut out: Vec<Variant> = Vec::new();
    let mut i: usize = 0;
    while i < vs.len()
        invariant
            i <= vs.len(),
            out.len() == i,
            forall|k: int| 0 <= k < i ==> out[k]@ == canon_variant(#[trigger] vs[k]@),
        decreases vs.len() - i,
    {
        let c = canonical_variant(&vs[i]);
        out.push(c);
        i += 1;
    }
    assert(variants_model(out@) =~= canon_variants(variants_model(vs@)));
    out
}

/// The canonical form of a body.
pub fn canonical_body(b: &Body) -> (r: Body)
    ensures
        r@ == canon_body(b@),
{
    match b {
        Body::Function { params, ret } => Body::Function {
            params: canonical_members(params),
            ret: canonical_type(ret),
        },
        Body::Struct(f) => Body::Struct(canonical_fields(f)),
        Body::Union(f) => Body::Union(canonical_fields(f)),
        Body::Enum(vs) => Body::Enum(canonical_variants(vs)),
        Body::Const { ty, value } => Body::Const { ty: canonical_type(ty), value: value.clone() },
        Body::Static { ty, value } => Body::Static {
            ty: canonical_type(ty),
            value: value.clone(),
        },
        Body::TypeAlias(t) => Body::TypeAlias(canonical_type(t)),
        Body::Trait(bs) => Body::Trait(sort_bounds(bs)),
    }
}

/// Brings a declaration into canonical form. The result depends on what the
/// declaration says, not on where it stood or how its bounds were ordered.
pub fn canonicalize(d: &Declaration) -> (c: Declaration)
    ensures
        c@ == canon_decl(d@),
{
    Declaration { name: d.name.clone(), body: canonical_body(&d.body), span: Span::none() }
}

/// A bound list in canonical order stays as it is.
pub proof fn lemma_canon_bounds_twice(bs: Seq<BoundModel>)
    ensures
        canon_bounds(canon_bounds(bs)) == canon_bounds(bs),
{
    let once = canon_bounds(bs);
    lemma_bound_order_total();
    bs.lemma_sort_by_ensures(bound_leq());
    once.lemma_sort_by_ensures(bound_leq());
    lemma_sorted_unique(canon_bounds(once), once, bound_leq());
}

pub proof fn lemma_canon_type_twice(t: TypeModel)
    ensures
        canon_type(canon_type(t)) == canon_type(t),
    decreases t,
{
    match t {
        TypeModel::Path { target, args, span } => lemma_canon_types_twice(args),
        TypeModel::Reference { mutable, elem } => lemma_canon_type_twice(*elem),
        TypeModel::Array { elem, len } => lemma_canon_type_twice(*elem),
        TypeModel::Slice(e) => lemma_canon_type_twice(*e),
        TypeModel::Tuple(es) => lemma_canon_types_twice(es),
        TypeModel::Paren(e) => lemma_canon_type_twice(*e),
        TypeModel::Group(e) => lemma_canon_type_twice(*e),
        TypeModel::ImplTrait(bs) => lemma_canon_bounds_twice(bs),
        TypeModel::TraitObject(bs) => lemma_canon_bounds_twice(bs),
        TypeModel::Macro(m) => {},
        TypeModel::Opaque(_) => {},
    }
}

pub proof fn lemma_canon_types_twice(ts: Seq<TypeModel>)
    ensures
        canon_types(canon_types(ts)) == canon_types(ts),
    decreases ts,
{
    let a = canon_types(canon_types(ts));
    let b = canon_types(ts);
    assert forall|i: int| 0 <= i < ts.len() implies a[i] == b[i] by {
        lemma_canon_type_twice(ts[i]);
    }
    assert(a =~= b);
}

pub proof fn lemma_canon_members_twice(fs: Seq<FieldModel>)
    ensures
        canon_members(canon_members(fs)) == canon_members(fs),
{
    let a = canon_members(canon_members(fs));
    let b = canon_members(fs);
    assert forall|i: int| 0 <= i < fs.len() implies a[i] == b[i] by {
        lemma_canon_type_twice(fs[i].ty);
    }
    assert(a =~= b);
}

pub proof fn lemma_canon_fields_twice(f: FieldsModel)
    ensures
        canon_fields(canon_fields(f)) == canon_fields(f),
{
    match f {
        FieldsModel::Named(fs) => lemma_canon_members_twice(fs),
        FieldsModel::Unnamed(ts) => lemma_canon_types_twice(ts),
        FieldsModel::Unit => {},
    }
}

pub proof fn lemma_canon_variants_twice(vs: Seq<VariantModel>)
    ensures
        canon_variants(canon_variants(vs)) == canon_variants(vs),
{
    let a = canon_variants(canon_variants(vs));
    let b = canon_variants(vs);
    assert forall|i: int| 0 <= i < vs.len() implies a[i] == b[i] by {
        lemma_canon_fields_twice(vs[i].fields);
    }
    assert(a =~= b);
}

/// A canonical form stays as it is when it is brought into canonical form.
pub proof fn lemma_canon_body_twice(b: BodyModel)
    ensures
        canon_body(canon_body(b)) == canon_body(b),
{
    match b {
        BodyModel::Function { params, ret } => {
            lemma_canon_members_twice(params);
            lemma_canon_type_twice(ret);
        },
        BodyModel::Struct(f) => lemma_canon_fields_twice(f),
        BodyModel::Union(f) => lemma_canon_fields_twice(f),
        BodyModel::Enum(vs) => lemma_canon_variants_twice(vs),
        BodyModel::Const { ty, value } => lemma_canon_type_twice(ty),
        BodyModel::Static { ty, value } => lemma_canon_type_twice(ty),
        BodyModel::TypeAlias(t) => lemma_canon_type_twice(t),
        BodyModel::Trait(bs) => lemma_canon_bounds_twice(bs),
    }
}

} // verus!
