//! The byte form of a body, which is what gets hashed.
//!
//! Every node is written as a tag byte followed by its parts. A string is its
//! UTF-8 bytes and then the byte 0xFF, which UTF-8 never holds. A list is
//! each item with the byte 1 before it, and then the byte 0. Positions and
//! the declaration's own name are not written.

use crate::model::{
    bounds_model, members_model, types_model, variants_model, Body, BodyModel, Bound, BoundModel,
    Field, FieldModel, Fields, FieldsModel, Target, TargetModel, TypeExpr, TypeModel, Variant,
    VariantModel,
};
use vstd::prelude::*;
use vstd::string::*;
use vstd::utf8::*;

verus! {

/// The byte that ends a string.
pub open spec fn str_end() -> u8 {
    0xFFu8
}

/// The byte form of a string.
pub open spec fn enc_str(s: Seq<char>) -> Seq<u8> {
    encode_utf8(s).push(str_end())
}

/// The items of a list, each behind the byte 1.
pub open spec fn items(chunks: Seq<Seq<u8>>) -> Seq<u8>
    decreases chunks.len(),
{
    if chunks.len() == 0 {
        Seq::empty()
    } else {
        seq![1u8] + chunks[0] + items(chunks.drop_first())
    }
}

/// The byte form of a list with these items.
pub open spec fn enc_list(chunks: Seq<Seq<u8>>) -> Seq<u8> {
    items(chunks).push(0u8)
}

/// The byte form of a reference: a name or a digest.
pub open spec fn enc_target(t: TargetModel) -> Seq<u8> {
    match t {
        TargetModel::Name(n) => seq![0u8] + enc_str(n),
        TargetModel::Digest(d) => seq![1u8] + enc_str(d),
    }
}

/// The byte form of a bound.
pub open spec fn enc_bound(b: BoundModel) -> Seq<u8> {
    match b {
        BoundModel::Trait(t) => seq![0u8] + enc_target(t),
        BoundModel::Lifetime(t) => seq![1u8] + enc_target(t),
    }
}

/// The byte form of each bound of a list.
pub open spec fn bound_chunks(bs: Seq<BoundModel>) -> Seq<Seq<u8>> {
    Seq::new(bs.len(), |i: int| enc_bound(bs[i]))
}

/// The byte form of a bound list.
pub open spec fn enc_bounds(bs: Seq<BoundModel>) -> Seq<u8> {
    enc_list(bound_chunks(bs))
}

/// The byte form of a flag.
pub open spec fn enc_flag(b: bool) -> Seq<u8> {
    if b {
        seq![1u8]
    } else {
        seq![0u8]
    }
}

/// The byte form of a type expression.
pub open spec fn enc_type(t: TypeModel) -> Seq<u8>
    decreases t,
{
    match t {
        TypeModel::Path { target, args, span } => seq![0u8] + enc_target(target) + enc_list(
            type_chunks(args),
        ),
        TypeModel::Reference { mutable, elem } => seq![1u8] + enc_flag(mutable) + enc_type(*elem),
        TypeModel::Array { elem, len } => seq![2u8] + enc_str(len) + enc_type(*elem),
        TypeModel::Slice(e) => seq![3u8] + enc_type(*e),
        TypeModel::Tuple(es) => seq![4u8] + enc_list(type_chunks(es)),
        TypeModel::Paren(e) => seq![5u8] + enc_type(*e),
        TypeModel::Group(e) => seq![6u8] + enc_type(*e),
        TypeModel::ImplTrait(bs) => seq![7u8] + enc_bounds(bs),
        TypeModel::TraitObject(bs) => seq![8u8] + enc_bounds(bs),
        TypeModel::Macro(t) => seq![9u8] + enc_target(t),
        TypeModel::Opaque(s) => seq![10u8] + enc_str(s),
    }
}

/// The byte form of each type of a list.
pub open spec fn type_chunks(ts: Seq<TypeModel>) -> Seq<Seq<u8>>
    decreases ts,
{
    Seq::new(
        ts.len(),
        |i: int|
            if 0 <= i < ts.len() {
                enc_type(ts[i])
            } else {
                Seq::empty()
            },
    )
}

/// The byte form of a list of type expressions.
pub open spec fn enc_types(ts: Seq<TypeModel>) -> Seq<u8> {
    enc_list(type_chunks(ts))
}

/// The byte form of a member.
pub open spec fn enc_field(f: FieldModel) -> Seq<u8> {
    enc_str(f.name) + enc_type(f.ty)
}

/// The byte form of each member of a list.
pub open spec fn member_chunks(fs: Seq<FieldModel>) -> Seq<Seq<u8>> {
    Seq::new(fs.len(), |i: int| enc_field(fs[i]))
}

/// The byte form of a list of members.
pub open spec fn enc_members(fs: Seq<FieldModel>) -> Seq<u8> {
    enc_list(member_chunks(fs))
}

/// The byte form of a member list.
pub open spec fn enc_fields(f: FieldsModel) -> Seq<u8> {
    match f {
        FieldsModel::Named(fs) => seq![0u8] + enc_members(fs),
        FieldsModel::Unnamed(ts) => seq![1u8] + enc_types(ts),
        FieldsModel::Unit => seq![2u8],
    }
}

/// The byte form of a variant.
pub open spec fn enc_variant(v: VariantModel) -> Seq<u8> {
    enc_str(v.name) + enc_fields(v.fields)
}

/// The byte form of each variant of a list.
pub open spec fn variant_chunks(vs: Seq<VariantModel>) -> Seq<Seq<u8>> {
    Seq::new(vs.len(), |i: int| enc_variant(vs[i]))
}

/// The byte form of a list of variants.
pub open spec fn enc_variants(vs: Seq<VariantModel>) -> Seq<u8> {
    enc_list(variant_chunks(vs))
}

/// The bytes that stand for a body. The kind is part of them, the
/// declaration's name and all positions are not.
pub open spec fn enc_body(b: BodyModel) -> Seq<u8> {
    match b {
        BodyModel::Function { params, ret } => seq![0u8] + enc_members(params) + enc_type(ret),
        BodyModel::Struct(f) => seq![1u8] + enc_fields(f),
        BodyModel::Union(f) => seq![2u8] + enc_fields(f),
        BodyModel::Enum(vs) => seq![3u8] + enc_variants(vs),
        BodyModel::Const { ty, value } => seq![4u8] + enc_type(ty) + enc_str(value),
        BodyModel::Static { ty, value } => seq![5u8] + enc_type(ty) + enc_str(value),
        BodyModel::TypeAlias(t) => seq![6u8] + enc_type(t),
        BodyModel::Trait(bs) => seq![7u8] + enc_bounds(bs),
    }
}

/// One more item at the end of a list is one more item at the end of its bytes.
pub proof fn lemma_items_push(chunks: Seq<Seq<u8>>, last: Seq<u8>)
    ensures
        items(chunks.push(last)) == items(chunks) + seq![1u8] + last,
    decreases chunks.len(),
{
    if chunks.len() == 0 {
        let one = chunks.push(last);
        assert(one.drop_first() =~= Seq::<Seq<u8>>::empty());
        assert(items(one) == seq![1u8] + one[0] + items(one.drop_first()));
        assert(items(one.drop_first()) =~= Seq::<u8>::empty());
        assert(items(one) =~= items(chunks) + seq![1u8] + last);
    } else {
        assert(chunks.push(last).drop_first() =~= chunks.drop_first().push(last));
        lemma_items_push(chunks.drop_first(), last);
        assert(items(chunks.push(last)) =~= items(chunks) + seq![1u8] + last);
    }
}

/// Appends the byte form of a string.
pub fn put_str(s: &str, out: &mut Vec<u8>)
    ensures
        final(out)@ == old(out)@ + enc_str(s@),
{
    let mut bytes = s.as_bytes_vec();
    out.append(&mut bytes);
    out.push(0xFFu8);
    assert(out@ =~= old(out)@ + enc_str(s@));
}

/// Appends the byte form of a reference.
pub fn put_target(t: &Target, out: &mut Vec<u8>)
    ensures
        final(out)@ == old(out)@ + enc_target(t@),
{
    match t {
        Target::Name(n) => {
            out.push(0u8);
            put_str(n.as_str(), out);
        },
        Target::Digest(d) => {
            out.push(1u8);
            put_str(d.as_str(), out);
        },
    }
    assert(out@ =~= old(out)@ + enc_target(t@));
}

/// Appends the byte form of a bound.
pub fn put_bound(b: &Bound, out: &mut Vec<u8>)
    ensures
        final(out)@ == old(out)@ + enc_bound(b@),
{
    match b {
        Bound::Trait(t) => {
            out.push(0u8);
            put_target(t, out);
        },
        Bound::Lifetime(t) => {
            out.push(1u8);
            put_target(t, out);
        },
    }
    assert(out@ =~= old(out)@ + enc_bound(b@));
}

/// Appends the byte form of a bound list.
pub fn put_bounds(bs: &Vec<Bound>, out: &mut Vec<u8>)
    ensures
        final(out)@ == old(out)@ + enc_bounds(bounds_model(bs@)),
{
    let ghost chunks = bound_chunks(bounds_model(bs@));
    let mut i: usize = 0;
    while i < bs.len()
        invariant
            i <= bs.len(),
            chunks == bound_chunks(bounds_model(bs@)),
            out@ == old(out)@ + items(chunks.take(i as int)),
        decreases bs.len() - i,
    {
        out.push(1u8);
        put_bound(&bs[i], out);
        proof {
            lemma_items_push(chunks.take(i as int), chunks[i as int]);
            assert(chunks.take(i as int + 1) =~= chunks.take(i as int).push(chunks[i as int]));
            assert(out@ =~= old(out)@ + items(chunks.take(i as int + 1)));
        }
        i += 1;
    }
    out.push(0u8);
    proof {
        assert(chunks.take(bs.len() as int) =~= chunks);
        assert(out@ =~= old(out)@ + enc_bounds(bounds_model(bs@)));
    }
}

#[verifier::loop_isolation(false)]
/// Appends the byte form of a type expression.
pub fn put_type(t: &TypeExpr, out: &mut Vec<u8>)
    ensures
        final(out)@ == old(out)@ + enc_type(t@),
    decreases t,
{
    match t {
        TypeExpr::Path { target, args, span } => {
            out.push(0u8);
            put_target(target, out);
            put_types(args, out);
            assert(t@->Path_args =~= types_model(args@));
        },
        TypeExpr::Reference { mutable, elem } => {
            out.push(1u8);
            if *mutable {
                out.push(1u8);
            } else {
                out.push(0u8);
            }
            put_type(elem, out);
        },
        TypeExpr::Array { elem, len } => {
            out.push(2u8);
            put_str(len.as_str(), out);
            put_type(elem, out);
        },
        TypeExpr::Slice(e) => {
            out.push(3u8);
            put_type(e, out);
        },
        TypeExpr::Tuple(es) => {
            out.push(4u8);
            put_types(es, out);
            assert(t@->Tuple_0 =~= types_model(es@));
        },
        TypeExpr::Paren(e) => {
            out.push(5u8);
            put_type(e, out);
        },
        TypeExpr::Group(e) => {
            out.push(6u8);
            put_type(e, out);
        },
        TypeExpr::ImplTrait(bs) => {
            out.push(7u8);
            put_bounds(bs, out);
        },
        TypeExpr::TraitObject(bs) => {
            out.push(8u8);
            put_bounds(bs, out);
        },
        TypeExpr::Macro(m) => {
            out.push(9u8);
            put_target(m, out);
        },
        TypeExpr::Opaque(s) => {
            out.push(10u8);
            put_str(s.as_str(), out);
        },
    }
    assert(out@ =~= old(out)@ + enc_type(t@));
}

#[verifier::loop_isolation(false)]
/// Appends the byte form of a list of type expressions.
pub fn put_types(ts: &Vec<TypeExpr>, out: &mut Vec<u8>)
    ensures
        final(out)@ == old(out)@ + enc_types(types_model(ts@)),
    decreases ts,
{
    let ghost chunks = type_chunks(types_model(ts@));
    let mut i: usize = 0;
    while i < ts.len()
        invariant
            i <= ts.len(),
            out@ == old(out)@ + items(chunks.take(i as int)),
        decreases ts.len() - i,
    {
        out.push(1u8);
        put_type(&ts[i], out);
        proof {
            lemma_items_push(chunks.take(i as int), chunks[i as int]);
            assert(chunks.take(i as int + 1) =~= chunks.take(i as int).push(chunks[i as int]));
            assert(out@ =~= old(out)@ + items(chunks.take(i as int + 1)));
        }
        i += 1;
    }
    out.push(0u8);
    proof {
        assert(chunks.take(ts.len() as int) =~= chunks);
        assert(out@ =~= old(out)@ + enc_types(types_model(ts@)));
    }
}

/// Appends the byte form of a member.
pub fn put_field(f: &Field, out: &mut Vec<u8>)
    ensures
        final(out)@ == old(out)@ + enc_field(f@),
{
    put_str(f.name.as_str(), out);
    put_type(&f.ty, out);
    assert(out@ =~= old(out)@ + enc_field(f@));
}

/// Appends the byte form of a list of members.
pub fn put_members(fs: &Vec<Field>, out: &mut Vec<u8>)
    ensures
        final(out)@ == old(out)@ + enc_members(members_model(fs@)),
{
    let ghost chunks = member_chunks(members_model(fs@));
    let mut i: usize = 0;
    while i < fs.len()
        invariant
            i <= fs.len(),
            chunks == member_chunks(members_model(fs@)),
            out@ == old(out)@ + items(chunks.take(i as int)),
        decreases fs.len() - i,
    {
        out.push(1u8);
        put_field(&fs[i], out);
        proof {
            lemma_items_push(chunks.take(i as int), chunks[i as int]);
            assert(chunks.take(i as int + 1) =~= chunks.take(i as int).push(chunks[i as int]));
            assert(out@ =~= old(out)@ + items(chunks.take(i as int + 1)));
        }
        i += 1;
    }
    out.push(0u8);
    proof {
        assert(chunks.take(fs.len() as int) =~= chunks);
        assert(out@ =~= old(out)@ + enc_members(members_model(fs@)));
    }
}

/// Appends the byte form of a member list.
pub fn put_fields(f: &Fields, out: &mut Vec<u8>)
    ensures
        final(out)@ == old(out)@ + enc_fields(f@),
{
    match f {
        Fields::Named(fs) => {
            out.push(0u8);
            put_members(fs, out);
        },
        Fields::Unnamed(ts) => {
            out.push(1u8);
            put_types(ts, out);
        },
        Fields::Unit => {
            out.push(2u8);
        },
    }
    assert(out@ =~= old(out)@ + enc_fields(f@));
}

/// Appends the byte form of a variant.
pub fn put_variant(v: &Variant, out: &mut Vec<u8>)
    ensures
        final(out)@ == old(out)@ + enc_variant(v@),
{
    put_str(v.name.as_str(), out);
    put_fields(&v.fields, out);
    assert(out@ =~= old(out)@ + enc_variant(v@));
}

/// Appends the byte form of a list of variants.
pub fn put_variants(vs: &Vec<Variant>, out: &mut Vec<u8>)
    ensures
        final(out)@ == old(out)@ + enc_variants(variants_model(vs@)),
{
    let ghost chunks = variant_chunks(variants_model(vs@));
    let mut i: usize = 0;
    while i < vs.len()
        invariant
            i <= vs.len(),
            chunks == variant_chunks(variants_model(vs@)),
            out@ == old(out)@ + items(chunks.take(i as int)),
        decreases vs.len() - i,
    {
        out.push(1u8);
        put_variant(&vs[i], out);
        proof {
            lemma_items_push(chunks.take(i as int), chunks[i as int]);
            assert(chunks.take(i as int + 1) =~= chunks.take(i as int).push(chunks[i as int]));
            assert(out@ =~= old(out)@ + items(chunks.take(i as int + 1)));
        }
        i += 1;
    }
    out.push(0u8);
    proof {
        assert(chunks.take(vs.len() as int) =~= chunks);
        assert(out@ =~= old(out)@ + enc_variants(variants_model(vs@)));
    }
}

/// Writes a body out as the bytes that its digest is taken of.
pub fn serialize(b: &Body) -> (out: Vec<u8>)
    ensures
        out@ == enc_body(b@),
{
    let mut out: Vec<u8> = Vec::new();
    match b {
        Body::Function { params, ret } => {
            out.push(0u8);
            put_members(params, &mut out);
            put_type(ret, &mut out);
        },
        Body::Struct(f) => {
            out.push(1u8);
            put_fields(f, &mut out);
        },
        Body::Union(f) => {
            out.push(2u8);
            put_fields(f, &mut out);
        },
        Body::Enum(vs) => {
            out.push(3u8);
            put_variants(vs, &mut out);
        },
        Body::Const { ty, value } => {
            out.push(4u8);
            put_type(ty, &mut out);
            put_str(value.as_str(), &mut out);
        },
        Body::Static { ty, value } => {
            out.push(5u8);
            put_type(ty, &mut out);
            put_str(value.as_str(), &mut out);
        },
        Body::TypeAlias(t) => {
            out.push(6u8);
            put_type(t, &mut out);
        },
        Body::Trait(bs) => {
            out.push(7u8);
            put_bounds(bs, &mut out);
        },
    }
    assert(out@ =~= enc_body(b@));
    out
}

} // verus!
