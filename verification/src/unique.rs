//! The byte form tells values apart: what was written can be read back in
//! one way only.

use crate::canon::{
    canon_body, canon_bounds, canon_field, canon_fields, canon_members, canon_type, canon_types,
    canon_variant, canon_variants,
};
use crate::encode::{
    bound_chunks, enc_body, enc_bound, enc_bounds, enc_field, enc_fields, enc_flag, enc_list,
    enc_members, enc_str, enc_target, enc_type, enc_types, enc_variant, enc_variants, items,
    member_chunks, str_end, type_chunks, variant_chunks,
};
use crate::model::{
    BodyModel, BoundModel, FieldModel, FieldsModel, TargetModel, TypeModel, VariantModel,
};
use vstd::prelude::*;
use vstd::utf8::*;

verus! {

proof fn lemma_scalar_below_end(c: u32)
    ensures
        forall|i: int| 0 <= i < encode_scalar(c).len() ==> encode_scalar(c)[i] != 0xFFu8,
{
    assert((c & 0x7F) as u8 != 0xFFu8) by (bit_vector);
    assert((0xC0u8 | ((c >> 6) & 0x1F) as u8) != 0xFFu8) by (bit_vector);
    assert((0xE0u8 | ((c >> 12) & 0x0F) as u8) != 0xFFu8) by (bit_vector);
    assert((0xF0u8 | ((c >> 18) & 0x7) as u8) != 0xFFu8) by (bit_vector);
    assert((0x80u8 | (c & 0x3F) as u8) != 0xFFu8) by (bit_vector);
    assert((0x80u8 | ((c >> 6) & 0x3F) as u8) != 0xFFu8) by (bit_vector);
    assert((0x80u8 | ((c >> 12) & 0x3F) as u8) != 0xFFu8) by (bit_vector);
}

/// No byte of a UTF-8 string is the byte that ends a string.
pub proof fn lemma_utf8_below_end(s: Seq<char>)
    ensures
        forall|i: int| 0 <= i < encode_utf8(s).len() ==> encode_utf8(s)[i] != str_end(),
    decreases s.len(),
{
    if s.len() > 0 {
        lemma_scalar_below_end(s[0] as u32);
        lemma_utf8_below_end(s.drop_first());
        let head = encode_scalar(s[0] as u32);
        let tail = encode_utf8(s.drop_first());
        assert(encode_utf8(s) == head + tail);
        assert forall|i: int| 0 <= i < encode_utf8(s).len() implies encode_utf8(s)[i]
            != str_end() by {
            if i < head.len() {
                assert(encode_utf8(s)[i] == head[i]);
            } else {
                assert(encode_utf8(s)[i] == tail[i - head.len()]);
            }
        }
    }
}

/// Two strings whose byte forms start the same text are the same string,
/// and what follows them is the same.
pub proof fn lemma_str_unique(a: Seq<char>, b: Seq<char>, r1: Seq<u8>, r2: Seq<u8>)
    requires
        enc_str(a) + r1 == enc_str(b) + r2,
    ensures
        a == b,
        r1 == r2,
{
    let x = encode_utf8(a);
    let y = encode_utf8(b);
    let w1 = enc_str(a) + r1;
    let w2 = enc_str(b) + r2;
    lemma_utf8_below_end(a);
    lemma_utf8_below_end(b);
    assert(w1[x.len() as int] == str_end());
    assert(w2[y.len() as int] == str_end());
    if x.len() < y.len() {
        assert(w2[x.len() as int] == y[x.len() as int]);
        assert(false);
    }
    if y.len() < x.len() {
        assert(w1[y.len() as int] == x[y.len() as int]);
        assert(false);
    }
    assert forall|i: int| 0 <= i < x.len() implies x[i] == y[i] by {
        assert(w1[i] == x[i]);
        assert(w2[i] == y[i]);
    }
    assert(x =~= y);
    encode_utf8_decode_utf8(a);
    encode_utf8_decode_utf8(b);
    assert(r1.len() == r2.len()) by {
        assert(w1.len() == x.len() + 1 + r1.len());
        assert(w2.len() == y.len() + 1 + r2.len());
    }
    assert forall|i: int| 0 <= i < r1.len() implies r1[i] == r2[i] by {
        assert(w1[x.len() + 1 + i] == r1[i]);
        assert(w2[y.len() + 1 + i] == r2[i]);
    }
    assert(r1 =~= r2);
}

pub proof fn lemma_target_unique(a: TargetModel, b: TargetModel, r1: Seq<u8>, r2: Seq<u8>)
    requires
        enc_target(a) + r1 == enc_target(b) + r2,
    ensures
        a == b,
        r1 == r2,
{
    let w1 = enc_target(a) + r1;
    let w2 = enc_target(b) + r2;
    assert(w1[0] == w2[0]);
    assert(w1[0] == enc_target(a)[0]);
    assert(w2[0] == enc_target(b)[0]);
    let na = match a {
        TargetModel::Name(n) => n,
        TargetModel::Digest(n) => n,
    };
    let nb = match b {
        TargetModel::Name(n) => n,
        TargetModel::Digest(n) => n,
    };
    assert(w1.drop_first() =~= enc_str(na) + r1);
    assert(w2.drop_first() =~= enc_str(nb) + r2);
    lemma_str_unique(na, nb, r1, r2);
}

pub proof fn lemma_bound_unique(a: BoundModel, b: BoundModel, r1: Seq<u8>, r2: Seq<u8>)
    requires
        enc_bound(a) + r1 == enc_bound(b) + r2,
    ensures
        a == b,
        r1 == r2,
{
    let w1 = enc_bound(a) + r1;
    let w2 = enc_bound(b) + r2;
    assert(w1[0] == w2[0]);
    assert(w1[0] == enc_bound(a)[0]);
    assert(w2[0] == enc_bound(b)[0]);
    let ta = match a {
        BoundModel::Trait(t) => t,
        BoundModel::Lifetime(t) => t,
    };
    let tb = match b {
        BoundModel::Trait(t) => t,
        BoundModel::Lifetime(t) => t,
    };
    assert(w1.drop_first() =~= enc_target(ta) + r1);
    assert(w2.drop_first() =~= enc_target(tb) + r2);
    lemma_target_unique(ta, tb, r1, r2);
}

/// Two texts that start with one byte each and go on: the bytes are the
/// same and so is what follows.
pub proof fn lemma_head(x: u8, a: Seq<u8>, y: u8, b: Seq<u8>)
    requires
        seq![x] + a == seq![y] + b,
    ensures
        x == y,
        a == b,
{
    let w1 = seq![x] + a;
    let w2 = seq![y] + b;
    assert(w1[0] == x);
    assert(w2[0] == y);
    assert(a =~= w1.drop_first());
    assert(b =~= w2.drop_first());
}

proof fn lemma_flag_unique(a: bool, b: bool, r1: Seq<u8>, r2: Seq<u8>)
    requires
        enc_flag(a) + r1 == enc_flag(b) + r2,
    ensures
        a == b,
        r1 == r2,
{
    let x: u8 = if a { 1 } else { 0 };
    let y: u8 = if b { 1 } else { 0 };
    assert(enc_flag(a) =~= seq![x]);
    assert(enc_flag(b) =~= seq![y]);
    lemma_head(x, r1, y, r2);
}

/// The lists of bounds are the same where their byte forms start the same
/// text.
pub proof fn lemma_bounds_unique(a: Seq<BoundModel>, b: Seq<BoundModel>, r1: Seq<u8>, r2: Seq<u8>)
    requires
        enc_bounds(a) + r1 == enc_bounds(b) + r2,
    ensures
        a == b,
        r1 == r2,
    decreases a.len(),
{
    let ca = bound_chunks(a);
    let cb = bound_chunks(b);
    if a.len() == 0 {
        assert(items(ca) =~= Seq::<u8>::empty());
        assert(enc_bounds(a) + r1 =~= seq![0u8] + r1);
        if b.len() == 0 {
            assert(items(cb) =~= Seq::<u8>::empty());
            assert(enc_bounds(b) + r2 =~= seq![0u8] + r2);
            lemma_head(0u8, r1, 0u8, r2);
            assert(a =~= b);
        } else {
            assert(enc_bounds(b) + r2 =~= seq![1u8] + (cb[0] + items(cb.drop_first()) + seq![0u8]
                + r2));
            lemma_head(0u8, r1, 1u8, cb[0] + items(cb.drop_first()) + seq![0u8] + r2);
        }
    } else {
        let ta = items(ca.drop_first()) + seq![0u8] + r1;
        assert(enc_bounds(a) + r1 =~= seq![1u8] + (ca[0] + ta));
        if b.len() == 0 {
            assert(items(cb) =~= Seq::<u8>::empty());
            assert(enc_bounds(b) + r2 =~= seq![0u8] + r2);
            lemma_head(1u8, ca[0] + ta, 0u8, r2);
        } else {
            let tb = items(cb.drop_first()) + seq![0u8] + r2;
            assert(enc_bounds(b) + r2 =~= seq![1u8] + (cb[0] + tb));
            lemma_head(1u8, ca[0] + ta, 1u8, cb[0] + tb);
            lemma_bound_unique(a[0], b[0], ta, tb);
            assert(ca.drop_first() =~= bound_chunks(a.drop_first()));
            assert(cb.drop_first() =~= bound_chunks(b.drop_first()));
            assert(enc_bounds(a.drop_first()) + r1 =~= ta);
            assert(enc_bounds(b.drop_first()) + r2 =~= tb);
            lemma_bounds_unique(a.drop_first(), b.drop_first(), r1, r2);
            assert(a =~= seq![a[0]] + a.drop_first());
            assert(b =~= seq![b[0]] + b.drop_first());
        }
    }
}

/// The tag byte of a type expression.
pub open spec fn type_tag(t: TypeModel) -> u8 {
    match t {
        TypeModel::Path { .. } => 0,
        TypeModel::Reference { .. } => 1,
        TypeModel::Array { .. } => 2,
        TypeModel::Slice(_) => 3,
        TypeModel::Tuple(_) => 4,
        TypeModel::Paren(_) => 5,
        TypeModel::Group(_) => 6,
        TypeModel::ImplTrait(_) => 7,
        TypeModel::TraitObject(_) => 8,
        TypeModel::Macro(_) => 9,
        TypeModel::Opaque(_) => 10,
    }
}

/// What follows the tag byte of a type expression.
pub open spec fn type_rest(t: TypeModel) -> Seq<u8> {
    match t {
        TypeModel::Path { target, args, span } => enc_target(target) + enc_types(args),
        TypeModel::Reference { mutable, elem } => enc_flag(mutable) + enc_type(*elem),
        TypeModel::Array { elem, len } => enc_str(len) + enc_type(*elem),
        TypeModel::Slice(e) => enc_type(*e),
        TypeModel::Tuple(es) => enc_types(es),
        TypeModel::Paren(e) => enc_type(*e),
        TypeModel::Group(e) => enc_type(*e),
        TypeModel::ImplTrait(bs) => enc_bounds(bs),
        TypeModel::TraitObject(bs) => enc_bounds(bs),
        TypeModel::Macro(t) => enc_target(t),
        TypeModel::Opaque(s) => enc_str(s),
    }
}

proof fn lemma_type_parts(t: TypeModel)
    ensures
        enc_type(t) == seq![type_tag(t)] + type_rest(t),
{
    assert(enc_type(t) =~= seq![type_tag(t)] + type_rest(t));
}

/// Two type expressions whose byte forms start the same text have the same
/// canonical form, and what follows them is the same.
pub proof fn lemma_type_unique(a: TypeModel, b: TypeModel, r1: Seq<u8>, r2: Seq<u8>)
    requires
        enc_type(a) + r1 == enc_type(b) + r2,
    ensures
        canon_type(a) == canon_type(b),
        r1 == r2,
    decreases a,
{
    lemma_type_parts(a);
    lemma_type_parts(b);
    let xa = type_rest(a) + r1;
    let xb = type_rest(b) + r2;
    assert(enc_type(a) + r1 =~= seq![type_tag(a)] + xa);
    assert(enc_type(b) + r2 =~= seq![type_tag(b)] + xb);
    lemma_head(type_tag(a), xa, type_tag(b), xb);
    match a {
        TypeModel::Path { target, args, span } => {
            let tb = b->Path_target;
            let ab = b->Path_args;
            assert(xa =~= enc_target(target) + (enc_types(args) + r1));
            assert(xb =~= enc_target(tb) + (enc_types(ab) + r2));
            lemma_target_unique(target, tb, enc_types(args) + r1, enc_types(ab) + r2);
            lemma_types_unique(args, ab, r1, r2);
        },
        TypeModel::Reference { mutable, elem } => {
            let mb = b->Reference_mutable;
            let eb = b->Reference_elem;
            assert(xa =~= enc_flag(mutable) + (enc_type(*elem) + r1));
            assert(xb =~= enc_flag(mb) + (enc_type(*eb) + r2));
            lemma_flag_unique(mutable, mb, enc_type(*elem) + r1, enc_type(*eb) + r2);
            lemma_type_unique(*elem, *eb, r1, r2);
        },
        TypeModel::Array { elem, len } => {
            let lb = b->Array_len;
            let eb = b->Array_elem;
            assert(xa =~= enc_str(len) + (enc_type(*elem) + r1));
            assert(xb =~= enc_str(lb) + (enc_type(*eb) + r2));
            lemma_str_unique(len, lb, enc_type(*elem) + r1, enc_type(*eb) + r2);
            lemma_type_unique(*elem, *eb, r1, r2);
        },
        TypeModel::Slice(e) => {
            lemma_type_unique(*e, *b->Slice_0, r1, r2);
        },
        TypeModel::Tuple(es) => {
            lemma_types_unique(es, b->Tuple_0, r1, r2);
        },
        TypeModel::Paren(e) => {
            lemma_type_unique(*e, *b->Paren_0, r1, r2);
        },
        TypeModel::Group(e) => {
            lemma_type_unique(*e, *b->Group_0, r1, r2);
        },
        TypeModel::ImplTrait(bs) => {
            lemma_bounds_unique(bs, b->ImplTrait_0, r1, r2);
        },
        TypeModel::TraitObject(bs) => {
            lemma_bounds_unique(bs, b->TraitObject_0, r1, r2);
        },
        TypeModel::Macro(t) => {
            lemma_target_unique(t, b->Macro_0, r1, r2);
        },
        TypeModel::Opaque(s) => {
            lemma_str_unique(s, b->Opaque_0, r1, r2);
        },
    }
}

pub proof fn lemma_types_unique(a: Seq<TypeModel>, b: Seq<TypeModel>, r1: Seq<u8>, r2: Seq<u8>)
    requires
        enc_types(a) + r1 == enc_types(b) + r2,
    ensures
        canon_types(a) == canon_types(b),
        r1 == r2,
    decreases a, a.len(),
{
    let ca = type_chunks(a);
    let cb = type_chunks(b);
    if a.len() == 0 {
        assert(items(ca) =~= Seq::<u8>::empty());
        assert(enc_types(a) + r1 =~= seq![0u8] + r1);
        if b.len() == 0 {
            assert(items(cb) =~= Seq::<u8>::empty());
            assert(enc_types(b) + r2 =~= seq![0u8] + r2);
            lemma_head(0u8, r1, 0u8, r2);
            assert(canon_types(a) =~= canon_types(b));
        } else {
            assert(enc_types(b) + r2 =~= seq![1u8] + (cb[0] + items(cb.drop_first()) + seq![0u8]
                + r2));
            lemma_head(0u8, r1, 1u8, cb[0] + items(cb.drop_first()) + seq![0u8] + r2);
        }
    } else {
        let ta = items(ca.drop_first()) + seq![0u8] + r1;
        assert(enc_types(a) + r1 =~= seq![1u8] + (ca[0] + ta));
        if b.len() == 0 {
            assert(items(cb) =~= Seq::<u8>::empty());
            assert(enc_types(b) + r2 =~= seq![0u8] + r2);
            lemma_head(1u8, ca[0] + ta, 0u8, r2);
        } else {
            let tb = items(cb.drop_first()) + seq![0u8] + r2;
            assert(enc_types(b) + r2 =~= seq![1u8] + (cb[0] + tb));
            lemma_head(1u8, ca[0] + ta, 1u8, cb[0] + tb);
            lemma_type_unique(a[0], b[0], ta, tb);
            assert(ca.drop_first() =~= type_chunks(a.drop_first()));
            assert(cb.drop_first() =~= type_chunks(b.drop_first()));
            assert(enc_types(a.drop_first()) + r1 =~= ta);
            assert(enc_types(b.drop_first()) + r2 =~= tb);
            lemma_types_unique(a.drop_first(), b.drop_first(), r1, r2);
            let x = canon_types(a);
            let y = canon_types(b);
            let x1 = canon_types(a.drop_first());
            let y1 = canon_types(b.drop_first());
            assert(x.len() == x1.len() + 1);
            assert(y.len() == y1.len() + 1);
            assert forall|i: int| 0 <= i < x.len() implies x[i] == y[i] by {
                if i > 0 {
                    assert(x[i] == x1[i - 1]);
                    assert(y[i] == y1[i - 1]);
                }
            }
            assert(x =~= y);
        }
    }
}

pub proof fn lemma_field_unique(a: FieldModel, b: FieldModel, r1: Seq<u8>, r2: Seq<u8>)
    requires
        enc_field(a) + r1 == enc_field(b) + r2,
    ensures
        canon_field(a) == canon_field(b),
        r1 == r2,
{
    assert(enc_field(a) + r1 =~= enc_str(a.name) + (enc_type(a.ty) + r1));
    assert(enc_field(b) + r2 =~= enc_str(b.name) + (enc_type(b.ty) + r2));
    lemma_str_unique(a.name, b.name, enc_type(a.ty) + r1, enc_type(b.ty) + r2);
    lemma_type_unique(a.ty, b.ty, r1, r2);
}

pub proof fn lemma_members_unique(a: Seq<FieldModel>, b: Seq<FieldModel>, r1: Seq<u8>, r2: Seq<u8>)
    requires
        enc_members(a) + r1 == enc_members(b) + r2,
    ensures
        canon_members(a) == canon_members(b),
        r1 == r2,
    decreases a.len(),
{
    let ca = member_chunks(a);
    let cb = member_chunks(b);
    if a.len() == 0 {
        assert(items(ca) =~= Seq::<u8>::empty());
        assert(enc_members(a) + r1 =~= seq![0u8] + r1);
        if b.len() == 0 {
            assert(items(cb) =~= Seq::<u8>::empty());
            assert(enc_members(b) + r2 =~= seq![0u8] + r2);
            lemma_head(0u8, r1, 0u8, r2);
            assert(canon_members(a) =~= canon_members(b));
        } else {
            assert(enc_members(b) + r2 =~= seq![1u8] + (cb[0] + items(cb.drop_first()) + seq![0u8]
                + r2));
            lemma_head(0u8, r1, 1u8, cb[0] + items(cb.drop_first()) + seq![0u8] + r2);
        }
    } else {
        let ta = items(ca.drop_first()) + seq![0u8] + r1;
        assert(enc_members(a) + r1 =~= seq![1u8] + (ca[0] + ta));
        if b.len() == 0 {
            assert(items(cb) =~= Seq::<u8>::empty());
            assert(enc_members(b) + r2 =~= seq![0u8] + r2);
            lemma_head(1u8, ca[0] + ta, 0u8, r2);
        } else {
            let tb = items(cb.drop_first()) + seq![0u8] + r2;
            assert(enc_members(b) + r2 =~= seq![1u8] + (cb[0] + tb));
            lemma_head(1u8, ca[0] + ta, 1u8, cb[0] + tb);
            lemma_field_unique(a[0], b[0], ta, tb);
            assert(ca.drop_first() =~= member_chunks(a.drop_first()));
            assert(cb.drop_first() =~= member_chunks(b.drop_first()));
            assert(enc_members(a.drop_first()) + r1 =~= ta);
            assert(enc_members(b.drop_first()) + r2 =~= tb);
            lemma_members_unique(a.drop_first(), b.drop_first(), r1, r2);
            let x = canon_members(a);
            let y = canon_members(b);
            let x1 = canon_members(a.drop_first());
            let y1 = canon_members(b.drop_first());
            assert(x.len() == x1.len() + 1);
            assert(y.len() == y1.len() + 1);
            assert forall|i: int| 0 <= i < x.len() implies x[i] == y[i] by {
                if i > 0 {
                    assert(x[i] == x1[i - 1]);
                    assert(y[i] == y1[i - 1]);
                }
            }
            assert(x =~= y);
        }
    }
}

/// The tag byte of a field list.
pub open spec fn fields_tag(f: FieldsModel) -> u8 {
    match f {
        FieldsModel::Named(_) => 0,
        FieldsModel::Unnamed(_) => 1,
        FieldsModel::Unit => 2,
    }
}

pub open spec fn fields_rest(f: FieldsModel) -> Seq<u8> {
    match f {
        FieldsModel::Named(fs) => enc_members(fs),
        FieldsModel::Unnamed(ts) => enc_types(ts),
        FieldsModel::Unit => Seq::empty(),
    }
}

pub proof fn lemma_fields_unique(a: FieldsModel, b: FieldsModel, r1: Seq<u8>, r2: Seq<u8>)
    requires
        enc_fields(a) + r1 == enc_fields(b) + r2,
    ensures
        canon_fields(a) == canon_fields(b),
        r1 == r2,
{
    let xa = fields_rest(a) + r1;
    let xb = fields_rest(b) + r2;
    assert(enc_fields(a) + r1 =~= seq![fields_tag(a)] + xa);
    assert(enc_fields(b) + r2 =~= seq![fields_tag(b)] + xb);
    lemma_head(fields_tag(a), xa, fields_tag(b), xb);
    match a {
        FieldsModel::Named(fs) => {
            lemma_members_unique(fs, b->Named_0, r1, r2);
        },
        FieldsModel::Unnamed(ts) => {
            lemma_types_unique(ts, b->Unnamed_0, r1, r2);
        },
        FieldsModel::Unit => {
            assert(xa =~= r1);
            assert(xb =~= r2);
        },
    }
}

pub proof fn lemma_variant_unique(a: VariantModel, b: VariantModel, r1: Seq<u8>, r2: Seq<u8>)
    requires
        enc_variant(a) + r1 == enc_variant(b) + r2,
    ensures
        canon_variant(a) == canon_variant(b),
        r1 == r2,
{
    assert(enc_variant(a) + r1 =~= enc_str(a.name) + (enc_fields(a.fields) + r1));
    assert(enc_variant(b) + r2 =~= enc_str(b.name) + (enc_fields(b.fields) + r2));
    lemma_str_unique(a.name, b.name, enc_fields(a.fields) + r1, enc_fields(b.fields) + r2);
    lemma_fields_unique(a.fields, b.fields, r1, r2);
}

pub proof fn lemma_variants_unique(a: Seq<VariantModel>, b: Seq<VariantModel>, r1: Seq<u8>, r2: Seq<u8>)
    requires
        enc_variants(a) + r1 == enc_variants(b) + r2,
    ensures
        canon_variants(a) == canon_variants(b),
        r1 == r2,
    decreases a.len(),
{
    let ca = variant_chunks(a);
    let cb = variant_chunks(b);
    if a.len() == 0 {
        assert(items(ca) =~= Seq::<u8>::empty());
        assert(enc_variants(a) + r1 =~= seq![0u8] + r1);
        if b.len() == 0 {
            assert(items(cb) =~= Seq::<u8>::empty());
            assert(enc_variants(b) + r2 =~= seq![0u8] + r2);
            lemma_head(0u8, r1, 0u8, r2);
            assert(canon_variants(a) =~= canon_variants(b));
        } else {
            assert(enc_variants(b) + r2 =~= seq![1u8] + (cb[0] + items(cb.drop_first()) + seq![0u8]
                + r2));
            lemma_head(0u8, r1, 1u8, cb[0] + items(cb.drop_first()) + seq![0u8] + r2);
        }
    } else {
        let ta = items(ca.drop_first()) + seq![0u8] + r1;
        assert(enc_variants(a) + r1 =~= seq![1u8] + (ca[0] + ta));
        if b.len() == 0 {
            assert(items(cb) =~= Seq::<u8>::empty());
            assert(enc_variants(b) + r2 =~= seq![0u8] + r2);
            lemma_head(1u8, ca[0] + ta, 0u8, r2);
        } else {
            let tb = items(cb.drop_first()) + seq![0u8] + r2;
            assert(enc_variants(b) + r2 =~= seq![1u8] + (cb[0] + tb));
            lemma_head(1u8, ca[0] + ta, 1u8, cb[0] + tb);
            lemma_variant_unique(a[0], b[0], ta, tb);
            assert(ca.drop_first() =~= variant_chunks(a.drop_first()));
            assert(cb.drop_first() =~= variant_chunks(b.drop_first()));
            assert(enc_variants(a.drop_first()) + r1 =~= ta);
            assert(enc_variants(b.drop_first()) + r2 =~= tb);
            lemma_variants_unique(a.drop_first(), b.drop_first(), r1, r2);
            let x = canon_variants(a);
            let y = canon_variants(b);
            let x1 = canon_variants(a.drop_first());
            let y1 = canon_variants(b.drop_first());
            assert(x.len() == x1.len() + 1);
            assert(y.len() == y1.len() + 1);
            assert forall|i: int| 0 <= i < x.len() implies x[i] == y[i] by {
                if i > 0 {
                    assert(x[i] == x1[i - 1]);
                    assert(y[i] == y1[i - 1]);
                }
            }
            assert(x =~= y);
        }
    }
}

/// The tag byte of a body: its kind.
pub open spec fn body_tag(b: BodyModel) -> u8 {
    match b {
        BodyModel::Function { .. } => 0,
        BodyModel::Struct(_) => 1,
        BodyModel::Union(_) => 2,
        BodyModel::Enum(_) => 3,
        BodyModel::Const { .. } => 4,
        BodyModel::Static { .. } => 5,
        BodyModel::TypeAlias(_) => 6,
        BodyModel::Trait(_) => 7,
    }
}

pub open spec fn body_rest(b: BodyModel) -> Seq<u8> {
    match b {
        BodyModel::Function { params, ret } => enc_members(params) + enc_type(ret),
        BodyModel::Struct(f) => enc_fields(f),
        BodyModel::Union(f) => enc_fields(f),
        BodyModel::Enum(vs) => enc_variants(vs),
        BodyModel::Const { ty, value } => enc_type(ty) + enc_str(value),
        BodyModel::Static { ty, value } => enc_type(ty) + enc_str(value),
        BodyModel::TypeAlias(t) => enc_type(t),
        BodyModel::Trait(bs) => enc_bounds(bs),
    }
}

/// The byte form tells bodies apart: two bodies with the same byte form
/// have the same canonical form. They are then of one kind and have the same
/// fields, parameters and variants in the same order, with the same names
/// and types; they can differ in positions and in the order of bounds.
pub proof fn lemma_body_unique(a: BodyModel, b: BodyModel)
    requires
        enc_body(a) == enc_body(b),
    ensures
        canon_body(a) == canon_body(b),
{
    let e = Seq::<u8>::empty();
    let xa = body_rest(a);
    let xb = body_rest(b);
    assert(enc_body(a) =~= seq![body_tag(a)] + xa);
    assert(enc_body(b) =~= seq![body_tag(b)] + xb);
    lemma_head(body_tag(a), xa, body_tag(b), xb);
    match a {
        BodyModel::Function { params, ret } => {
            let pb = b->Function_params;
            let rb = b->Function_ret;
            assert(xa + e =~= enc_members(params) + (enc_type(ret) + e));
            assert(xb + e =~= enc_members(pb) + (enc_type(rb) + e));
            lemma_members_unique(params, pb, enc_type(ret) + e, enc_type(rb) + e);
            lemma_type_unique(ret, rb, e, e);
        },
        BodyModel::Struct(f) => {
            assert(xa + e =~= xb + e);
            lemma_fields_unique(f, b->Struct_0, e, e);
        },
        BodyModel::Union(f) => {
            assert(xa + e =~= xb + e);
            lemma_fields_unique(f, b->Union_0, e, e);
        },
        BodyModel::Enum(vs) => {
            assert(xa + e =~= xb + e);
            lemma_variants_unique(vs, b->Enum_0, e, e);
        },
        BodyModel::Const { ty, value } => {
            let tb = b->Const_ty;
            let vb = b->Const_value;
            assert(xa + e =~= enc_type(ty) + (enc_str(value) + e));
            assert(xb + e =~= enc_type(tb) + (enc_str(vb) + e));
            lemma_type_unique(ty, tb, enc_str(value) + e, enc_str(vb) + e);
            lemma_str_unique(value, vb, e, e);
        },
        BodyModel::Static { ty, value } => {
            let tb = b->Static_ty;
            let vb = b->Static_value;
            assert(xa + e =~= enc_type(ty) + (enc_str(value) + e));
            assert(xb + e =~= enc_type(tb) + (enc_str(vb) + e));
            lemma_type_unique(ty, tb, enc_str(value) + e, enc_str(vb) + e);
            lemma_str_unique(value, vb, e, e);
        },
        BodyModel::TypeAlias(t) => {
            assert(xa + e =~= xb + e);
            lemma_type_unique(t, b->TypeAlias_0, e, e);
        },
        BodyModel::Trait(bs) => {
            assert(xa + e =~= xb + e);
            lemma_bounds_unique(bs, b->Trait_0, e, e);
        },
    }
}

} // verus!
