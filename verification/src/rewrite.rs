//! Rewriting a body: every reference that names a known declaration becomes
//! a reference that carries a digest; nothing else changes.

use crate::canon::copy_target;
use crate::model::{
    bounds_model, members_model, types_model, variants_model, Body, BodyModel, Bound, BoundModel,
    Field, FieldModel, Fields, FieldsModel, Target, TargetModel, TypeExpr, TypeModel, Variant,
    VariantModel,
};
use vstd::hash_map::StringHashMap;
use vstd::prelude::*;

verus! {

/// The bound with `f` applied to its reference.
pub open spec fn map_bound(b: BoundModel, f: spec_fn(TargetModel) -> TargetModel) -> BoundModel {
    match b {
        BoundModel::Trait(t) => BoundModel::Trait(f(t)),
        BoundModel::Lifetime(t) => BoundModel::Lifetime(f(t)),
    }
}

/// The bounds with `f` applied to each reference.
pub open spec fn map_bounds(bs: Seq<BoundModel>, f: spec_fn(TargetModel) -> TargetModel) -> Seq<
    BoundModel,
> {
    Seq::new(bs.len(), |i: int| map_bound(bs[i], f))
}

/// The type expression with `f` applied to each of its references.
pub open spec fn map_type(t: TypeModel, f: spec_fn(TargetModel) -> TargetModel) -> TypeModel
    decreases t,
{
    match t {
        TypeModel::Path { target, args, span } => TypeModel::Path {
            target: f(target),
            args: map_types(args, f),
            span: span,
        },
        TypeModel::Reference { mutable, elem } => TypeModel::Reference {
            mutable: mutable,
            elem: Box::new(map_type(*elem, f)),
        },
        TypeModel::Array { elem, len } => TypeModel::Array {
            elem: Box::new(map_type(*elem, f)),
            len: len,
        },
        TypeModel::Slice(e) => TypeModel::Slice(Box::new(map_type(*e, f))),
        TypeModel::Tuple(es) => TypeModel::Tuple(map_types(es, f)),
        TypeModel::Paren(e) => TypeModel::Paren(Box::new(map_type(*e, f))),
        TypeModel::Group(e) => TypeModel::Group(Box::new(map_type(*e, f))),
        TypeModel::ImplTrait(bs) => TypeModel::ImplTrait(map_bounds(bs, f)),
        TypeModel::TraitObject(bs) => TypeModel::TraitObject(map_bounds(bs, f)),
        TypeModel::Macro(t) => TypeModel::Macro(f(t)),
        TypeModel::Opaque(s) => TypeModel::Opaque(s),
    }
}

/// The type expressions with `f` applied to each reference.
pub open spec fn map_types(ts: Seq<TypeModel>, f: spec_fn(TargetModel) -> TargetModel) -> Seq<
    TypeModel,
>
    decreases ts,
{
    Seq::new(
        ts.len(),
        |i: int|
            if 0 <= i < ts.len() {
                map_type(ts[i], f)
            } else {
                arbitrary()
            },
    )
}

/// The member with `f` applied to each reference of its type.
pub open spec fn map_field(x: FieldModel, f: spec_fn(TargetModel) -> TargetModel) -> FieldModel {
    FieldModel { name: x.name, ty: map_type(x.ty, f), span: x.span }
}

/// The members with `f` applied to each reference.
pub open spec fn map_members(fs: Seq<FieldModel>, f: spec_fn(TargetModel) -> TargetModel) -> Seq<
    FieldModel,
> {
    Seq::new(fs.len(), |i: int| map_field(fs[i], f))
}

/// The member list with `f` applied to each reference.
pub open spec fn map_fields(x: FieldsModel, f: spec_fn(TargetModel) -> TargetModel) -> FieldsModel {
    match x {
        FieldsModel::Named(fs) => FieldsModel::Named(map_members(fs, f)),
        FieldsModel::Unnamed(ts) => FieldsModel::Unnamed(map_types(ts, f)),
        FieldsModel::Unit => FieldsModel::Unit,
    }
}

/// The variant with `f` applied to each reference.
pub open spec fn map_variant(v: VariantModel, f: spec_fn(TargetModel) -> TargetModel) -> VariantModel {
    VariantModel { name: v.name, fields: map_fields(v.fields, f), span: v.span }
}

/// The variants with `f` applied to each reference.
pub open spec fn map_variants(vs: Seq<VariantModel>, f: spec_fn(TargetModel) -> TargetModel) -> Seq<
    VariantModel,
> {
    Seq::new(vs.len(), |i: int| map_variant(vs[i], f))
}

/// The body with `f` applied to each of its references.
pub open spec fn map_body(b: BodyModel, f: spec_fn(TargetModel) -> TargetModel) -> BodyModel {
    match b {
        BodyModel::Function { params, ret } => BodyModel::Function {
            params: map_members(params, f),
            ret: map_type(ret, f),
        },
        BodyModel::Struct(x) => BodyModel::Struct(map_fields(x, f)),
        BodyModel::Union(x) => BodyModel::Union(map_fields(x, f)),
        BodyModel::Enum(vs) => BodyModel::Enum(map_variants(vs, f)),
        BodyModel::Const { ty, value } => BodyModel::Const { ty: map_type(ty, f), value: value },
        BodyModel::Static { ty, value } => BodyModel::Static { ty: map_type(ty, f), value: value },
        BodyModel::TypeAlias(t) => BodyModel::TypeAlias(map_type(t, f)),
        BodyModel::Trait(bs) => BodyModel::Trait(map_bounds(bs, f)),
    }
}

/// A reference after resolution against a table from names to digests: a
/// name that the table knows becomes its digest; any other reference stays.
pub open spec fn resolve(table: Map<Seq<char>, Seq<char>>, t: TargetModel) -> TargetModel {
    match t {
        TargetModel::Name(n) => if table.contains_key(n) {
            TargetModel::Digest(table[n])
        } else {
            TargetModel::Name(n)
        },
        TargetModel::Digest(d) => TargetModel::Digest(d),
    }
}

/// Resolution against a table, as a change to references.
pub open spec fn resolver(table: Map<Seq<char>, Seq<char>>) -> spec_fn(TargetModel) -> TargetModel {
    |t: TargetModel| resolve(table, t)
}

/// The body with every name that the table knows replaced by its digest.
pub open spec fn subst_body(b: BodyModel, table: Map<Seq<char>, Seq<char>>) -> BodyModel {
    map_body(b, resolver(table))
}

/// What a table of strings says: each key with the text of its value.
pub open spec fn table_model(m: Map<Seq<char>, String>) -> Map<Seq<char>, Seq<char>> {
    Map::new(|n: Seq<char>| m.contains_key(n), |n: Seq<char>| m[n]@)
}

/// The table from names to digests that references are resolved against.
pub struct Linker {
    pub names_to_h: StringHashMap<String>,
}

impl Linker {
    /// The table as the contracts see it: from names to the text of digests.
    pub open spec fn table(&self) -> Map<Seq<char>, Seq<char>> {
        table_model(self.names_to_h@)
    }

    /// A linker that knows no name.
    pub fn new() -> (l: Linker)
        ensures
            l.table() == Map::<Seq<char>, Seq<char>>::empty(),
    {
        let l = Linker { names_to_h: StringHashMap::new() };
        assert(l.table() =~= Map::<Seq<char>, Seq<char>>::empty());
        l
    }

    /// Makes `name` resolve to `digest` from now on.
    pub fn bind(&mut self, name: String, digest: String)
        ensures
            final(self).table() == old(self).table().insert(name@, digest@),
    {
        self.names_to_h.insert(name, digest);
        assert(self.table() =~= old(self).table().insert(name@, digest@));
    }

    /// A reference resolved against the table.
    pub fn rewrite_target(&self, t: &Target) -> (r: Target)
        ensures
            r@ == resolve(self.table(), t@),
    {
        match t {
            Target::Name(n) => match self.names_to_h.get(n.as_str()) {
                Some(d) => Target::Digest(d.clone()),
                None => Target::Name(n.clone()),
            },
            Target::Digest(d) => Target::Digest(d.clone()),
        }
    }

    /// A bound list with each reference resolved against the table.
    pub fn rewrite_bounds(&self, bs: &Vec<Bound>) -> (out: Vec<Bound>)
        ensures
            bounds_model(out@) == map_bounds(bounds_model(bs@), resolver(self.table())),
    {
        let mut out: Vec<Bound> = Vec::new();
        let mut i: usize = 0;
        while i < bs.len()
            invariant
                i <= bs.len(),
                out.len() == i,
                forall|k: int|
                    0 <= k < i ==> out[k]@ == map_bound(#[trigger] bs[k]@, resolver(self.table())),
            decreases bs.len() - i,
        {
            let b = match &bs[i] {
                Bound::Trait(t) => Bound::Trait(self.rewrite_target(t)),
                Bound::Lifetime(t) => Bound::Lifetime(self.rewrite_target(t)),
            };
            out.push(b);
            i += 1;
        }
        assert(bounds_model(out@) =~= map_bounds(bounds_model(bs@), resolver(self.table())));
        out
    }

    /// A type expression with each reference resolved against the table.
    #[verifier::loop_isolation(false)]
    pub fn rewrite_type(&self, t: &TypeExpr) -> (r: TypeExpr)
        ensures
            r@ == map_type(t@, resolver(self.table())),
        decreases t,
    {
        match t {
            TypeExpr::Path { target, args, span } => {
                let args2 = self.rewrite_types(args);
                let r = TypeExpr::Path {
                    target: self.rewrite_target(target),
                    args: args2,
                    span: *span,
                };
                proof {
                    assert(t@->Path_args =~= types_model(args@));
                    assert(r@->Path_args =~= types_model(args2@));
                }
                r
            },
            TypeExpr::Reference { mutable, elem } => TypeExpr::Reference {
                mutable: *mutable,
                elem: Box::new(self.rewrite_type(elem)),
            },
            TypeExpr::Array { elem, len } => TypeExpr::Array {
                elem: Box::new(self.rewrite_type(elem)),
                len: len.clone(),
            },
            TypeExpr::Slice(e) => TypeExpr::Slice(Box::new(self.rewrite_type(e))),
            TypeExpr::Tuple(es) => {
                let es2 = self.rewrite_types(es);
                let r = TypeExpr::Tuple(es2);
                proof {
                    assert(t@->Tuple_0 =~= types_model(es@));
                    assert(r@->Tuple_0 =~= types_model(es2@));
                }
                r
            },
            TypeExpr::Paren(e) => TypeExpr::Paren(Box::new(self.rewrite_type(e))),
            TypeExpr::Group(e) => TypeExpr::Group(Box::new(self.rewrite_type(e))),
            TypeExpr::ImplTrait(bs) => TypeExpr::ImplTrait(self.rewrite_bounds(bs)),
            TypeExpr::TraitObject(bs) => TypeExpr::TraitObject(self.rewrite_bounds(bs)),
            TypeExpr::Macro(m) => TypeExpr::Macro(self.rewrite_target(m)),
            TypeExpr::Opaque(s) => TypeExpr::Opaque(s.clone()),
        }
    }

    /// Type expressions with each reference resolved against the table.
    #[verifier::loop_isolation(false)]
    pub fn rewrite_types(&self, ts: &Vec<TypeExpr>) -> (out: Vec<TypeExpr>)
        ensures
            types_model(out@) == map_types(types_model(ts@), resolver(self.table())),
        decreases ts,
    {
        let mut out: Vec<TypeExpr> = Vec::new();
        let mut i: usize = 0;
        while i < ts.len()
            invariant
                i <= ts.len(),
                out.len() == i,
                forall|k: int|
                    0 <= k < i ==> out[k]@ == map_type(#[trigger] ts[k]@, resolver(self.table())),
            decreases ts.len() - i,
        {
            let c = self.rewrite_type(&ts[i]);
            out.push(c);
            i += 1;
        }
        assert(types_model(out@) =~= map_types(types_model(ts@), resolver(self.table())));
        out
    }

    /// Members with each reference resolved against the table.
    pub fn rewrite_members(&self, fs: &Vec<Field>) -> (out: Vec<Field>)
        ensures
            members_model(out@) == map_members(members_model(fs@), resolver(self.table())),
    {
        let mut out: Vec<Field> = Vec::new();
        let mut i: usize = 0;
        while i < fs.len()
            invariant
                i <= fs.len(),
                out.len() == i,
                forall|k: int|
                    0 <= k < i ==> out[k]@ == map_field(#[trigger] fs[k]@, resolver(self.table())),
            decreases fs.len() - i,
        {
            let c = Field {
                name: fs[i].name.clone(),
                ty: self.rewrite_type(&fs[i].ty),
                span: fs[i].span,
            };
            out.push(c);
            i += 1;
        }
        assert(members_model(out@) =~= map_members(members_model(fs@), resolver(self.table())));
        out
    }

    /// A member list with each reference resolved against the table.
    pub fn rewrite_fields(&self, f: &Fields) -> (r: Fields)
        ensures
            r@ == map_fields(f@, resolver(self.table())),
    {
        match f {
            Fields::Named(fs) => Fields::Named(self.rewrite_members(fs)),
            Fields::Unnamed(ts) => Fields::Unnamed(self.rewrite_types(ts)),
            Fields::Unit => Fields::Unit,
        }
    }

    /// Variants with each reference resolved against the table.
    pub fn rewrite_variants(&self, vs: &Vec<Variant>) -> (out: Vec<Variant>)
        ensures
            variants_model(out@) == map_variants(variants_model(vs@), resolver(self.table())),
    {
        let mut out: Vec<Variant> = Vec::new();
        let mut i: usize = 0;
        while i < vs.len()
            invariant
                i <= vs.len(),
                out.len() == i,
                forall|k: int|
                    0 <= k < i ==> out[k]@ == map_variant(
                        #[trigger] vs[k]@,
                        resolver(self.table()),
                    ),
            decreases vs.len() - i,
        {
            let c = Variant {
                name: vs[i].name.clone(),
                fields: self.rewrite_fields(&vs[i].fields),
                span: vs[i].span,
            };
            out.push(c);
            i += 1;
        }
        assert(variants_model(out@) =~= map_variants(variants_model(vs@), resolver(self.table())));
        out
    }

    /// Rewrites a body against the table: each reference that names a key of
    /// the table comes out carrying that key's digest, and the rest of the
    /// body as it was.
    pub fn rewrite(&self, b: &Body) -> (r: Body)
        ensures
            r@ == subst_body(b@, self.table()),
    {
        match b {
            Body::Function { params, ret } => Body::Function {
                params: self.rewrite_members(params),
                ret: self.rewrite_type(ret),
            },
            Body::Struct(f) => Body::Struct(self.rewrite_fields(f)),
            Body::Union(f) => Body::Union(self.rewrite_fields(f)),
            Body::Enum(vs) => Body::Enum(self.rewrite_variants(vs)),
            Body::Const { ty, value } => Body::Const {
                ty: self.rewrite_type(ty),
                value: value.clone(),
            },
            Body::Static { ty, value } => Body::Static {
                ty: self.rewrite_type(ty),
                value: value.clone(),
            },
            Body::TypeAlias(t) => Body::TypeAlias(self.rewrite_type(t)),
            Body::Trait(bs) => Body::Trait(self.rewrite_bounds(bs)),
        }
    }
}

} // verus!
