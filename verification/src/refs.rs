//! The names that a body mentions in its type positions.

use crate::model::{
    bounds_model, members_model, types_model, variants_model, Body, BodyModel, Bound, BoundModel,
    Declaration, Field, FieldModel, Fields, FieldsModel, Target, TargetModel, TypeExpr, TypeModel,
    Variant, VariantModel,
};
use vstd::prelude::*;

verus! {

pub open spec fn strings_model(v: Seq<String>) -> Seq<Seq<char>> {
    Seq::new(v.len(), |i: int| v[i]@)
}

/// What is in at least one of the sets.
pub open spec fn union_all<T>(sets: Seq<Set<T>>) -> Set<T> {
    Set::new(|x: T| exists|i: int| 0 <= i < sets.len() && #[trigger] sets[i].contains(x))
}

/// The target of a bound: its trait path or its lifetime.
pub open spec fn bound_target(b: BoundModel) -> TargetModel {
    match b {
        BoundModel::Trait(t) => t,
        BoundModel::Lifetime(t) => t,
    }
}

pub open spec fn bound_sets(bs: Seq<BoundModel>) -> Seq<Set<TargetModel>> {
    Seq::new(bs.len(), |i: int| set![bound_target(bs[i])])
}

pub open spec fn bounds_targets(bs: Seq<BoundModel>) -> Set<TargetModel> {
    union_all(bound_sets(bs))
}

/// The references that stand in a type expression: those of its paths,
/// looked for through references, arrays, slices, tuples, parentheses,
/// groups, generic arguments and bound lists.
pub open spec fn type_targets(t: TypeModel) -> Set<TargetModel>
    decreases t,
{
    match t {
        TypeModel::Path { target, args, span } => set![target].union(union_all(type_sets(args))),
        TypeModel::Reference { mutable, elem } => type_targets(*elem),
        TypeModel::Array { elem, len } => type_targets(*elem),
        TypeModel::Slice(e) => type_targets(*e),
        TypeModel::Tuple(es) => union_all(type_sets(es)),
        TypeModel::Paren(e) => type_targets(*e),
        TypeModel::Group(e) => type_targets(*e),
        TypeModel::ImplTrait(bs) => bounds_targets(bs),
        TypeModel::TraitObject(bs) => bounds_targets(bs),
        TypeModel::Macro(t) => set![t],
        TypeModel::Opaque(_) => Set::empty(),
    }
}

pub open spec fn type_sets(ts: Seq<TypeModel>) -> Seq<Set<TargetModel>>
    decreases ts,
{
    Seq::new(
        ts.len(),
        |i: int|
            if 0 <= i < ts.len() {
                type_targets(ts[i])
            } else {
                Set::empty()
            },
    )
}

pub open spec fn types_targets(ts: Seq<TypeModel>) -> Set<TargetModel> {
    union_all(type_sets(ts))
}

pub open spec fn member_sets(fs: Seq<FieldModel>) -> Seq<Set<TargetModel>> {
    Seq::new(fs.len(), |i: int| type_targets(fs[i].ty))
}

pub open spec fn members_targets(fs: Seq<FieldModel>) -> Set<TargetModel> {
    union_all(member_sets(fs))
}

pub open spec fn fields_targets(f: FieldsModel) -> Set<TargetModel> {
    match f {
        FieldsModel::Named(fs) => members_targets(fs),
        FieldsModel::Unnamed(ts) => types_targets(ts),
        FieldsModel::Unit => Set::empty(),
    }
}

pub open spec fn variant_sets(vs: Seq<VariantModel>) -> Seq<Set<TargetModel>> {
    Seq::new(vs.len(), |i: int| fields_targets(vs[i].fields))
}

pub open spec fn variants_targets(vs: Seq<VariantModel>) -> Set<TargetModel> {
    union_all(variant_sets(vs))
}

/// Every reference that stands in a body.
pub open spec fn body_targets(b: BodyModel) -> Set<TargetModel> {
    match b {
        BodyModel::Function { params, ret } => members_targets(params).union(type_targets(ret)),
        BodyModel::Struct(f) => fields_targets(f),
        BodyModel::Union(f) => fields_targets(f),
        BodyModel::Enum(vs) => variants_targets(vs),
        BodyModel::Const { ty, value } => type_targets(ty),
        BodyModel::Static { ty, value } => type_targets(ty),
        BodyModel::TypeAlias(t) => type_targets(t),
        BodyModel::Trait(bs) => bounds_targets(bs),
    }
}

/// The names among a set of references.
pub open spec fn names_in(targets: Set<TargetModel>) -> Set<Seq<char>> {
    Set::new(|n: Seq<char>| targets.contains(TargetModel::Name(n)))
}

/// The names of the bounds of a bound list.
pub open spec fn bounds_names(bs: Seq<BoundModel>) -> Set<Seq<char>> {
    names_in(bounds_targets(bs))
}

/// The base type names of a type expression.
pub open spec fn base_names(t: TypeModel) -> Set<Seq<char>> {
    names_in(type_targets(t))
}

/// The base type names of the types of a field list.
pub open spec fn fields_names(f: FieldsModel) -> Set<Seq<char>> {
    names_in(fields_targets(f))
}

/// The names that a body depends on.
pub open spec fn body_names(b: BodyModel) -> Set<Seq<char>> {
    names_in(body_targets(b))
}

/// A list of names that holds none twice.
pub open spec fn is_name_set(v: Seq<String>) -> bool {
    strings_model(v).no_duplicates()
}

/// Whether `name` is among `names`.
pub fn has_name(names: &Vec<String>, name: &String) -> (found: bool)
    ensures
        found == strings_model(names@).contains(name@),
{
    let mut i: usize = 0;
    while i < names.len()
        invariant
            i <= names.len(),
            forall|k: int| 0 <= k < i ==> strings_model(names@)[k] != name@,
        decreases names.len() - i,
    {
        if names[i] == *name {
            assert(strings_model(names@)[i as int] == name@);
            return true;
        }
        i += 1;
    }
    false
}

/// Adds `name` to `acc` unless it is there.
fn add_name(acc: &mut Vec<String>, name: &String)
    requires
        is_name_set(old(acc)@),
    ensures
        is_name_set(final(acc)@),
        strings_model(final(acc)@).to_set() == strings_model(old(acc)@).to_set().insert(name@),
{
    if !has_name(acc, name) {
        acc.push(name.clone());
        proof {
            let before = strings_model(old(acc)@);
            let after = strings_model(acc@);
            assert(after =~= before.push(name@));
            assert(after.to_set() =~= before.to_set().insert(name@)) by {
                assert forall|n: Seq<char>| after.to_set().contains(n) implies before.to_set().insert(
                    name@,
                ).contains(n) by {
                    let k = choose|k: int| 0 <= k < after.len() && after[k] == n;
                    if k < before.len() {
                        assert(before[k] == n);
                    }
                }
                assert forall|n: Seq<char>|
                    before.to_set().insert(name@).contains(n) implies after.to_set().contains(n) by {
                    if n == name@ {
                        assert(after[before.len() as int] == n);
                    } else {
                        let k = choose|k: int| 0 <= k < before.len() && before[k] == n;
                        assert(after[k] == n);
                    }
                }
            }
        }
    } else {
        assert(strings_model(acc@).to_set() =~= strings_model(acc@).to_set().insert(name@));
    }
}

fn collect_target(t: &Target, acc: &mut Vec<String>)
    requires
        is_name_set(old(acc)@),
    ensures
        is_name_set(final(acc)@),
        strings_model(final(acc)@).to_set() == strings_model(old(acc)@).to_set().union(
            names_in(set![t@]),
        ),
{
    match t {
        Target::Name(n) => {
            add_name(acc, n);
            assert(strings_model(acc@).to_set() =~= strings_model(old(acc)@).to_set().union(
                names_in(set![t@]),
            ));
        },
        Target::Digest(_) => {
            assert(strings_model(acc@).to_set() =~= strings_model(old(acc)@).to_set().union(
                names_in(set![t@]),
            ));
        },
    }
}

/// Taking one more set into a union adds that set.
pub proof fn lemma_union_all_step<T>(sets: Seq<Set<T>>, i: int)
    requires
        0 <= i < sets.len(),
    ensures
        union_all(sets.take(i + 1)) == union_all(sets.take(i)).union(sets[i]),
{
    let a = sets.take(i);
    let b = sets.take(i + 1);
    assert forall|n: T| union_all(b).contains(n) implies union_all(a).union(
        sets[i],
    ).contains(n) by {
        let k = choose|k: int| 0 <= k < b.len() && #[trigger] b[k].contains(n);
        if k < i {
            assert(a[k].contains(n));
        }
    }
    assert forall|n: T| union_all(a).union(sets[i]).contains(n) implies union_all(
        b,
    ).contains(n) by {
        if union_all(a).contains(n) {
            let k = choose|k: int| 0 <= k < a.len() && #[trigger] a[k].contains(n);
            assert(b[k].contains(n));
        } else {
            assert(b[i].contains(n));
        }
    }
    assert(union_all(b) =~= union_all(a).union(sets[i]));
}

pub proof fn lemma_union_all_none<T>(sets: Seq<Set<T>>)
    ensures
        union_all(sets.take(0)) == Set::<T>::empty(),
{
    assert(union_all(sets.take(0)) =~= Set::<T>::empty());
}

fn collect_bounds(bs: &Vec<Bound>, acc: &mut Vec<String>)
    requires
        is_name_set(old(acc)@),
    ensures
        is_name_set(final(acc)@),
        strings_model(final(acc)@).to_set() == strings_model(old(acc)@).to_set().union(
            names_in(bounds_targets(bounds_model(bs@))),
        ),
{
    let ghost sets = bound_sets(bounds_model(bs@));
    let ghost start = strings_model(acc@).to_set();
    let mut i: usize = 0;
    proof {
        lemma_union_all_none(sets);
        assert(start =~= start.union(names_in(union_all(sets.take(0)))));
    }
    while i < bs.len()
        invariant
            i <= bs.len(),
            sets == bound_sets(bounds_model(bs@)),
            is_name_set(acc@),
            strings_model(acc@).to_set() == start.union(names_in(union_all(sets.take(i as int)))),
        decreases bs.len() - i,
    {
        match &bs[i] {
            Bound::Trait(t) => collect_target(t, acc),
            Bound::Lifetime(t) => collect_target(t, acc),
        }
        proof {
            lemma_union_all_step(sets, i as int);
            assert(strings_model(acc@).to_set() =~= start.union(
                names_in(union_all(sets.take(i as int + 1))),
            ));
        }
        i += 1;
    }
    assert(sets.take(bs.len() as int) =~= sets);
}

#[verifier::loop_isolation(false)]
fn collect_type(t: &TypeExpr, acc: &mut Vec<String>)
    requires
        is_name_set(old(acc)@),
    ensures
        is_name_set(final(acc)@),
        strings_model(final(acc)@).to_set() == strings_model(old(acc)@).to_set().union(
            base_names(t@),
        ),
    decreases t,
{
    let ghost start = strings_model(acc@).to_set();
    match t {
        TypeExpr::Path { target, args, span } => {
            collect_target(target, acc);
            collect_types(args, acc);
            assert(t@->Path_args =~= types_model(args@));
            assert(strings_model(acc@).to_set() =~= start.union(base_names(t@)));
        },
        TypeExpr::Reference { mutable, elem } => collect_type(elem, acc),
        TypeExpr::Array { elem, len } => collect_type(elem, acc),
        TypeExpr::Slice(e) => collect_type(e, acc),
        TypeExpr::Tuple(es) => {
            collect_types(es, acc);
            assert(t@->Tuple_0 =~= types_model(es@));
        },
        TypeExpr::Paren(e) => collect_type(e, acc),
        TypeExpr::Group(e) => collect_type(e, acc),
        TypeExpr::ImplTrait(bs) => collect_bounds(bs, acc),
        TypeExpr::TraitObject(bs) => collect_bounds(bs, acc),
        TypeExpr::Macro(m) => collect_target(m, acc),
        TypeExpr::Opaque(_) => {
            assert(start =~= start.union(base_names(t@)));
        },
    }
}

#[verifier::loop_isolation(false)]
fn collect_types(ts: &Vec<TypeExpr>, acc: &mut Vec<String>)
    requires
        is_name_set(old(acc)@),
    ensures
        is_name_set(final(acc)@),
        strings_model(final(acc)@).to_set() == strings_model(old(acc)@).to_set().union(
            names_in(types_targets(types_model(ts@))),
        ),
    decreases ts,
{
    let ghost sets = type_sets(types_model(ts@));
    let ghost start = strings_model(acc@).to_set();
    let mut i: usize = 0;
    proof {
        lemma_union_all_none(sets);
        assert(start =~= start.union(names_in(union_all(sets.take(0)))));
    }
    while i < ts.len()
        invariant
            i <= ts.len(),
            is_name_set(acc@),
            strings_model(acc@).to_set() == start.union(names_in(union_all(sets.take(i as int)))),
        decreases ts.len() - i,
    {
        collect_type(&ts[i], acc);
        proof {
            lemma_union_all_step(sets, i as int);
            assert(strings_model(acc@).to_set() =~= start.union(
                names_in(union_all(sets.take(i as int + 1))),
            ));
        }
        i += 1;
    }
    assert(sets.take(ts.len() as int) =~= sets);
}

fn collect_members(fs: &Vec<Field>, acc: &mut Vec<String>)
    requires
        is_name_set(old(acc)@),
    ensures
        is_name_set(final(acc)@),
        strings_model(final(acc)@).to_set() == strings_model(old(acc)@).to_set().union(
            names_in(members_targets(members_model(fs@))),
        ),
{
    let ghost sets = member_sets(members_model(fs@));
    let ghost start = strings_model(acc@).to_set();
    let mut i: usize = 0;
    proof {
        lemma_union_all_none(sets);
        assert(start =~= start.union(names_in(union_all(sets.take(0)))));
    }
    while i < fs.len()
        invariant
            i <= fs.len(),
            sets == member_sets(members_model(fs@)),
            is_name_set(acc@),
            strings_model(acc@).to_set() == start.union(names_in(union_all(sets.take(i as int)))),
        decreases fs.len() - i,
    {
        collect_type(&fs[i].ty, acc);
        proof {
            lemma_union_all_step(sets, i as int);
            assert(strings_model(acc@).to_set() =~= start.union(
                names_in(union_all(sets.take(i as int + 1))),
            ));
        }
        i += 1;
    }
    assert(sets.take(fs.len() as int) =~= sets);
}

fn collect_fields(f: &Fields, acc: &mut Vec<String>)
    requires
        is_name_set(old(acc)@),
    ensures
        is_name_set(final(acc)@),
        strings_model(final(acc)@).to_set() == strings_model(old(acc)@).to_set().union(
            fields_names(f@),
        ),
{
    match f {
        Fields::Named(fs) => collect_members(fs, acc),
        Fields::Unnamed(ts) => collect_types(ts, acc),
        Fields::Unit => {
            assert(strings_model(acc@).to_set() =~= strings_model(acc@).to_set().union(
                fields_names(f@),
            ));
        },
    }
}

fn collect_variants(vs: &Vec<Variant>, acc: &mut Vec<String>)
    requires
        is_name_set(old(acc)@),
    ensures
        is_name_set(final(acc)@),
        strings_model(final(acc)@).to_set() == strings_model(old(acc)@).to_set().union(
            names_in(variants_targets(variants_model(vs@))),
        ),
{
    let ghost sets = variant_sets(variants_model(vs@));
    let ghost start = strings_model(acc@).to_set();
    let mut i: usize = 0;
    proof {
        lemma_union_all_none(sets);
        assert(start =~= start.union(names_in(union_all(sets.take(0)))));
    }
    while i < vs.len()
        invariant
            i <= vs.len(),
            sets == variant_sets(variants_model(vs@)),
            is_name_set(acc@),
            strings_model(acc@).to_set() == start.union(names_in(union_all(sets.take(i as int)))),
        decreases vs.len() - i,
    {
        collect_fields(&vs[i].fields, acc);
        proof {
            lemma_union_all_step(sets, i as int);
            assert(strings_model(acc@).to_set() =~= start.union(
                names_in(union_all(sets.take(i as int + 1))),
            ));
        }
        i += 1;
    }
    assert(sets.take(vs.len() as int) =~= sets);
}

/// The names of the bounds of a bound list, each once.
pub fn extract_bounds(bounds: &Vec<Bound>) -> (names: Vec<String>)
    ensures
        is_name_set(names@),
        strings_model(names@).to_set() == bounds_names(bounds_model(bounds@)),
{
    let mut names: Vec<String> = Vec::new();
    assert(strings_model(names@).to_set() =~= Set::<Seq<char>>::empty());
    collect_bounds(bounds, &mut names);
    assert(strings_model(names@).to_set() =~= bounds_names(bounds_model(bounds@)));
    names
}

/// The base type names of a type expression, each once.
pub fn base_types(ty: &TypeExpr) -> (names: Vec<String>)
    ensures
        is_name_set(names@),
        strings_model(names@).to_set() == base_names(ty@),
{
    let mut names: Vec<String> = Vec::new();
    assert(strings_model(names@).to_set() =~= Set::<Seq<char>>::empty());
    collect_type(ty, &mut names);
    assert(strings_model(names@).to_set() =~= base_names(ty@));
    names
}

/// The base type names of the types of a field list, each once.
pub fn fields(f: &Fields) -> (names: Vec<String>)
    ensures
        is_name_set(names@),
        strings_model(names@).to_set() == fields_names(f@),
{
    let mut names: Vec<String> = Vec::new();
    assert(strings_model(names@).to_set() =~= Set::<Seq<char>>::empty());
    collect_fields(f, &mut names);
    assert(strings_model(names@).to_set() =~= fields_names(f@));
    names
}

/// The names that a body depends on, each once.
pub fn references(b: &Body) -> (names: Vec<String>)
    ensures
        is_name_set(names@),
        strings_model(names@).to_set() == body_names(b@),
{
    let mut names: Vec<String> = Vec::new();
    assert(strings_model(names@).to_set() =~= Set::<Seq<char>>::empty());
    match b {
        Body::Function { params, ret } => {
            collect_members(params, &mut names);
            collect_type(ret, &mut names);
        },
        Body::Struct(f) => collect_fields(f, &mut names),
        Body::Union(f) => collect_fields(f, &mut names),
        Body::Enum(vs) => collect_variants(vs, &mut names),
        Body::Const { ty, value } => collect_type(ty, &mut names),
        Body::Static { ty, value } => collect_type(ty, &mut names),
        Body::TypeAlias(t) => collect_type(t, &mut names),
        Body::Trait(bs) => collect_bounds(bs, &mut names),
    }
    assert(strings_model(names@).to_set() =~= body_names(b@));
    names
}

impl Declaration {
    /// The reference set of the declaration: the names that its body
    /// depends on, each once.
    pub fn reference_set(&self) -> (names: Vec<String>)
        ensures
            is_name_set(names@),
            strings_model(names@).to_set() == body_names(self@.body),
    {
        references(&self.body)
    }
}

} // verus!
