//! The declarations of one compilation unit, as a front end hands them over,
//! and the mathematical model of each type that the contracts speak of.

use vstd::prelude::*;

verus! {

/// A position in the source text. It carries no meaning of its own.
#[derive(Clone, Copy, Debug, PartialEq, Eq)]
pub struct Span {
    pub line: u32,
    pub column: u32,
}

impl Span {
    /// The position that every node of a canonical form carries.
    pub open spec fn blank() -> Span {
        Span { line: 0, column: 0 }
    }

    /// The blank position.
    pub fn none() -> (s: Span)
        ensures
            s == Span::blank(),
    {
        Span { line: 0, column: 0 }
    }
}

/// What a reference inside a body points at: the name that the source wrote,
/// or the digest of the declaration that the name stood for.
#[derive(Debug, PartialEq, Eq)]
pub enum Target {
    Name(String),
    Digest(String),
}

/// What the contracts see of a reference: text for strings, sequences for lists.
pub enum TargetModel {
    Name(Seq<char>),
    Digest(Seq<char>),
}

impl View for Target {
    type V = TargetModel;

    open spec fn view(&self) -> TargetModel {
        match *self {
            Target::Name(n) => TargetModel::Name(n@),
            Target::Digest(d) => TargetModel::Digest(d@),
        }
    }
}

/// One bound of a bound list: a trait path or a lifetime.
#[derive(Debug, PartialEq, Eq)]
pub enum Bound {
    Trait(Target),
    Lifetime(Target),
}

/// What the contracts see of a bound: text for strings, sequences for lists.
pub enum BoundModel {
    Trait(TargetModel),
    Lifetime(TargetModel),
}

impl View for Bound {
    type V = BoundModel;

    open spec fn view(&self) -> BoundModel {
        match *self {
            Bound::Trait(t) => BoundModel::Trait(t@),
            Bound::Lifetime(t) => BoundModel::Lifetime(t@),
        }
    }
}

/// The model of each bound of a list.
pub open spec fn bounds_model(bs: Seq<Bound>) -> Seq<BoundModel> {
    Seq::new(bs.len(), |i: int| bs[i]@)
}

/// A type expression, as it stands in a type position of a body.
#[derive(Debug, PartialEq, Eq)]
pub enum TypeExpr {
    Path { target: Target, args: Vec<TypeExpr>, span: Span },
    Reference { mutable: bool, elem: Box<TypeExpr> },
    Array { elem: Box<TypeExpr>, len: String },
    Slice(Box<TypeExpr>),
    Tuple(Vec<TypeExpr>),
    Paren(Box<TypeExpr>),
    Group(Box<TypeExpr>),
    ImplTrait(Vec<Bound>),
    TraitObject(Vec<Bound>),
    Macro(Target),
    Opaque(String),
}

/// What the contracts see of a type expression: text for strings, sequences for lists.
pub enum TypeModel {
    Path { target: TargetModel, args: Seq<TypeModel>, span: Span },
    Reference { mutable: bool, elem: Box<TypeModel> },
    Array { elem: Box<TypeModel>, len: Seq<char> },
    Slice(Box<TypeModel>),
    Tuple(Seq<TypeModel>),
    Paren(Box<TypeModel>),
    Group(Box<TypeModel>),
    ImplTrait(Seq<BoundModel>),
    TraitObject(Seq<BoundModel>),
    Macro(TargetModel),
    Opaque(Seq<char>),
}

/// The model of a type expression.
pub open spec fn type_model(t: TypeExpr) -> TypeModel
    decreases t,
{
    match t {
        TypeExpr::Path { target, args, span } => TypeModel::Path {
            target: target@,
            args: Seq::new(
                args.len() as nat,
                |i: int|
                    if 0 <= i < args.len() {
                        type_model(args[i])
                    } else {
                        arbitrary()
                    },
            ),
            span: span,
        },
        TypeExpr::Reference { mutable, elem } => TypeModel::Reference {
            mutable: mutable,
            elem: Box::new(type_model(*elem)),
        },
        TypeExpr::Array { elem, len } => TypeModel::Array {
            elem: Box::new(type_model(*elem)),
            len: len@,
        },
        TypeExpr::Slice(e) => TypeModel::Slice(Box::new(type_model(*e))),
        TypeExpr::Tuple(es) => TypeModel::Tuple(
            Seq::new(
                es.len() as nat,
                |i: int|
                    if 0 <= i < es.len() {
                        type_model(es[i])
                    } else {
                        arbitrary()
                    },
            ),
        ),
        TypeExpr::Paren(e) => TypeModel::Paren(Box::new(type_model(*e))),
        TypeExpr::Group(e) => TypeModel::Group(Box::new(type_model(*e))),
        TypeExpr::ImplTrait(bs) => TypeModel::ImplTrait(bounds_model(bs@)),
        TypeExpr::TraitObject(bs) => TypeModel::TraitObject(bounds_model(bs@)),
        TypeExpr::Macro(t) => TypeModel::Macro(t@),
        TypeExpr::Opaque(s) => TypeModel::Opaque(s@),
    }
}

impl View for TypeExpr {
    type V = TypeModel;

    open spec fn view(&self) -> TypeModel {
        type_model(*self)
    }
}

/// The model of each type expression of a list.
pub open spec fn types_model(ts: Seq<TypeExpr>) -> Seq<TypeModel> {
    Seq::new(ts.len(), |i: int| ts[i]@)
}

/// A named member with its type: a field of a struct or a parameter of a
/// function.
#[derive(Debug, PartialEq, Eq)]
pub struct Field {
    pub name: String,
    pub ty: TypeExpr,
    pub span: Span,
}

/// What the contracts see of a named member: text for strings, sequences for lists.
pub struct FieldModel {
    pub name: Seq<char>,
    pub ty: TypeModel,
    pub span: Span,
}

impl View for Field {
    type V = FieldModel;

    open spec fn view(&self) -> FieldModel {
        FieldModel { name: self.name@, ty: self.ty@, span: self.span }
    }
}

/// The model of each member of a list.
pub open spec fn members_model(fs: Seq<Field>) -> Seq<FieldModel> {
    Seq::new(fs.len(), |i: int| fs[i]@)
}

/// The members of a struct, a union or an enum variant.
#[derive(Debug, PartialEq, Eq)]
pub enum Fields {
    Named(Vec<Field>),
    Unnamed(Vec<TypeExpr>),
    Unit,
}

/// What the contracts see of a member list: text for strings, sequences for lists.
pub enum FieldsModel {
    Named(Seq<FieldModel>),
    Unnamed(Seq<TypeModel>),
    Unit,
}

impl View for Fields {
    type V = FieldsModel;

    open spec fn view(&self) -> FieldsModel {
        match *self {
            Fields::Named(fs) => FieldsModel::Named(members_model(fs@)),
            Fields::Unnamed(ts) => FieldsModel::Unnamed(types_model(ts@)),
            Fields::Unit => FieldsModel::Unit,
        }
    }
}

/// One variant of an enum.
#[derive(Debug, PartialEq, Eq)]
pub struct Variant {
    pub name: String,
    pub fields: Fields,
    pub span: Span,
}

/// What the contracts see of a variant: text for strings, sequences for lists.
pub struct VariantModel {
    pub name: Seq<char>,
    pub fields: FieldsModel,
    pub span: Span,
}

impl View for Variant {
    type V = VariantModel;

    open spec fn view(&self) -> VariantModel {
        VariantModel { name: self.name@, fields: self.fields@, span: self.span }
    }
}

/// The model of each variant of a list.
pub open spec fn variants_model(vs: Seq<Variant>) -> Seq<VariantModel> {
    Seq::new(vs.len(), |i: int| vs[i]@)
}

/// The payload of a declaration; its shape goes by the declaration's kind.
#[derive(Debug, PartialEq, Eq)]
pub enum Body {
    Function { params: Vec<Field>, ret: TypeExpr },
    Struct(Fields),
    Union(Fields),
    Enum(Vec<Variant>),
    Const { ty: TypeExpr, value: String },
    Static { ty: TypeExpr, value: String },
    TypeAlias(TypeExpr),
    Trait(Vec<Bound>),
}

/// What the contracts see of a body: text for strings, sequences for lists.
pub enum BodyModel {
    Function { params: Seq<FieldModel>, ret: TypeModel },
    Struct(FieldsModel),
    Union(FieldsModel),
    Enum(Seq<VariantModel>),
    Const { ty: TypeModel, value: Seq<char> },
    Static { ty: TypeModel, value: Seq<char> },
    TypeAlias(TypeModel),
    Trait(Seq<BoundModel>),
}

impl View for Body {
    type V = BodyModel;

    open spec fn view(&self) -> BodyModel {
        match *self {
            Body::Function { params, ret } => BodyModel::Function {
                params: members_model(params@),
                ret: ret@,
            },
            Body::Struct(f) => BodyModel::Struct(f@),
            Body::Union(f) => BodyModel::Union(f@),
            Body::Enum(vs) => BodyModel::Enum(variants_model(vs@)),
            Body::Const { ty, value } => BodyModel::Const { ty: ty@, value: value@ },
            Body::Static { ty, value } => BodyModel::Static { ty: ty@, value: value@ },
            Body::TypeAlias(t) => BodyModel::TypeAlias(t@),
            Body::Trait(bs) => BodyModel::Trait(bounds_model(bs@)),
        }
    }
}

/// The kinds of declaration that have a digest.
#[derive(Clone, Copy, Debug, PartialEq, Eq)]
pub enum DeclKind {
    Function,
    Struct,
    Union,
    Enum,
    Const,
    Static,
    TypeAlias,
    Trait,
}

/// One top-level named definition.
#[derive(Debug, PartialEq, Eq)]
pub struct Declaration {
    pub name: String,
    pub body: Body,
    pub span: Span,
}

/// What the contracts see of a declaration: text for strings, sequences for lists.
pub struct DeclModel {
    pub name: Seq<char>,
    pub body: BodyModel,
    pub span: Span,
}

impl View for Declaration {
    type V = DeclModel;

    open spec fn view(&self) -> DeclModel {
        DeclModel { name: self.name@, body: self.body@, span: self.span }
    }
}

/// The model of each declaration of a list.
pub open spec fn decls_model(ds: Seq<Declaration>) -> Seq<DeclModel> {
    Seq::new(ds.len(), |i: int| ds[i]@)
}

impl BodyModel {
    pub open spec fn kind(self) -> DeclKind {
        match self {
            BodyModel::Function { .. } => DeclKind::Function,
            BodyModel::Struct(_) => DeclKind::Struct,
            BodyModel::Union(_) => DeclKind::Union,
            BodyModel::Enum(_) => DeclKind::Enum,
            BodyModel::Const { .. } => DeclKind::Const,
            BodyModel::Static { .. } => DeclKind::Static,
            BodyModel::TypeAlias(_) => DeclKind::TypeAlias,
            BodyModel::Trait(_) => DeclKind::Trait,
        }
    }
}

impl Declaration {
    /// The kind of this declaration, which its body determines.
    pub fn kind(&self) -> (k: DeclKind)
        ensures
            k == self@.body.kind(),
    {
        match &self.body {
            Body::Function { .. } => DeclKind::Function,
            Body::Struct(_) => DeclKind::Struct,
            Body::Union(_) => DeclKind::Union,
            Body::Enum(_) => DeclKind::Enum,
            Body::Const { .. } => DeclKind::Const,
            Body::Static { .. } => DeclKind::Static,
            Body::TypeAlias(_) => DeclKind::TypeAlias,
            Body::Trait(_) => DeclKind::Trait,
        }
    }
}

/// The name of a declaration, whatever its kind.
pub fn ident(item: &Declaration) -> (name: String)
    ensures
        name@ == item@.name,
{
    item.name.clone()
}

/// One parsed top-level node. Only a `Declaration` has a digest; the other
/// kinds stand for what a source file holds besides.
#[derive(Debug, PartialEq, Eq)]
pub enum Node {
    Declaration(Declaration),
    Module(String),
    Implementation(String),
    Import(String),
    Other,
}

/// What the contracts see of a parsed node: text for strings, sequences for lists.
pub enum NodeModel {
    Declaration(DeclModel),
    Module(Seq<char>),
    Implementation(Seq<char>),
    Import(Seq<char>),
    Other,
}

impl View for Node {
    type V = NodeModel;

    open spec fn view(&self) -> NodeModel {
        match *self {
            Node::Declaration(d) => NodeModel::Declaration(d@),
            Node::Module(n) => NodeModel::Module(n@),
            Node::Implementation(n) => NodeModel::Implementation(n@),
            Node::Import(n) => NodeModel::Import(n@),
            Node::Other => NodeModel::Other,
        }
    }
}

/// The model of each node of a list.
pub open spec fn nodes_model(ns: Seq<Node>) -> Seq<NodeModel> {
    Seq::new(ns.len(), |i: int| ns[i]@)
}

} // verus!
