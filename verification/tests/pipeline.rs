use car::dag::TypeDAG;
use car::digest::{hash, hash_bytes, to_hex};
use car::encode::serialize;
use car::extract::{extract, ExtractError};
use car::link::link;
use car::model::{
    Body, Bound, Declaration, DeclKind, Field, Fields, Node, Span, Target, TypeExpr, Variant,
};
use car::refs::{base_types, extract_bounds, fields, references};
use car::store::Compiler;

fn at(line: u32, column: u32) -> Span {
    Span { line, column }
}

fn path(name: &str) -> TypeExpr {
    TypeExpr::Path { target: Target::Name(name.to_string()), args: vec![], span: at(1, 1) }
}

fn generic(name: &str, args: Vec<TypeExpr>) -> TypeExpr {
    TypeExpr::Path { target: Target::Name(name.to_string()), args, span: at(2, 3) }
}

fn field(name: &str, ty: TypeExpr) -> Field {
    Field { name: name.to_string(), ty, span: at(4, 5) }
}

fn decl(name: &str, body: Body) -> Declaration {
    Declaration { name: name.to_string(), body, span: at(7, 1) }
}

fn structure(name: &str, members: Vec<Field>) -> Declaration {
    decl(name, Body::Struct(Fields::Named(members)))
}

fn unit_variant(name: &str) -> Variant {
    Variant { name: name.to_string(), fields: Fields::Unit, span: at(3, 5) }
}

fn nodes(decls: Vec<Declaration>) -> Vec<Node> {
    decls.into_iter().map(Node::Declaration).collect()
}

fn digest_of(store: &Compiler, name: &str) -> String {
    store.lookup_name(name).unwrap().clone()
}

fn targets_of_type(ty: &TypeExpr, out: &mut Vec<Target>) {
    match ty {
        TypeExpr::Path { target, args, .. } => {
            out.push(copy(target));
            for a in args {
                targets_of_type(a, out);
            }
        }
        TypeExpr::Reference { elem, .. } | TypeExpr::Array { elem, .. } => targets_of_type(elem, out),
        TypeExpr::Slice(e) | TypeExpr::Paren(e) | TypeExpr::Group(e) => targets_of_type(e, out),
        TypeExpr::Tuple(es) => {
            for e in es {
                targets_of_type(e, out);
            }
        }
        TypeExpr::ImplTrait(bs) | TypeExpr::TraitObject(bs) => {
            for b in bs {
                match b {
                    Bound::Trait(t) | Bound::Lifetime(t) => out.push(copy(t)),
                }
            }
        }
        TypeExpr::Macro(t) => out.push(copy(t)),
        TypeExpr::Opaque(_) => {}
    }
}

fn copy(t: &Target) -> Target {
    match t {
        Target::Name(n) => Target::Name(n.clone()),
        Target::Digest(d) => Target::Digest(d.clone()),
    }
}

fn targets_of_fields(f: &Fields, out: &mut Vec<Target>) {
    match f {
        Fields::Named(fs) => {
            for x in fs {
                targets_of_type(&x.ty, out);
            }
        }
        Fields::Unnamed(ts) => {
            for t in ts {
                targets_of_type(t, out);
            }
        }
        Fields::Unit => {}
    }
}

fn targets_of(body: &Body) -> Vec<Target> {
    let mut out = Vec::new();
    match body {
        Body::Function { params, ret } => {
            for p in params {
                targets_of_type(&p.ty, &mut out);
            }
            targets_of_type(ret, &mut out);
        }
        Body::Struct(f) | Body::Union(f) => targets_of_fields(f, &mut out),
        Body::Enum(vs) => {
            for v in vs {
                targets_of_fields(&v.fields, &mut out);
            }
        }
        Body::Const { ty, .. } | Body::Static { ty, .. } => targets_of_type(ty, &mut out),
        Body::TypeAlias(t) => targets_of_type(t, &mut out),
        Body::Trait(bs) => {
            for b in bs {
                match b {
                    Bound::Trait(t) | Bound::Lifetime(t) => out.push(copy(t)),
                }
            }
        }
    }
    out
}

fn point_and_line(point: &str) -> Vec<Node> {
    nodes(vec![
        structure(point, vec![field("x", path("i32")), field("y", path("i32"))]),
        structure("Line", vec![field("a", path(point)), field("b", path(point))]),
    ])
}

fn refs2_nodes() -> Vec<Node> {
    vec![
        Node::Declaration(decl("B", Body::Enum(vec![unit_variant("X"), unit_variant("Y")]))),
        Node::Declaration(decl("X", Body::Struct(Fields::Unit))),
        Node::Declaration(decl(
            "A",
            Body::Enum(vec![
                Variant {
                    name: "V".to_string(),
                    fields: Fields::Unnamed(vec![path("B")]),
                    span: at(9, 5),
                },
                Variant {
                    name: "U".to_string(),
                    fields: Fields::Named(vec![field("x", path("B"))]),
                    span: at(10, 5),
                },
                Variant {
                    name: "T".to_string(),
                    fields: Fields::Unnamed(vec![path("X")]),
                    span: at(11, 5),
                },
            ]),
        )),
        Node::Declaration(structure(
            "M",
            vec![field("a", path("A")), field("b", path("B")), field("x", path("X"))],
        )),
        Node::Declaration(decl(
            "MyU",
            Body::Union(Fields::Named(vec![field("int", path("i32")), field("float", path("f64"))])),
        )),
        Node::Declaration(decl("VAR", Body::Static { ty: path("B"), value: "B :: X".to_string() })),
        Node::Declaration(decl("XXX", Body::Const { ty: path("X"), value: "X".to_string() })),
        Node::Declaration(decl("Integer", Body::TypeAlias(path("i32")))),
        Node::Declaration(decl(
            "Vector",
            Body::TypeAlias(TypeExpr::Tuple(vec![path("f64"), path("f64"), path("u8")])),
        )),
        Node::Declaration(decl(
            "VSingle",
            Body::Struct(Fields::Unnamed(vec![path("f32"), path("f64")])),
        )),
        Node::Declaration(decl("Ty", Body::Trait(vec![]))),
        Node::Module("mm".to_string()),
        Node::Declaration(decl(
            "modfn",
            Body::Function {
                params: vec![field("t", path("mm :: Smm"))],
                ret: TypeExpr::Tuple(vec![]),
            },
        )),
        Node::Declaration(decl(
            "Hashable",
            Body::Trait(vec![Bound::Trait(Target::Name("Ty".to_string()))]),
        )),
        Node::Declaration(decl(
            "main",
            Body::Function { params: vec![], ret: TypeExpr::Tuple(vec![]) },
        )),
    ]
}

#[test]
fn test_functions() {
    let cc = Compiler::extract(nodes(vec![
        decl(
            "add",
            Body::Function {
                params: vec![field("a", path("i32")), field("b", path("i32"))],
                ret: path("i32"),
            },
        ),
        decl(
            "first",
            Body::Function {
                params: vec![field(
                    "xs",
                    TypeExpr::Reference {
                        mutable: false,
                        elem: Box::new(TypeExpr::Slice(Box::new(path("u8")))),
                    },
                )],
                ret: generic("Option", vec![path("u8")]),
            },
        ),
        decl("main", Body::Function { params: vec![], ret: TypeExpr::Tuple(vec![]) }),
    ]))
    .unwrap();
    println!("compiler: {:#?}", cc.linking().declarations)
}

#[test]
fn test_types() {
    let cc = Compiler::extract(nodes(vec![
        structure("Pair", vec![field("left", path("u64")), field("right", path("u64"))]),
        decl("Id", Body::TypeAlias(path("u64"))),
        decl("Shape", Body::Enum(vec![unit_variant("Round"), unit_variant("Square")])),
        decl("LIMIT", Body::Const { ty: path("Id"), value: "10".to_string() }),
    ]))
    .unwrap();
    println!("compiler: {:#?}", cc.linking().declarations)
}

#[test]
fn test_refs1() {
    let cc = Compiler::extract(point_and_line("Point")).unwrap();
    println!("compiler: {:#?}", cc.linking().declarations)
}

#[test]
fn test_refs2() {
    let cc = Compiler::extract(refs2_nodes()).unwrap();
    println!("compiler: {:#?}", cc.linking().declarations)
}

#[test]
fn test_extract1() {
    let items = extract(nodes(vec![decl(
        "main",
        Body::Function { params: vec![], ret: path("int") },
    )]))
    .unwrap();
    println!("items (ex1.c): {:#?}", items);
}

#[test]
fn test_extract2() {
    let items = extract(vec![
        Node::Import("stdio.h".to_string()),
        Node::Declaration(decl(
            "sum",
            Body::Function {
                params: vec![field("a", path("int")), field("b", path("int"))],
                ret: path("int"),
            },
        )),
        Node::Declaration(decl("main", Body::Function { params: vec![], ret: path("int") })),
    ])
    .unwrap();
    println!("items (ex2.c): {:#?}", items);
}

#[test]
fn test_struct() {
    let items = extract(nodes(vec![
        structure("point", vec![field("x", path("int")), field("y", path("int"))]),
        decl(
            "number",
            Body::Union(Fields::Named(vec![field("i", path("int")), field("f", path("float"))])),
        ),
    ]))
    .unwrap();
    println!("items (structs.c): {:#?}", items);
}

#[test]
fn test_enum() {
    let items = extract(nodes(vec![decl(
        "color",
        Body::Enum(vec![unit_variant("RED"), unit_variant("GREEN"), unit_variant("BLUE")]),
    )]))
    .unwrap();
    println!("items (enum.c): {:#?}", items);
}

#[test]
fn test_typedef() {
    let items = extract(nodes(vec![
        structure("node", vec![field("next", TypeExpr::Opaque("struct node *".to_string()))]),
        decl("list", Body::TypeAlias(path("node"))),
    ]))
    .unwrap();
    println!("items (typedef.c): {:#?}", items);
}

#[test]
fn extract_keeps_declarations_in_order_and_drops_the_rest() {
    let items = extract(refs2_nodes()).unwrap();
    let names: Vec<&str> = items.iter().map(|d| d.name.as_str()).collect();
    assert_eq!(
        names,
        vec![
            "B", "X", "A", "M", "MyU", "VAR", "XXX", "Integer", "Vector", "VSingle", "Ty", "modfn",
            "Hashable", "main"
        ]
    );
    assert_eq!(car::model::ident(&items[3]), "M");
    assert_eq!(items[0].kind(), DeclKind::Enum);
    assert_eq!(items[4].kind(), DeclKind::Union);
    assert_eq!(items[5].kind(), DeclKind::Static);
    assert_eq!(items[10].kind(), DeclKind::Trait);
    let none = extract(vec![
        Node::Module("m".to_string()),
        Node::Implementation("T".to_string()),
        Node::Import("std".to_string()),
        Node::Other,
    ])
    .unwrap();
    assert!(none.is_empty());
    assert!(extract(vec![]).unwrap().is_empty());
}

#[test]
fn duplicate_name_fails_and_names_the_first_pair() {
    let input = || {
        vec![
            Node::Declaration(structure("A", vec![])),
            Node::Module("m".to_string()),
            Node::Declaration(structure("B", vec![])),
            Node::Declaration(decl("A", Body::TypeAlias(path("u8")))),
            Node::Declaration(structure("B", vec![])),
        ]
    };
    let expected = ExtractError::DuplicateName { name: "A".to_string(), first: 0, second: 2 };
    assert_eq!(extract(input()), Err(expected));
    match Compiler::extract(input()) {
        Err(ExtractError::DuplicateName { name, first, second }) => {
            assert_eq!((name.as_str(), first, second), ("A", 0, 2));
        }
        _ => panic!("a store was built of a unit with a name twice"),
    }
    let decls = extract(vec![Node::Declaration(structure("A", vec![]))]).unwrap();
    assert!(link(&decls).is_ok());
    let twice = vec![structure("A", vec![]), structure("A", vec![])];
    assert!(matches!(
        link(&twice),
        Err(ExtractError::DuplicateName { first: 0, second: 1, .. })
    ));
}

#[test]
fn sha1_of_known_text() {
    assert_eq!(hash_bytes(&b"hello world".to_vec()), "2aae6c35c94fcfb415dbe95f408b9ce91ee846ed");
    assert_eq!(hash_bytes(&Vec::new()), "da39a3ee5e6b4b0d3255bfef95601890afd80709");
    assert_eq!(hash_bytes(&vec![0u8]).len(), 40);
}

#[test]
fn hex_is_two_lower_case_digits_a_byte() {
    assert_eq!(to_hex(&vec![0x00, 0x0f, 0xa5, 0xff]), "000fa5ff");
    assert_eq!(to_hex(&vec![]), "");
}

#[test]
fn serialize_writes_tags_strings_and_lists() {
    let body = Body::Struct(Fields::Named(vec![field("x", path("i32"))]));
    let mut expected: Vec<u8> = vec![1, 0, 1];
    expected.extend_from_slice(b"x");
    expected.push(0xff);
    expected.extend_from_slice(&[0, 0]);
    expected.extend_from_slice(b"i32");
    expected.push(0xff);
    expected.extend_from_slice(&[0, 0]);
    assert_eq!(serialize(&body), expected);
    assert_eq!(serialize(&Body::Struct(Fields::Unit)), vec![1, 2]);
    assert_eq!(serialize(&Body::Trait(vec![])), vec![7, 0]);
    let digest = Body::TypeAlias(TypeExpr::Macro(Target::Digest("ab".to_string())));
    assert_eq!(serialize(&digest), vec![6, 9, 1, b'a', b'b', 0xff]);
}

#[test]
fn hashing_twice_gives_one_digest() {
    let body = Body::Struct(Fields::Named(vec![field("x", path("i32"))]));
    assert_eq!(hash(&body), hash(&body));
    assert_eq!(hash(&body), hash_bytes(&serialize(&body)));
}

#[test]
fn position_does_not_enter_the_digest() {
    let a = Body::TypeAlias(TypeExpr::Path {
        target: Target::Name("u8".to_string()),
        args: vec![],
        span: at(1, 1),
    });
    let b = Body::TypeAlias(TypeExpr::Path {
        target: Target::Name("u8".to_string()),
        args: vec![],
        span: at(90, 17),
    });
    assert_eq!(hash(&a), hash(&b));
}

#[test]
fn names_are_collected_once_each() {
    let ty = TypeExpr::Tuple(vec![
        TypeExpr::Reference { mutable: true, elem: Box::new(path("A")) },
        TypeExpr::Array { elem: Box::new(path("B")), len: "4".to_string() },
        TypeExpr::Slice(Box::new(TypeExpr::Paren(Box::new(path("A"))))),
        TypeExpr::Group(Box::new(generic("Option", vec![path("C")]))),
        TypeExpr::ImplTrait(vec![
            Bound::Trait(Target::Name("Foo".to_string())),
            Bound::Lifetime(Target::Name("a".to_string())),
        ]),
        TypeExpr::TraitObject(vec![Bound::Trait(Target::Name("Foo".to_string()))]),
        TypeExpr::Macro(Target::Name("mac".to_string())),
        TypeExpr::Opaque("fn()".to_string()),
        TypeExpr::Macro(Target::Digest("00".to_string())),
    ]);
    assert_eq!(base_types(&ty), vec!["A", "B", "Option", "C", "Foo", "a", "mac"]);
    assert!(base_types(&TypeExpr::Opaque("!".to_string())).is_empty());
    let bounds = vec![
        Bound::Trait(Target::Name("Foo".to_string())),
        Bound::Lifetime(Target::Name("a".to_string())),
        Bound::Trait(Target::Name("Foo".to_string())),
    ];
    assert_eq!(extract_bounds(&bounds), vec!["Foo", "a"]);
    let named = Fields::Named(vec![field("p", path("P")), field("q", path("Q")), field("r", path("P"))]);
    assert_eq!(fields(&named), vec!["P", "Q"]);
    assert_eq!(fields(&Fields::Unnamed(vec![path("P")])), vec!["P"]);
    assert!(fields(&Fields::Unit).is_empty());
    let function = Body::Function { params: vec![field("a", path("P"))], ret: path("R") };
    assert_eq!(references(&function), vec!["P", "R"]);
    assert_eq!(decl("f", function).reference_set(), vec!["P", "R"]);
    let tagged = decl("E", Body::Enum(vec![
        Variant { name: "A".to_string(), fields: Fields::Unnamed(vec![path("P")]), span: at(1, 1) },
        Variant { name: "B".to_string(), fields: Fields::Named(vec![field("q", path("Q"))]), span: at(2, 1) },
        unit_variant("C"),
    ]));
    assert_eq!(tagged.reference_set(), vec!["P", "Q"]);
    assert_eq!(decl("K", Body::Const { ty: path("P"), value: "Q".to_string() }).reference_set(), vec!["P"]);
}

#[test]
fn graph_has_a_row_of_names_for_each_declaration() {
    let decls = extract(refs2_nodes()).unwrap();
    let dag = TypeDAG::build(&decls);
    assert_eq!(dag.names.len(), 14);
    assert_eq!(dag.names[2], "A");
    assert_eq!(dag.edges[2], vec!["B", "X"]);
    assert_eq!(dag.edges[3], vec!["A", "B", "X"]);
    assert_eq!(dag.edges[4], vec!["i32", "f64"]);
    assert_eq!(dag.edges[12], vec!["Ty"]);
    assert!(dag.edges[0].is_empty());
}

#[test]
fn graph_text_lists_nodes_then_edges() {
    let decls = extract(point_and_line("Point")).unwrap();
    let text = TypeDAG::build(&decls).output_dag();
    let expected = "digraph {\n    0 [ label = \"\\\"Point\\\"\" ]\n    1 [ label = \"\\\"Line\\\"\" ]\n    1 -> 0 [ ]\n}\n";
    assert_eq!(text, expected);
    let empty = TypeDAG { names: vec![], edges: vec![] };
    assert_eq!(empty.output_dag(), "digraph {\n}\n");
    let uneven = TypeDAG {
        names: vec!["A".to_string()],
        edges: vec![vec!["A".to_string(), "leaf".to_string()], vec!["A".to_string()]],
    };
    assert_eq!(
        uneven.output_dag(),
        "digraph {\n    0 [ label = \"\\\"A\\\"\" ]\n    0 -> 0 [ ]\n}\n"
    );
}

#[test]
fn a_rename_leaves_both_digests() {
    let store = Compiler::extract(point_and_line("Point")).unwrap();
    let point = digest_of(&store, "Point");
    let line = digest_of(&store, "Line");
    assert_eq!(point.len(), 40);
    assert_ne!(point, line);
    let point_body = Body::Struct(Fields::Named(vec![
        Field { name: "x".to_string(), ty: bare("i32"), span: Span { line: 0, column: 0 } },
        Field { name: "y".to_string(), ty: bare("i32"), span: Span { line: 0, column: 0 } },
    ]));
    assert_eq!(point, hash(&point_body));
    let rewritten = store.lookup_digest(&line).unwrap();
    assert_eq!(rewritten.name, "Line");
    assert_eq!(
        targets_of(&rewritten.body),
        vec![Target::Digest(point.clone()), Target::Digest(point.clone())]
    );
    assert_eq!(line, hash(&rewritten.body));
    let other = Compiler::extract(point_and_line("Other")).unwrap();
    assert_eq!(digest_of(&other, "Other"), point);
    assert_eq!(digest_of(&other, "Line"), line);
    let renamed = Compiler::extract(point_and_line("Coord")).unwrap();
    assert_eq!(digest_of(&renamed, "Coord"), point);
    assert_eq!(digest_of(&renamed, "Line"), line);
    assert!(renamed.lookup_name("Point").is_none());
    let wider = Compiler::extract(nodes(vec![
        structure("Point", vec![field("x", path("i64")), field("y", path("i32"))]),
        structure("Line", vec![field("a", path("Point")), field("b", path("Point"))]),
    ]))
    .unwrap();
    assert_ne!(digest_of(&wider, "Point"), point);
    assert_ne!(digest_of(&wider, "Line"), line);
}

fn bare(name: &str) -> TypeExpr {
    TypeExpr::Path {
        target: Target::Name(name.to_string()),
        args: vec![],
        span: Span { line: 0, column: 0 },
    }
}

#[test]
fn a_self_reference_resolves_to_the_digest_of_its_component() {
    let node = || {
        nodes(vec![structure("Node", vec![field("next", generic("Option", vec![path("Node")]))])])
    };
    let store = Compiler::extract(node()).unwrap();
    let digest = digest_of(&store, "Node");
    let rewritten = store.lookup_digest(&digest).unwrap();
    let targets = targets_of(&rewritten.body);
    assert_eq!(targets.len(), 2);
    assert_eq!(targets[0], Target::Name("Option".to_string()));
    let provisional = hash(&Body::Struct(Fields::Named(vec![Field {
        name: "next".to_string(),
        ty: TypeExpr::Path {
            target: Target::Name("Option".to_string()),
            args: vec![bare("Node")],
            span: Span { line: 0, column: 0 },
        },
        span: Span { line: 0, column: 0 },
    }])));
    let mut group_bytes: Vec<u8> = vec![1];
    group_bytes.extend_from_slice(b"Node");
    group_bytes.push(0xff);
    group_bytes.extend_from_slice(provisional.as_bytes());
    group_bytes.push(0xff);
    group_bytes.push(0);
    let group = hash_bytes(&group_bytes);
    assert_eq!(targets[1], Target::Digest(group));
    assert_eq!(digest, hash(&rewritten.body));
    assert_eq!(digest_of(&Compiler::extract(node()).unwrap(), "Node"), digest);
}

#[test]
fn identical_enums_share_a_digest() {
    let colour = |name: &str, line: u32| {
        Node::Declaration(Declaration {
            name: name.to_string(),
            body: Body::Enum(vec![
                Variant { name: "Red".to_string(), fields: Fields::Unit, span: at(line + 1, 5) },
                Variant { name: "Green".to_string(), fields: Fields::Unit, span: at(line + 2, 5) },
                Variant { name: "Blue".to_string(), fields: Fields::Unit, span: at(line + 3, 5) },
            ]),
            span: at(line, 1),
        })
    };
    let first = Compiler::extract(vec![colour("Color", 1)]).unwrap();
    let second =
        Compiler::extract(vec![Node::Import("x".to_string()), colour("Color", 40)]).unwrap();
    let digest = digest_of(&first, "Color");
    assert_eq!(digest_of(&second, "Color"), digest);
    assert_eq!(first.lookup_digest(&digest), second.lookup_digest(&digest));
    let both = Compiler::extract(vec![colour("Color", 1), colour("Colour", 9)]).unwrap();
    assert_eq!(digest_of(&both, "Color"), digest);
    assert_eq!(digest_of(&both, "Colour"), digest);
    assert_eq!(both.lookup_digest(&digest).unwrap().name, "Colour");
    let reordered = Compiler::extract(vec![Node::Declaration(decl(
        "Color",
        Body::Enum(vec![unit_variant("Green"), unit_variant("Red"), unit_variant("Blue")]),
    ))])
    .unwrap();
    assert_ne!(digest_of(&reordered, "Color"), digest);
}

#[test]
fn shape_changes_the_digest_and_bound_order_does_not() {
    let base = Body::Function {
        params: vec![field("a", path("u8")), field("b", path("u16"))],
        ret: path("u8"),
    };
    let swapped = Body::Function {
        params: vec![field("b", path("u16")), field("a", path("u8"))],
        ret: path("u8"),
    };
    let fewer = Body::Function { params: vec![field("a", path("u8"))], ret: path("u8") };
    let more = Body::Function {
        params: vec![field("a", path("u8")), field("b", path("u16")), field("c", path("u8"))],
        ret: path("u8"),
    };
    assert_ne!(hash(&base), hash(&swapped));
    assert_ne!(hash(&base), hash(&fewer));
    assert_ne!(hash(&base), hash(&more));
    assert_ne!(
        hash(&Body::Struct(Fields::Named(vec![field("a", path("u8"))]))),
        hash(&Body::Union(Fields::Named(vec![field("a", path("u8"))])))
    );
    let foo = || Bound::Trait(Target::Name("Foo".to_string()));
    let bar = || Bound::Trait(Target::Name("Bar".to_string()));
    let life = || Bound::Lifetime(Target::Name("a".to_string()));
    let one = Compiler::extract(nodes(vec![decl("T", Body::Trait(vec![foo(), bar(), life()]))]))
        .unwrap();
    let two = Compiler::extract(nodes(vec![decl("T", Body::Trait(vec![life(), bar(), foo()]))]))
        .unwrap();
    let digest = digest_of(&one, "T");
    assert_eq!(digest_of(&two, "T"), digest);
    assert_eq!(
        one.lookup_digest(&digest).unwrap().body,
        Body::Trait(vec![bar(), foo(), life()])
    );
    let three = Compiler::extract(nodes(vec![decl("T", Body::Trait(vec![foo(), bar()]))])).unwrap();
    assert_ne!(digest_of(&three, "T"), digest);
    let boxed = |bs: Vec<Bound>| {
        nodes(vec![structure("S", vec![field("f", TypeExpr::TraitObject(bs))])])
    };
    assert_eq!(
        digest_of(&Compiler::extract(boxed(vec![foo(), bar()])).unwrap(), "S"),
        digest_of(&Compiler::extract(boxed(vec![bar(), foo()])).unwrap(), "S")
    );
}

#[test]
fn a_cycle_of_two_shares_one_digest_whatever_the_order() {
    let a = || structure("A", vec![field("b", path("B")), field("n", path("u8"))]);
    let b = || structure("B", vec![field("a", path("A"))]);
    let one = Compiler::extract(nodes(vec![a(), b()])).unwrap();
    let two = Compiler::extract(nodes(vec![b(), a()])).unwrap();
    let da = digest_of(&one, "A");
    let db = digest_of(&one, "B");
    assert_ne!(da, db);
    assert_eq!(digest_of(&two, "A"), da);
    assert_eq!(digest_of(&two, "B"), db);
    let in_a = targets_of(&one.lookup_digest(&da).unwrap().body);
    let in_b = targets_of(&one.lookup_digest(&db).unwrap().body);
    assert_eq!(in_a.len(), 2);
    assert_eq!(in_b.len(), 1);
    assert_eq!(in_a[0], in_b[0]);
    assert!(matches!(in_a[0], Target::Digest(_)));
    assert_eq!(in_a[1], Target::Name("u8".to_string()));
    assert_ne!(in_a[0], Target::Digest(da.clone()));
    assert_ne!(in_a[0], Target::Digest(db.clone()));
    let user = || structure("U", vec![field("a", path("A"))]);
    let three = Compiler::extract(nodes(vec![user(), a(), b()])).unwrap();
    assert_eq!(digest_of(&three, "A"), da);
    let in_u = targets_of(&three.lookup_digest(&digest_of(&three, "U")).unwrap().body);
    assert_eq!(in_u, vec![Target::Digest(da)]);
}

#[test]
fn references_after_linking_are_digests_of_the_store_or_leaves() {
    let store = Compiler::extract(refs2_nodes()).unwrap();
    let names = [
        "B", "X", "A", "M", "MyU", "VAR", "XXX", "Integer", "Vector", "VSingle", "Ty", "modfn",
        "Hashable", "main",
    ];
    for name in names {
        let digest = digest_of(&store, name);
        let decl = store.lookup_digest(&digest).unwrap();
        assert_eq!(digest, hash(&decl.body));
        for target in targets_of(&decl.body) {
            match target {
                Target::Digest(d) => assert!(store.lookup_digest(&d).is_some()),
                Target::Name(n) => assert!(store.lookup_name(&n).is_none()),
            }
        }
    }
    assert!(store.lookup_name("mm").is_none());
    assert!(store.lookup_digest("0000").is_none());
    let m = store.lookup_digest(&digest_of(&store, "M")).unwrap();
    assert_eq!(
        targets_of(&m.body),
        vec![
            Target::Digest(digest_of(&store, "A")),
            Target::Digest(digest_of(&store, "B")),
            Target::Digest(digest_of(&store, "X")),
        ]
    );
}

#[test]
fn linking_keeps_the_order_of_the_unit() {
    let decls = extract(point_and_line("Point")).unwrap();
    let linked = link(&decls).unwrap();
    assert_eq!(linked.declarations.len(), 2);
    assert_eq!(linked.digests.len(), 2);
    assert_eq!(linked.declarations[0].name, "Point");
    assert_eq!(linked.declarations[1].name, "Line");
    assert_eq!(linked.digests[1], hash(&linked.declarations[1].body));
    assert_eq!(
        targets_of(&linked.declarations[1].body),
        vec![Target::Digest(linked.digests[0].clone()), Target::Digest(linked.digests[0].clone())]
    );
    let empty = link(&Vec::new()).unwrap();
    assert!(empty.declarations.is_empty());
}

#[test]
fn checked_linking_wants_every_mention_in_the_graph() {
    let decls = extract(point_and_line("Point")).unwrap();
    let full = TypeDAG::build(&decls);
    assert!(full.first_gap(&decls).is_none());
    let linked = car::link::link_checked(&decls, &full).unwrap();
    assert_eq!(linked.digests, link(&decls).unwrap().digests);
    let thin = TypeDAG {
        names: vec!["Point".to_string(), "Line".to_string()],
        edges: vec![vec!["i32".to_string()], vec![]],
    };
    assert_eq!(thin.first_gap(&decls), Some((1, "Point".to_string())));
    match car::link::link_checked(&decls, &thin) {
        Err(ExtractError::UnresolvedReference { declaration, reference }) => {
            assert_eq!((declaration.as_str(), reference.as_str()), ("Line", "Point"));
        }
        _ => panic!("a mention that the graph does not list went through"),
    }
    let short = TypeDAG { names: vec![], edges: vec![] };
    assert_eq!(short.first_gap(&decls), Some((0, "i32".to_string())));
    let wide = TypeDAG {
        names: vec![],
        edges: vec![
            vec!["i32".to_string(), "u8".to_string()],
            vec!["Point".to_string()],
            vec!["x".to_string()],
        ],
    };
    assert!(car::link::link_checked(&decls, &wide).is_ok());
    let twice = vec![structure("A", vec![]), structure("A", vec![])];
    assert!(matches!(
        car::link::link_checked(&twice, &short),
        Err(ExtractError::DuplicateName { first: 0, second: 1, .. })
    ));
}

#[test]
fn store_hands_out_the_linking_in_order() {
    let store = Compiler::extract(point_and_line("Point")).unwrap();
    let linking = store.linking();
    assert_eq!(linking.declarations.len(), 2);
    assert_eq!(linking.declarations[0].name, "Point");
    assert_eq!(linking.digests[0], digest_of(&store, "Point"));
    assert_eq!(linking.digests[1], digest_of(&store, "Line"));
    assert_eq!(store.lookup_digest(&linking.digests[1]), Some(&linking.declarations[1]));
}

#[test]
fn renaming_a_member_of_a_cycle_changes_its_digest() {
    let node = |name: &str| {
        nodes(vec![structure(name, vec![field("next", generic("Option", vec![path(name)]))])])
    };
    let one = Compiler::extract(node("Node")).unwrap();
    let two = Compiler::extract(node("Elem")).unwrap();
    assert_ne!(digest_of(&one, "Node"), digest_of(&two, "Elem"));
}

#[test]
fn a_long_chain_and_a_wide_cycle_are_linked() {
    let mut decls = Vec::new();
    for i in 0..40 {
        let next = format!("C{}", i + 1);
        let name = format!("C{i}");
        decls.push(structure(&name, vec![field("next", path(&next))]));
    }
    decls.push(structure("C40", vec![field("back", path("C35")), field("leaf", path("u8"))]));
    let store = Compiler::extract(nodes(decls)).unwrap();
    let linking = store.linking();
    assert_eq!(linking.digests.len(), 41);
    for i in 0..41 {
        assert_eq!(linking.digests[i], hash(&linking.declarations[i].body));
    }
    let group = copy(&targets_of(&linking.declarations[40].body)[0]);
    for i in 35..40 {
        assert_eq!(targets_of(&linking.declarations[i].body), vec![copy(&group)]);
    }
    assert_eq!(
        targets_of(&linking.declarations[34].body),
        vec![Target::Digest(linking.digests[35].clone())]
    );
    assert_eq!(
        targets_of(&linking.declarations[0].body),
        vec![Target::Digest(linking.digests[1].clone())]
    );
}
