//! The extractor: from the parsed top-level nodes to the declarations that
//! have a digest, with no name twice.

use crate::model::{decls_model, nodes_model, DeclModel, Declaration, Node, NodeModel};
use vstd::hash_map::StringHashMap;
use vstd::prelude::*;

verus! {

/// The declarations among the nodes, in their order.
pub open spec fn retained(ns: Seq<NodeModel>) -> Seq<DeclModel>
    decreases ns.len(),
{
    if ns.len() == 0 {
        Seq::empty()
    } else {
        match ns.last() {
            NodeModel::Declaration(d) => retained(ns.drop_last()).push(d),
            _ => retained(ns.drop_last()),
        }
    }
}

/// No two declarations share a name.
pub open spec fn unique_names(ds: Seq<DeclModel>) -> bool {
    forall|i: int, j: int| 0 <= i < j < ds.len() ==> ds[i].name != ds[j].name
}

/// Why a unit has no store.
#[derive(Debug, PartialEq, Eq)]
pub enum ExtractError {
    /// Two declarations share a name. `first` and `second` are their places
    /// among the declarations of the unit.
    DuplicateName { name: String, first: usize, second: usize },
    /// A name that a declaration mentions is neither declared nor a leaf.
    UnresolvedReference { declaration: String, reference: String },
}

/// The first clash of names: `second` is the first declaration whose name
/// an earlier one has, and `first` is that earlier one.
pub open spec fn first_clash(ds: Seq<DeclModel>, first: int, second: int) -> bool {
    &&& 0 <= first < second < ds.len()
    &&& ds[first].name == ds[second].name
    &&& unique_names(ds.take(second))
}

/// Keeps the nodes that are declarations and drops the others.
pub fn declarations(nodes: Vec<Node>) -> (out: Vec<Declaration>)
    ensures
        decls_model(out@) == retained(nodes_model(nodes@)),
{
    let ghost all = nodes_model(nodes@);
    let mut out: Vec<Declaration> = Vec::new();
    assert(all.take(0) =~= Seq::<NodeModel>::empty());
    assert(decls_model(out@) =~= retained(all.take(0)));
    for node in it: nodes
        invariant
            all == nodes_model(nodes@),
            decls_model(out@) == retained(all.take(it.index() as int)),
    {
        let ghost before = decls_model(out@);
        let ghost k = it.index() as int;
        proof {
            assert(all.take(k + 1).drop_last() =~= all.take(k));
            assert(all.take(k + 1).last() == all[k]);
        }
        match node {
            Node::Declaration(d) => {
                out.push(d);
                assert(decls_model(out@) =~= before.push(d@));
            },
            _ => {},
        }
    }
    assert(all.take(nodes@.len() as int) =~= all);
    out
}

/// `index` finds each declaration by its name.
pub open spec fn is_index(index: Map<Seq<char>, usize>, ds: Seq<DeclModel>) -> bool {
    &&& forall|i: int| 0 <= i < ds.len() ==> index.contains_key(#[trigger] ds[i].name)
    &&& forall|n: Seq<char>| #[trigger]
        index.contains_key(n) ==> 0 <= index[n] < ds.len() && ds[index[n] as int].name == n
}

/// Builds the table from names to places, or finds the first clash of names.
pub fn index_names(ds: &Vec<Declaration>) -> (r: Result<StringHashMap<usize>, (usize, usize)>)
    ensures
        match r {
            Ok(index) => unique_names(decls_model(ds@)) && is_index(index@, decls_model(ds@)),
            Err((first, second)) => first_clash(decls_model(ds@), first as int, second as int),
        },
{
    let ghost ms = decls_model(ds@);
    let mut index: StringHashMap<usize> = StringHashMap::new();
    let mut j: usize = 0;
    while j < ds.len()
        invariant
            j <= ds.len(),
            ms == decls_model(ds@),
            unique_names(ms.take(j as int)),
            is_index(index@, ms.take(j as int)),
        decreases ds.len() - j,
    {
        match index.get(ds[j].name.as_str()) {
            Some(i) => {
                let first = *i;
                assert(ms.take(j as int)[first as int].name == ms[j as int].name);
                return Err((first, j));
            },
            None => {},
        }
        index.insert(ds[j].name.clone(), j);
        proof {
            let a = ms.take(j as int);
            let b = ms.take(j as int + 1);
            assert forall|x: int, y: int| 0 <= x < y < b.len() implies b[x].name != b[y].name by {
                if y < j {
                    assert(a[x].name != a[y].name);
                } else {
                    assert(a[x].name == b[x].name);
                }
            }
            assert forall|i: int| 0 <= i < b.len() implies index@.contains_key(
                #[trigger] b[i].name,
            ) by {
                if i < j {
                    assert(a[i].name == b[i].name);
                }
            }
            assert forall|n: Seq<char>| #[trigger] index@.contains_key(n) implies 0 <= index@[n]
                < b.len() && b[index@[n] as int].name == n by {
                if n != ms[j as int].name {
                    assert(a[index@[n] as int].name == n);
                }
            }
        }
        j += 1;
    }
    assert(ms.take(ds.len() as int) =~= ms);
    Ok(index)
}

/// The extractor. It keeps the declarations among the nodes, in their
/// order, and drops every other node; it fails where two of the
/// declarations share a name, and then names the first such pair.
pub fn extract(nodes: Vec<Node>) -> (r: Result<Vec<Declaration>, ExtractError>)
    ensures
        match r {
            Ok(ds) => {
                &&& decls_model(ds@) == retained(nodes_model(nodes@))
                &&& unique_names(decls_model(ds@))
            },
            Err(ExtractError::DuplicateName { name, first, second }) => {
                &&& first_clash(retained(nodes_model(nodes@)), first as int, second as int)
                &&& name@ == retained(nodes_model(nodes@))[second as int].name
            },
            Err(ExtractError::UnresolvedReference { .. }) => false,
        },
        r is Ok <==> unique_names(retained(nodes_model(nodes@))),
{
    let ds = declarations(nodes);
    match index_names(&ds) {
        Ok(_) => Ok(ds),
        Err((first, second)) => {
            let name = ds[second].name.clone();
            proof {
                let ms = decls_model(ds@);
                assert(ms[first as int].name == ms[second as int].name);
            }
            Err(ExtractError::DuplicateName { name, first, second })
        },
    }
}

} // verus!
