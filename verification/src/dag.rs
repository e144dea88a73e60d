//! The dependency graph of a unit by names: for each declaration, the names
//! that its body mentions.

use crate::extract::{is_index, unique_names};
use crate::graph::{graph_of_lists, is_adjacency};
use crate::model::{decls_model, DeclModel, Declaration};
use crate::refs::{body_names, has_name, is_name_set, references, strings_model};
use crate::unit::graph_of;
use vstd::hash_map::StringHashMap;
use vstd::prelude::*;

verus! {

/// For each declaration of a unit, in the unit's order, its name and the
/// names that its body mentions. A mentioned name that no declaration has is
/// a leaf of the graph.
pub struct TypeDAG {
    pub names: Vec<String>,
    pub edges: Vec<Vec<String>>,
}

impl TypeDAG {
    /// This is the graph of the declarations `ds`.
    pub open spec fn describes(&self, ds: Seq<DeclModel>) -> bool {
        &&& self.names.len() == ds.len()
        &&& self.edges.len() == ds.len()
        &&& forall|i: int| 0 <= i < ds.len() ==> (#[trigger] self.names[i])@ == ds[i].name
        &&& forall|i: int| 0 <= i < ds.len() ==> is_name_set((#[trigger] self.edges[i])@)
        &&& forall|i: int|
            0 <= i < ds.len() ==> strings_model((#[trigger] self.edges[i])@).to_set() == body_names(
                ds[i].body,
            )
    }

    /// Builds the graph of a unit: one node for each declaration, and from
    /// it one edge to each name that its body mentions in a type position.
    pub fn build(decls: &Vec<Declaration>) -> (dag: TypeDAG)
        ensures
            dag.describes(decls_model(decls@)),
    {
        let mut names: Vec<String> = Vec::new();
        let mut edges: Vec<Vec<String>> = Vec::new();
        let mut i: usize = 0;
        while i < decls.len()
            invariant
                i <= decls.len(),
                names.len() == i,
                edges.len() == i,
                forall|k: int| 0 <= k < i ==> (#[trigger] names[k])@ == decls[k]@.name,
                forall|k: int| 0 <= k < i ==> is_name_set((#[trigger] edges[k])@),
                forall|k: int|
                    0 <= k < i ==> strings_model((#[trigger] edges[k])@).to_set() == body_names(
                        decls[k]@.body,
                    ),
            decreases decls.len() - i,
        {
            names.push(decls[i].name.clone());
            edges.push(references(&decls[i].body));
            i += 1;
        }
        TypeDAG { names, edges }
    }

    /// The row of the `i`-th declaration lists every name that its body
    /// mentions.
    pub open spec fn covers_row(&self, ds: Seq<DeclModel>, i: int) -> bool {
        forall|n: Seq<char>| #[trigger]
            body_names(ds[i].body).contains(n) ==> i < self.edges.len() && strings_model(
                self.edges[i]@,
            ).contains(n)
    }

    /// The graph accounts for every name that the declarations mention, as
    /// the name of a declaration or as a leaf.
    pub open spec fn covers(&self, ds: Seq<DeclModel>) -> bool {
        forall|i: int| 0 <= i < ds.len() ==> self.covers_row(ds, i)
    }

    /// The first name that a declaration mentions and the graph does not
    /// account for, with the place of the declaration.
    pub fn first_gap(&self, decls: &Vec<Declaration>) -> (r: Option<(usize, String)>)
        ensures
            match r {
                None => self.covers(decls_model(decls@)),
                Some((i, name)) => {
                    &&& i < decls.len()
                    &&& body_names(decls_model(decls@)[i as int].body).contains(name@)
                    &&& !(i < self.edges.len() && strings_model(self.edges[i as int]@).contains(
                        name@,
                    ))
                    &&& forall|k: int| 0 <= k < i ==> self.covers_row(decls_model(decls@), k)
                },
            },
    {
        let ghost ds = decls_model(decls@);
        let mut i: usize = 0;
        while i < decls.len()
            invariant
                i <= decls.len(),
                ds == decls_model(decls@),
                forall|k: int| 0 <= k < i ==> self.covers_row(ds, k),
            decreases decls.len() - i,
        {
            let names = references(&decls[i].body);
            let mut e: usize = 0;
            while e < names.len()
                invariant
                    i < decls.len(),
                    ds == decls_model(decls@),
                    e <= names.len(),
                    strings_model(names@).to_set() == body_names(ds[i as int].body),
                    forall|x: int|
                        0 <= x < e ==> i < self.edges.len() && strings_model(
                            self.edges[i as int]@,
                        ).contains(#[trigger] strings_model(names@)[x]),
                    forall|k: int| 0 <= k < i ==> self.covers_row(ds, k),
                decreases names.len() - e,
            {
                proof {
                    assert(strings_model(names@)[e as int] == names[e as int]@);
                    assert(strings_model(names@).to_set().contains(names[e as int]@));
                }
                if i >= self.edges.len() || !has_name(&self.edges[i], &names[e]) {
                    return Some((i, names[e].clone()));
                }
                e += 1;
            }
            proof {
                assert forall|n: Seq<char>| #[trigger]
                    body_names(ds[i as int].body).contains(n) implies i < self.edges.len()
                    && strings_model(self.edges[i as int]@).contains(n) by {
                    assert(strings_model(names@).to_set().contains(n));
                    let x = choose|x: int|
                        0 <= x < strings_model(names@).len() && strings_model(names@)[x] == n;
                    assert(strings_model(self.edges[i as int]@).contains(strings_model(names@)[x]));
                }
            }
            i += 1;
        }
        None
    }

    /// The graph by places: for each declaration, the places of the
    /// declarations that it mentions. Leaves have no place and are left out.
    pub(crate) fn resolve(&self, decls: &Vec<Declaration>, index: &StringHashMap<usize>) -> (adj: Vec<
        Vec<usize>,
    >)
        requires
            self.describes(decls_model(decls@)),
            unique_names(decls_model(decls@)),
            is_index(index@, decls_model(decls@)),
        ensures
            adj.len() == decls.len(),
            is_adjacency(adj@),
            graph_of_lists(adj@) == graph_of(decls_model(decls@)),
    {
        let ghost ds = decls_model(decls@);
        let n = self.edges.len();
        let mut adj: Vec<Vec<usize>> = Vec::new();
        let mut i: usize = 0;
        while i < n
            invariant
                n == ds.len(),
                self.describes(ds),
                unique_names(ds),
                is_index(index@, ds),
                i <= n,
                adj.len() == i,
                forall|a: int, k: int|
                    0 <= a < i && 0 <= k < adj[a].len() ==> #[trigger] adj[a][k] < n,
                forall|a: int, j: int|
                    0 <= a < i ==> ((exists|k: int| 0 <= k < adj[a].len() && #[trigger] adj[a][k] == j)
                        <==> #[trigger] graph_of(ds)[a].contains(j)),
            decreases n - i,
        {
            let row_names = &self.edges[i];
            let ghost wanted = strings_model(row_names@);
            let mut row: Vec<usize> = Vec::new();
            let mut e: usize = 0;
            while e < row_names.len()
                invariant
                    n == ds.len(),
                    i < n,
                    unique_names(ds),
                    is_index(index@, ds),
                    e <= row_names.len(),
                    wanted == strings_model(row_names@),
                    wanted.to_set() == body_names(ds[i as int].body),
                    forall|k: int| 0 <= k < row.len() ==> #[trigger] row[k] < n,
                    forall|k: int|
                        0 <= k < row.len() ==> graph_of(ds)[i as int].contains(
                            #[trigger] row[k] as int,
                        ),
                    forall|x: int|
                        0 <= x < e && index@.contains_key(#[trigger] wanted[x]) ==> exists|k: int|
                            0 <= k < row.len() && #[trigger] row[k] == index@[wanted[x]],
                decreases row_names.len() - e,
            {
                match index.get(row_names[e].as_str()) {
                    Some(j) => {
                        let ghost before = row@;
                        row.push(*j);
                        proof {
                            assert(wanted[e as int] == row_names[e as int]@);
                            assert(wanted.to_set().contains(wanted[e as int]));
                            assert forall|x: int|
                                0 <= x <= e && index@.contains_key(
                                    #[trigger] wanted[x],
                                ) implies exists|k: int|
                                0 <= k < row.len() && #[trigger] row[k] == index@[wanted[x]] by {
                                if x < e {
                                    let k = choose|k: int|
                                        0 <= k < before.len() && #[trigger] before[k]
                                            == index@[wanted[x]];
                                    assert(row[k] == index@[wanted[x]]);
                                } else {
                                    assert(row[before.len() as int] == index@[wanted[x]]);
                                }
                            }
                        }
                    },
                    None => {
                        assert(wanted[e as int] == row_names[e as int]@);
                    },
                }
                e += 1;
            }
            proof {
                assert forall|j: int| #[trigger]
                    graph_of(ds)[i as int].contains(j) implies exists|k: int|
                    0 <= k < row.len() && #[trigger] row[k] == j by {
                    let name = ds[j].name;
                    assert(wanted.to_set().contains(name));
                    let x = choose|x: int| 0 <= x < wanted.len() && wanted[x] == name;
                    assert(index@.contains_key(ds[j].name));
                    let j2 = index@[name] as int;
                    if j2 < j {
                        assert(ds[j2].name != ds[j].name);
                    }
                    if j < j2 {
                        assert(ds[j].name != ds[j2].name);
                    }
                }
            }
            let ghost done = adj@;
            adj.push(row);
            proof {
                assert forall|a: int, j: int| 0 <= a <= i implies ((exists|k: int|
                    0 <= k < adj[a].len() && #[trigger] adj[a][k] == j) <==> #[trigger] graph_of(
                    ds,
                )[a].contains(j)) by {
                    if a < i {
                        assert(adj[a] == done[a]);
                        if exists|k: int| 0 <= k < adj[a].len() && #[trigger] adj[a][k] == j {
                            let k = choose|k: int| 0 <= k < adj[a].len() && #[trigger] adj[a][k] == j;
                            assert(done[a][k] == j);
                        }
                        if graph_of(ds)[a].contains(j) {
                            let k = choose|k: int|
                                0 <= k < done[a].len() && #[trigger] done[a][k] == j;
                            assert(adj[a][k] == j);
                        }
                    } else {
                        if exists|k: int| 0 <= k < adj[a].len() && #[trigger] adj[a][k] == j {
                            let k = choose|k: int| 0 <= k < adj[a].len() && #[trigger] adj[a][k] == j;
                            assert(graph_of(ds)[i as int].contains(adj[a][k] as int));
                        }
                        if graph_of(ds)[a].contains(j) {
                            let k = choose|k: int| 0 <= k < adj[a].len() && #[trigger] adj[a][k] == j;
                        }
                    }
                }
            }
            i += 1;
        }
        proof {
            assert forall|a: int| 0 <= a < n implies graph_of_lists(adj@)[a] =~= graph_of(ds)[a] by {
                assert forall|j: int| graph_of_lists(adj@)[a].contains(j) <==> graph_of(
                    ds,
                )[a].contains(j) by {
                    if graph_of(ds)[a].contains(j) {
                        let k = choose|k: int| 0 <= k < adj[a].len() && #[trigger] adj[a][k] == j;
                    }
                }
            }
            assert(graph_of_lists(adj@) =~= graph_of(ds));
        }
        adj
    }
}

} // verus!
