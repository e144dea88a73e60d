//! The dependency graph as Graphviz text.

use crate::dag::TypeDAG;
use crate::refs::{has_name, strings_model};
use petgraph::dot::{Config, Dot};
use petgraph::{Directed, Graph};
use vstd::prelude::*;

verus! {

/// The Graphviz text of the directed graph with these node labels and these
/// edges, each edge a pair of places among the labels.
pub uninterp spec fn dot_text(labels: Seq<Seq<char>>, edges: Seq<(int, int)>) -> Seq<char>;

pub open spec fn pairs_model(edges: Seq<(usize, usize)>) -> Seq<(int, int)> {
    Seq::new(edges.len(), |k: int| (edges[k].0 as int, edges[k].1 as int))
}

/// Builds a `petgraph::Graph` with one node for each label, in order, and
/// one edge for each pair, in order, and formats it with `petgraph::dot::Dot`
/// under `Config::EdgeNoLabel`, labels in their debug form. The text depends
/// on the labels and the pairs alone. Every pair must name nodes that exist:
/// `extend_with_edges` would add the missing ones.
#[verifier::external_body]
fn render_dot(labels: &Vec<String>, edges: &Vec<(usize, usize)>) -> (text: String)
    requires
        forall|k: int|
            0 <= k < edges.len() ==> (#[trigger] edges[k]).0 < labels.len() && edges[k].1
                < labels.len(),
    ensures
        text@ == dot_text(strings_model(labels@), pairs_model(edges@)),
{
    let mut graph = Graph::<&str, (), Directed, usize>::with_capacity(0, 0);
    for label in labels.iter() {
        graph.add_node(label.as_str());
    }
    graph.extend_with_edges(edges.iter().map(|e| (e.0, e.1)));
    format!("{:?}", Dot::with_config(&graph, &[Config::EdgeNoLabel]))
}

/// `i` is the first place at which `n` stands.
pub open spec fn is_first_place(names: Seq<Seq<char>>, n: Seq<char>, i: int) -> bool {
    &&& 0 <= i < names.len()
    &&& names[i] == n
    &&& forall|j: int| 0 <= j < i ==> names[j] != n
}

pub open spec fn first_place(names: Seq<Seq<char>>, n: Seq<char>) -> int {
    choose|i: int| is_first_place(names, n, i)
}

/// The edges that leave the `i`-th node: one for each name of its row that
/// is the name of a node, in the row's order.
pub open spec fn row_pairs(names: Seq<Seq<char>>, i: int, row: Seq<Seq<char>>) -> Seq<(int, int)>
    decreases row.len(),
{
    if row.len() == 0 {
        Seq::empty()
    } else if names.contains(row.last()) {
        row_pairs(names, i, row.drop_last()).push((i, first_place(names, row.last())))
    } else {
        row_pairs(names, i, row.drop_last())
    }
}

pub open spec fn rows_model(rows: Seq<Vec<String>>) -> Seq<Seq<Seq<char>>> {
    Seq::new(rows.len(), |i: int| strings_model(rows[i]@))
}

/// The edges of the graph between its nodes, row by row. Names that are no
/// node's name are leaves and give no edge.
pub open spec fn all_pairs(names: Seq<Seq<char>>, rows: Seq<Seq<Seq<char>>>) -> Seq<(int, int)>
    decreases rows.len(),
{
    if rows.len() == 0 {
        Seq::empty()
    } else {
        all_pairs(names, rows.drop_last()) + row_pairs(names, rows.len() - 1, rows.last())
    }
}

/// The first place at which `name` stands among `names`.
pub fn find_name(names: &Vec<String>, name: &String) -> (r: Option<usize>)
    ensures
        match r {
            Some(i) => is_first_place(strings_model(names@), name@, i as int),
            None => !strings_model(names@).contains(name@),
        },
{
    let mut i: usize = 0;
    while i < names.len()
        invariant
            i <= names.len(),
            forall|k: int| 0 <= k < i ==> strings_model(names@)[k] != name@,
        decreases names.len() - i,
    {
        if names[i] == *name {
            assert(strings_model(names@)[i as int] == name@);
            return Some(i);
        }
        i += 1;
    }
    None
}

pub proof fn lemma_first_place(names: Seq<Seq<char>>, n: Seq<char>, i: int)
    requires
        is_first_place(names, n, i),
    ensures
        first_place(names, n) == i,
        names.contains(n),
{
    let j = first_place(names, n);
    assert(is_first_place(names, n, j));
    if j < i {
        assert(names[j] != n);
    }
    if i < j {
        assert(names[i] != n);
    }
}

impl TypeDAG {
    /// The rows of the graph that have a node: as many as there are names.
    pub open spec fn rows(&self) -> Seq<Seq<Seq<char>>> {
        if self.edges.len() <= self.names.len() {
            rows_model(self.edges@)
        } else {
            rows_model(self.edges@.take(self.names.len() as int))
        }
    }

    /// The graph as Graphviz text: a node for each declaration, labelled
    /// with its name, and an edge for each mention of a declaration.
    pub fn output_dag(&self) -> (text: String)
        ensures
            text@ == dot_text(
                strings_model(self.names@),
                all_pairs(strings_model(self.names@), self.rows()),
            ),
    {
        let ghost names = strings_model(self.names@);
        let ghost rows = self.rows();
        let n = if self.edges.len() <= self.names.len() {
            self.edges.len()
        } else {
            self.names.len()
        };
        let mut pairs: Vec<(usize, usize)> = Vec::new();
        let mut i: usize = 0;
        proof {
            assert(rows.take(0) =~= Seq::<Seq<Seq<char>>>::empty());
            assert(pairs_model(pairs@) =~= all_pairs(names, rows.take(0)));
        }
        while i < n
            invariant
                names == strings_model(self.names@),
                rows == self.rows(),
                rows.len() == n,
                n <= self.names.len(),
                n <= self.edges.len(),
                i <= n,
                pairs_model(pairs@) == all_pairs(names, rows.take(i as int)),
                forall|k: int|
                    0 <= k < pairs.len() ==> (#[trigger] pairs[k]).0 < self.names.len() && pairs[k].1
                        < self.names.len(),
            decreases n - i,
        {
            let row = &self.edges[i];
            let ghost row_names = strings_model(row@);
            let ghost start = pairs_model(pairs@);
            let mut e: usize = 0;
            proof {
                assert(row_names.take(0) =~= Seq::<Seq<char>>::empty());
                assert(pairs_model(pairs@) =~= start + row_pairs(names, i as int, row_names.take(0)));
            }
            while e < row.len()
                invariant
                    names == strings_model(self.names@),
                    row_names == strings_model(row@),
                    i < self.names.len(),
                    e <= row.len(),
                    pairs_model(pairs@) == start + row_pairs(
                        names,
                        i as int,
                        row_names.take(e as int),
                    ),
                    forall|k: int|
                        0 <= k < pairs.len() ==> (#[trigger] pairs[k]).0 < self.names.len()
                            && pairs[k].1 < self.names.len(),
                decreases row.len() - e,
            {
                let ghost before = pairs_model(pairs@);
                proof {
                    assert(row_names.take(e as int + 1).drop_last() =~= row_names.take(e as int));
                    assert(row_names.take(e as int + 1).last() == row[e as int]@);
                }
                match find_name(&self.names, &row[e]) {
                    Some(j) => {
                        pairs.push((i, j));
                        proof {
                            lemma_first_place(names, row[e as int]@, j as int);
                            assert(pairs_model(pairs@) =~= before.push((i as int, j as int)));
                            assert(pairs_model(pairs@) =~= start + row_pairs(
                                names,
                                i as int,
                                row_names.take(e as int + 1),
                            ));
                        }
                    },
                    None => {},
                }
                e += 1;
            }
            proof {
                assert(row_names.take(row.len() as int) =~= row_names);
                assert(rows.take(i as int + 1).drop_last() =~= rows.take(i as int));
                assert(rows.take(i as int + 1).last() == row_names);
            }
            i += 1;
        }
        proof {
            assert(rows.take(n as int) =~= rows);
        }
        render_dot(&self.names, &pairs)
    }
}

} // verus!
