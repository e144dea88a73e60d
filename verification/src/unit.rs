//! What the digests of a unit are: the dependency graph of its declarations,
//! the table that each declaration's references are resolved against, the
//! digest of a cycle, and the condition that ties every digest to the
//! rewritten body it is taken of.

use crate::canon::canon_body;
use crate::digest::{digest_of, digest_of_bytes};
use crate::encode::{enc_list, enc_str};
use crate::graph::{lemma_reach_edge, lemma_reach_trans, reach, same_scc};
use crate::extract::unique_names;
use crate::model::{BodyModel, DeclModel};
use crate::order::{lemma_keyed_total_ordering, lex_le};
use crate::refs::body_names;
use crate::rewrite::subst_body;
use vstd::prelude::*;
use vstd::relations::{sorted_by, total_ordering};
use vstd::seq_lib::lemma_sorted_unique;
use vstd::utf8::*;

verus! {

/// The dependency graph: an edge from `i` to `j` where the body of the
/// `i`-th declaration mentions the name of the `j`-th.
pub open spec fn graph_of(ds: Seq<DeclModel>) -> Seq<Set<int>> {
    Seq::new(
        ds.len(),
        |i: int| Set::new(|j: int| 0 <= j < ds.len() && body_names(ds[i].body).contains(ds[j].name)),
    )
}

/// Some declaration of the unit has this name.
pub open spec fn declared(ds: Seq<DeclModel>, n: Seq<char>) -> bool {
    exists|j: int| 0 <= j < ds.len() && #[trigger] ds[j].name == n
}

/// The place of the declaration with this name.
pub open spec fn place_of(ds: Seq<DeclModel>, n: Seq<char>) -> int {
    choose|j: int| 0 <= j < ds.len() && #[trigger] ds[j].name == n
}

/// The table that the references of the `i`-th declaration are resolved
/// against, given the digests `fin` of the unit. It knows the declared names
/// that the body mentions. A name from another component resolves to that
/// declaration's digest. A name from the declaration's own component
/// resolves to `intra`, and stays a name where there is none.
#[verifier::opaque]
pub open spec fn table_for(
    ds: Seq<DeclModel>,
    fin: Seq<Seq<char>>,
    i: int,
    intra: Option<Seq<char>>,
) -> Map<Seq<char>, Seq<char>> {
    Map::new(
        |n: Seq<char>|
            declared(ds, n) && body_names(ds[i].body).contains(n) && (same_scc(
                graph_of(ds),
                i,
                place_of(ds, n),
            ) ==> intra is Some),
        |n: Seq<char>|
            if same_scc(graph_of(ds), i, place_of(ds, n)) {
                intra->0
            } else {
                fin[place_of(ds, n)]
            },
    )
}

/// The provisional body of the `i`-th declaration: references into other
/// components carry digests, those into its own component are still names.
pub open spec fn provisional_body(ds: Seq<DeclModel>, fin: Seq<Seq<char>>, i: int) -> BodyModel {
    canon_body(subst_body(ds[i].body, table_for(ds, fin, i, None)))
}

pub open spec fn provisional(ds: Seq<DeclModel>, fin: Seq<Seq<char>>, i: int) -> Seq<char> {
    digest_of(provisional_body(ds, fin, i))
}

/// The order of names: that of their UTF-8 bytes.
pub open spec fn name_leq() -> spec_fn(Seq<char>, Seq<char>) -> bool {
    |a: Seq<char>, b: Seq<char>| lex_le(encode_utf8(a), encode_utf8(b))
}

/// The names of the declarations in the component of the `i`-th.
#[verifier::opaque]
pub open spec fn component_names(ds: Seq<DeclModel>, i: int) -> Set<Seq<char>> {
    Set::new(
        |n: Seq<char>|
            exists|j: int|
                0 <= j < ds.len() && #[trigger] ds[j].name == n && same_scc(graph_of(ds), i, j),
    )
}

/// `s` lists the names of `names` in order, each once.
pub open spec fn lists_in_order(s: Seq<Seq<char>>, names: Set<Seq<char>>) -> bool {
    &&& sorted_by(s, name_leq())
    &&& s.no_duplicates()
    &&& s.to_set() == names
}

/// The names of a set in order.
pub open spec fn in_order(names: Set<Seq<char>>) -> Seq<Seq<char>> {
    choose|s: Seq<Seq<char>>| lists_in_order(s, names)
}

/// One name as it enters the digest of the component of the `i`-th
/// declaration: the name, and the provisional digest of the member that has
/// it. A name of no member would enter with an empty digest.
pub open spec fn member_chunk(ds: Seq<DeclModel>, fin: Seq<Seq<char>>, i: int, n: Seq<char>) -> Seq<
    u8,
> {
    enc_str(n) + enc_str(
        if component_names(ds, i).contains(n) {
            provisional(ds, fin, place_of(ds, n))
        } else {
            Seq::empty()
        },
    )
}

pub open spec fn group_chunks(
    ds: Seq<DeclModel>,
    fin: Seq<Seq<char>>,
    i: int,
    names: Seq<Seq<char>>,
) -> Seq<Seq<u8>> {
    Seq::new(names.len(), |k: int| member_chunk(ds, fin, i, names[k]))
}

/// The bytes that the digest of the component of the `i`-th declaration is
/// taken of: its members in the order of their names, each with its
/// provisional digest.
#[verifier::opaque]
pub open spec fn group_bytes(ds: Seq<DeclModel>, fin: Seq<Seq<char>>, i: int) -> Seq<u8> {
    enc_list(group_chunks(ds, fin, i, in_order(component_names(ds, i))))
}

pub open spec fn group_digest(ds: Seq<DeclModel>, fin: Seq<Seq<char>>, i: int) -> Seq<char> {
    digest_of_bytes(group_bytes(ds, fin, i))
}

/// The rewritten body of the `i`-th declaration: each reference to a
/// declaration of another component carries that declaration's digest, each
/// reference into its own component carries the component's digest, every
/// other name stays, and the result is in canonical form.
pub open spec fn rewritten_body(ds: Seq<DeclModel>, fin: Seq<Seq<char>>, i: int) -> BodyModel {
    canon_body(subst_body(ds[i].body, table_for(ds, fin, i, Some(group_digest(ds, fin, i)))))
}

/// The digest that the `i`-th declaration is owed, given the digests `fin`.
pub open spec fn digest_at(ds: Seq<DeclModel>, fin: Seq<Seq<char>>, i: int) -> Seq<char> {
    digest_of(rewritten_body(ds, fin, i))
}

/// `fin` holds the final digest of every declaration of the unit: each is
/// the digest of the declaration's rewritten body.
pub open spec fn linked(ds: Seq<DeclModel>, fin: Seq<Seq<char>>) -> bool {
    &&& fin.len() == ds.len()
    &&& forall|i: int| 0 <= i < ds.len() ==> fin[i] == #[trigger] digest_at(ds, fin, i)
}

/// `j` lies strictly below `i`: it can be reached from `i` and lies in
/// another component.
pub open spec fn below(ds: Seq<DeclModel>, i: int, j: int) -> bool {
    reach(graph_of(ds), i, j) && !reach(graph_of(ds), j, i)
}

/// With no name twice, a name leads back to the one declaration that has it.
pub proof fn lemma_place_of(ds: Seq<DeclModel>, j: int)
    requires
        unique_names(ds),
        0 <= j < ds.len(),
    ensures
        declared(ds, ds[j].name),
        place_of(ds, ds[j].name) == j,
{
    let n = ds[j].name;
    let k = place_of(ds, n);
    assert(0 <= k < ds.len() && ds[k].name == n);
    if k < j {
        assert(ds[k].name != ds[j].name);
    }
    if j < k {
        assert(ds[j].name != ds[k].name);
    }
}

/// A declared name that a body mentions is an edge of the graph.
pub proof fn lemma_mention_is_edge(ds: Seq<DeclModel>, i: int, n: Seq<char>)
    requires
        0 <= i < ds.len(),
        declared(ds, n),
        body_names(ds[i].body).contains(n),
    ensures
        0 <= place_of(ds, n) < ds.len(),
        ds[place_of(ds, n)].name == n,
        graph_of(ds)[i].contains(place_of(ds, n)),
        reach(graph_of(ds), i, place_of(ds, n)),
{
    let j = place_of(ds, n);
    assert(0 <= j < ds.len() && ds[j].name == n);
    assert(graph_of(ds)[i].contains(j));
    lemma_reach_edge(graph_of(ds), i, j);
}

/// The table of a declaration looks only at the digests strictly below it.
pub proof fn lemma_table_frame(
    ds: Seq<DeclModel>,
    f1: Seq<Seq<char>>,
    f2: Seq<Seq<char>>,
    i: int,
    intra: Option<Seq<char>>,
)
    requires
        0 <= i < ds.len(),
        forall|j: int| 0 <= j < ds.len() && below(ds, i, j) ==> f1[j] == f2[j],
    ensures
        table_for(ds, f1, i, intra) == table_for(ds, f2, i, intra),
{
    reveal(table_for);
    let t1 = table_for(ds, f1, i, intra);
    let t2 = table_for(ds, f2, i, intra);
    assert forall|n: Seq<char>| t1.contains_key(n) implies t1[n] == t2[n] by {
        lemma_mention_is_edge(ds, i, n);
    }
    assert(t1 =~= t2);
}

/// What lies strictly below a member of a component lies strictly below
/// every member.
pub proof fn lemma_below_component(ds: Seq<DeclModel>, i: int, m: int, j: int)
    requires
        same_scc(graph_of(ds), i, m),
        below(ds, m, j),
    ensures
        below(ds, i, j),
{
    let g = graph_of(ds);
    lemma_reach_trans(g, i, m, j);
    if reach(g, j, i) {
        lemma_reach_trans(g, j, i, m);
    }
}

/// The digest of a component, and the rewritten body and the digest of each
/// of its members, look only at the digests strictly below the component.
pub proof fn lemma_frame(ds: Seq<DeclModel>, f1: Seq<Seq<char>>, f2: Seq<Seq<char>>, i: int)
    requires
        unique_names(ds),
        0 <= i < ds.len(),
        forall|j: int| 0 <= j < ds.len() && below(ds, i, j) ==> f1[j] == f2[j],
    ensures
        provisional_body(ds, f1, i) == provisional_body(ds, f2, i),
        group_bytes(ds, f1, i) == group_bytes(ds, f2, i),
        rewritten_body(ds, f1, i) == rewritten_body(ds, f2, i),
        digest_at(ds, f1, i) == digest_at(ds, f2, i),
{
    reveal(group_bytes);
    lemma_table_frame(ds, f1, f2, i, None);
    let names = in_order(component_names(ds, i));
    let c1 = group_chunks(ds, f1, i, names);
    let c2 = group_chunks(ds, f2, i, names);
    assert forall|k: int| 0 <= k < names.len() implies c1[k] == c2[k] by {
        let n = names[k];
        if component_names(ds, i).contains(n) {
            lemma_frame_member(ds, f1, f2, i, n);
        }
    }
    assert(c1 =~= c2);
    lemma_table_frame(ds, f1, f2, i, Some(group_digest(ds, f1, i)));
}

proof fn lemma_frame_member(
    ds: Seq<DeclModel>,
    f1: Seq<Seq<char>>,
    f2: Seq<Seq<char>>,
    i: int,
    n: Seq<char>,
)
    requires
        unique_names(ds),
        0 <= i < ds.len(),
        forall|j: int| 0 <= j < ds.len() && below(ds, i, j) ==> f1[j] == f2[j],
        component_names(ds, i).contains(n),
    ensures
        member_chunk(ds, f1, i, n) == member_chunk(ds, f2, i, n),
{
    reveal(component_names);
    let m = choose|j: int|
        0 <= j < ds.len() && #[trigger] ds[j].name == n && same_scc(graph_of(ds), i, j);
    lemma_place_of(ds, m);
    assert forall|x: int| 0 <= x < ds.len() && below(ds, m, x) implies f1[x] == f2[x] by {
        lemma_below_component(ds, i, m, x);
    }
    lemma_table_frame(ds, f1, f2, m, None);
}

/// Names are totally ordered by their UTF-8 bytes.
pub proof fn lemma_name_order_total()
    ensures
        total_ordering(name_leq()),
{
    let key = |n: Seq<char>| encode_utf8(n);
    assert forall|x: Seq<char>, y: Seq<char>| #[trigger] key(x) == #[trigger] key(y) implies x
        == y by {
        encode_utf8_decode_utf8(x);
        encode_utf8_decode_utf8(y);
    }
    lemma_keyed_total_ordering(key, name_leq());
}

/// Two lists without repeats that hold the same items hold each as often.
pub proof fn lemma_same_items<T>(a: Seq<T>, b: Seq<T>)
    requires
        a.no_duplicates(),
        b.no_duplicates(),
        a.to_set() == b.to_set(),
    ensures
        a.to_multiset() == b.to_multiset(),
{
    a.lemma_multiset_has_no_duplicates();
    b.lemma_multiset_has_no_duplicates();
    a.to_multiset_ensures();
    b.to_multiset_ensures();
    assert forall|x: T| a.to_multiset().count(x) == b.to_multiset().count(x) by {
        assert(a.contains(x) <==> a.to_set().contains(x));
        assert(b.contains(x) <==> b.to_set().contains(x));
        assert(a.to_multiset().contains(x) <==> a.to_multiset().count(x) > 0);
        assert(b.to_multiset().contains(x) <==> b.to_multiset().count(x) > 0);
    }
    assert(a.to_multiset() =~= b.to_multiset());
}

/// There is one way only to list a set of names in order.
pub proof fn lemma_in_order_unique(s: Seq<Seq<char>>, names: Set<Seq<char>>)
    requires
        lists_in_order(s, names),
    ensures
        in_order(names) == s,
{
    let t = in_order(names);
    assert(lists_in_order(t, names));
    lemma_same_items(s, t);
    lemma_name_order_total();
    lemma_sorted_unique(s, t, name_leq());
}

/// The declarations of one component form the same component, whichever of
/// them one starts from.
pub proof fn lemma_component_shared(ds: Seq<DeclModel>, i: int, j: int)
    requires
        same_scc(graph_of(ds), i, j),
    ensures
        component_names(ds, i) == component_names(ds, j),
{
    reveal(component_names);
    let g = graph_of(ds);
    assert forall|n: Seq<char>| component_names(ds, i).contains(n) <==> component_names(
        ds,
        j,
    ).contains(n) by {
        if component_names(ds, i).contains(n) {
            let k = choose|k: int|
                0 <= k < ds.len() && #[trigger] ds[k].name == n && same_scc(g, i, k);
            lemma_reach_trans(g, j, i, k);
            lemma_reach_trans(g, k, i, j);
            assert(same_scc(g, j, k));
        }
        if component_names(ds, j).contains(n) {
            let k = choose|k: int|
                0 <= k < ds.len() && #[trigger] ds[k].name == n && same_scc(g, j, k);
            lemma_reach_trans(g, i, j, k);
            lemma_reach_trans(g, k, j, i);
            assert(same_scc(g, i, k));
        }
    }
    assert(component_names(ds, i) =~= component_names(ds, j));
}

/// All members of a component have the same component digest.
pub proof fn lemma_group_shared(ds: Seq<DeclModel>, fin: Seq<Seq<char>>, i: int, j: int)
    requires
        same_scc(graph_of(ds), i, j),
    ensures
        group_bytes(ds, fin, i) == group_bytes(ds, fin, j),
        group_digest(ds, fin, i) == group_digest(ds, fin, j),
{
    reveal(group_bytes);
    lemma_component_shared(ds, i, j);
    let names = in_order(component_names(ds, i));
    assert(group_chunks(ds, fin, i, names) =~= group_chunks(ds, fin, j, names));
}

/// A declaration that mentions nothing of its own component resolves the
/// same whatever the component's digest is.
pub proof fn lemma_acyclic_table(ds: Seq<DeclModel>, fin: Seq<Seq<char>>, i: int, d: Seq<char>)
    requires
        0 <= i < ds.len(),
        forall|j: int| #[trigger] graph_of(ds)[i].contains(j) ==> !same_scc(graph_of(ds), i, j),
    ensures
        table_for(ds, fin, i, Some(d)) == table_for(ds, fin, i, None),
{
    lemma_acyclic_table_any(ds, fin, i, Some(d), None);
}

proof fn lemma_acyclic_table_any(
    ds: Seq<DeclModel>,
    fin: Seq<Seq<char>>,
    i: int,
    x: Option<Seq<char>>,
    y: Option<Seq<char>>,
)
    requires
        0 <= i < ds.len(),
        forall|j: int| #[trigger] graph_of(ds)[i].contains(j) ==> !same_scc(graph_of(ds), i, j),
    ensures
        table_for(ds, fin, i, x) == table_for(ds, fin, i, y),
{
    reveal(table_for);
    let a = table_for(ds, fin, i, x);
    let b = table_for(ds, fin, i, y);
    assert forall|n: Seq<char>| a.dom().contains(n) == b.dom().contains(n) by {
        if declared(ds, n) && body_names(ds[i].body).contains(n) {
            lemma_mention_is_edge(ds, i, n);
            let j = place_of(ds, n);
            assert(graph_of(ds)[i].contains(j));
            assert(!same_scc(graph_of(ds), i, j));
        }
    }
    assert(a.dom() =~= b.dom());
    assert forall|n: Seq<char>| a.dom().contains(n) implies a[n] == b[n] by {
        lemma_mention_is_edge(ds, i, n);
        let j = place_of(ds, n);
        assert(graph_of(ds)[i].contains(j));
        assert(!same_scc(graph_of(ds), i, j));
    }
    assert(a =~= b);
}

} // verus!
