//! The linker: it gives every declaration of a unit its final digest and its
//! rewritten body, component by component, what is mentioned before what
//! mentions it.

use crate::canon::{canon_body, canonical_body};
use crate::dag::TypeDAG;
use crate::digest::{digest_of, digest_of_bytes, hash, hash_bytes};
use crate::encode::{enc_list, enc_str, items, lemma_items_push, put_str};
use crate::extract::{first_clash, index_names, is_index, unique_names, ExtractError};
use crate::graph::{
    closure, graph_of_lists, is_adjacency, is_closure, lemma_reach_edge, lemma_reach_in_range,
    lemma_reach_self, lemma_reach_trans, reach, same_scc,
};
use crate::model::{decls_model, Body, DeclModel, Declaration, Fields, Span};
use crate::order::{bytes_le, lemma_lex_total, lemma_lex_transitive, lex_le};
use crate::refs::{body_names, strings_model};
use crate::rewrite::{subst_body, Linker};
use crate::schedule::{
    count_true, lemma_below_counts_less, lemma_count_bound, lemma_count_set, members_of,
    pick_next, reach_counts,
};
use crate::unit::{
    below, component_names, digest_at, graph_of, group_bytes, group_chunks, group_digest,
    lemma_acyclic_table, lemma_frame, lemma_group_shared, lemma_in_order_unique,
    lemma_mention_is_edge, lemma_place_of, linked, name_leq, place_of, provisional,
    rewritten_body, table_for,
};
use vstd::hash_map::StringHashMap;
use vstd::prelude::*;
use vstd::relations::sorted_by;
use vstd::string::*;
use vstd::utf8::*;

verus! {

/// What the linker has worked out of a unit before it starts: the graph by
/// places, and what can be reached from where.
pub open spec fn prepared(ds: Seq<DeclModel>, adj: Seq<Vec<usize>>, m: Seq<Vec<bool>>) -> bool {
    &&& unique_names(ds)
    &&& adj.len() == ds.len()
    &&& is_adjacency(adj)
    &&& graph_of_lists(adj) == graph_of(ds)
    &&& is_closure(m, graph_of(ds))
}

pub open spec fn text_of(s: Option<&String>) -> Option<Seq<char>> {
    match s {
        Some(d) => Some(d@),
        None => None,
    }
}

/// The part of a declaration's table that the first places of its
/// adjacency list account for.
pub open spec fn table_upto(
    ds: Seq<DeclModel>,
    fin: Seq<Seq<char>>,
    i: int,
    intra: Option<Seq<char>>,
    places: Seq<usize>,
) -> Map<Seq<char>, Seq<char>> {
    Map::new(
        |n: Seq<char>|
            table_for(ds, fin, i, intra).contains_key(n) && exists|k: int|
                0 <= k < places.len() && ds[#[trigger] places[k] as int].name == n,
        |n: Seq<char>| table_for(ds, fin, i, intra)[n],
    )
}

/// Builds the table that the references of the `i`-th declaration are
/// resolved against.
fn table_of(
    decls: &Vec<Declaration>,
    adj: &Vec<Vec<usize>>,
    m: &Vec<Vec<bool>>,
    fin: &Vec<String>,
    i: usize,
    intra: Option<&String>,
) -> (linker: Linker)
    requires
        prepared(decls_model(decls@), adj@, m@),
        fin.len() == decls.len(),
        i < decls.len(),
    ensures
        linker.table() == table_for(decls_model(decls@), strings_model(fin@), i as int, text_of(intra)),
{
    proof {
        reveal(table_for);
    }
    let ghost ds = decls_model(decls@);
    let ghost f = strings_model(fin@);
    let ghost g = graph_of(ds);
    let ghost want = table_for(ds, f, i as int, text_of(intra));
    let mut linker = Linker::new();
    let row = &adj[i];
    let mut e: usize = 0;
    assert(linker.table() =~= table_upto(ds, f, i as int, text_of(intra), row@.take(0)));
    while e < row.len()
        invariant
            prepared(ds, adj@, m@),
            ds == decls_model(decls@),
            f == strings_model(fin@),
            g == graph_of(ds),
            fin.len() == decls.len(),
            i < decls.len(),
            row == adj[i as int],
            e <= row.len(),
            want == table_for(ds, f, i as int, text_of(intra)),
            linker.table() == table_upto(ds, f, i as int, text_of(intra), row@.take(e as int)),
        decreases row.len() - e,
    {
        let j = row[e];
        let ghost name = ds[j as int].name;
        let ghost before = linker.table();
        proof {
            reveal(table_for);
            assert(graph_of_lists(adj@)[i as int].contains(j as int));
            assert(g[i as int].contains(j as int));
            lemma_place_of(ds, j as int);
            assert(body_names(ds[i as int].body).contains(name));
            assert(m[j as int][i as int] == reach(g, j as int, i as int));
            lemma_reach_edge(g, i as int, j as int);
            assert(decls[j as int]@.name == name);
        }
        if m[j][i] {
            match intra {
                Some(d) => {
                    linker.bind(decls[j].name.clone(), d.clone());
                },
                None => {},
            }
        } else {
            linker.bind(decls[j].name.clone(), fin[j].clone());
            assert(f[j as int] == fin[j as int]@);
        }
        proof {
            reveal(table_for);
            let a = row@.take(e as int);
            let b = row@.take(e as int + 1);
            assert(b =~= a.push(j));
            let ta = table_upto(ds, f, i as int, text_of(intra), a);
            let tb = table_upto(ds, f, i as int, text_of(intra), b);
            assert forall|n: Seq<char>| tb.contains_key(n) <==> linker.table().contains_key(n) by {
                if tb.contains_key(n) {
                    let k = choose|k: int| 0 <= k < b.len() && ds[#[trigger] b[k] as int].name == n;
                    if k < a.len() {
                        assert(ds[a[k] as int].name == n);
                        assert(ta.contains_key(n));
                    }
                }
                if linker.table().contains_key(n) {
                    if n == name {
                        assert(ds[b[a.len() as int] as int].name == n);
                    } else {
                        assert(ta.contains_key(n));
                        let k = choose|k: int|
                            0 <= k < a.len() && ds[#[trigger] a[k] as int].name == n;
                        assert(ds[b[k] as int].name == n);
                    }
                }
            }
            assert forall|n: Seq<char>| tb.contains_key(n) implies tb[n] == linker.table()[n] by {
                if n != name {
                    assert(ta.contains_key(n));
                }
            }
            assert(linker.table() =~= tb);
        }
        e += 1;
    }
    proof {
        reveal(table_for);
        assert(row@.take(row.len() as int) =~= row@);
        let t = table_upto(ds, f, i as int, text_of(intra), row@);
        assert forall|n: Seq<char>| want.contains_key(n) implies t.contains_key(n) by {
            lemma_mention_is_edge(ds, i as int, n);
            let j = place_of(ds, n);
            assert(graph_of_lists(adj@)[i as int].contains(j));
            let k = choose|k: int| 0 <= k < row.len() && #[trigger] row[k] == j;
            assert(ds[row@[k] as int].name == n);
        }
        assert(t =~= want);
    }
    linker
}

/// Rewrites the body of a declaration against a table and brings the result
/// into canonical form; returns it with its digest.
pub fn rewrite_and_hash(body: &Body, linker: &Linker) -> (r: (Body, String))
    ensures
        r.0@ == canon_body(subst_body(body@, linker.table())),
        r.1@ == digest_of(r.0@),
{
    let rewritten = linker.rewrite(body);
    let canonical = canonical_body(&rewritten);
    let digest = hash(&canonical);
    (canonical, digest)
}

/// The names of the declarations at the given places.
pub open spec fn names_at(ds: Seq<DeclModel>, places: Seq<usize>) -> Seq<Seq<char>> {
    Seq::new(places.len(), |k: int| ds[places[k] as int].name)
}

/// Puts places into the order of the names of their declarations.
fn sort_by_name(decls: &Vec<Declaration>, places: &Vec<usize>) -> (out: Vec<usize>)
    requires
        forall|k: int| 0 <= k < places.len() ==> #[trigger] places[k] < decls.len(),
    ensures
        out@.to_multiset() == places@.to_multiset(),
        forall|k: int| 0 <= k < out.len() ==> #[trigger] out[k] < decls.len(),
        sorted_by(names_at(decls_model(decls@), out@), name_leq()),
{
    let ghost ds = decls_model(decls@);
    let ghost leq = name_leq();
    let mut out: Vec<usize> = Vec::new();
    let mut keys: Vec<Vec<u8>> = Vec::new();
    let mut i: usize = 0;
    proof {
        assert(out@ =~= places@.take(0));
    }
    while i < places.len()
        invariant
            i <= places.len(),
            ds == decls_model(decls@),
            leq == name_leq(),
            forall|k: int| 0 <= k < places.len() ==> #[trigger] places[k] < decls.len(),
            keys.len() == out.len(),
            forall|k: int| 0 <= k < out.len() ==> #[trigger] out[k] < decls.len(),
            forall|k: int|
                0 <= k < out.len() ==> (#[trigger] keys[k])@ == encode_utf8(ds[out[k] as int].name),
            sorted_by(names_at(ds, out@), leq),
            out@.to_multiset() == places@.take(i as int).to_multiset(),
        decreases places.len() - i,
    {
        let j = places[i];
        let key = decls[j].name.as_str().as_bytes_vec();
        assert(key@ == encode_utf8(ds[j as int].name));
        let mut p: usize = 0;
        while p < keys.len() && bytes_le(&keys[p], &key)
            invariant
                p <= keys.len(),
                forall|k: int| 0 <= k < p ==> lex_le(#[trigger] keys[k]@, key@),
            decreases keys.len() - p,
        {
            p += 1;
        }
        let ghost before = out@;
        let ghost names_before = names_at(ds, out@);
        proof {
            assert forall|k: int| 0 <= k < p implies leq(
                #[trigger] names_before[k],
                ds[j as int].name,
            ) by {
                assert(keys[k]@ == encode_utf8(ds[out[k] as int].name));
            }
            assert forall|k: int| p <= k < before.len() implies leq(
                ds[j as int].name,
                #[trigger] names_before[k],
            ) by {
                assert(keys[k]@ == encode_utf8(ds[out[k] as int].name));
                assert(keys[p as int]@ == encode_utf8(ds[out[p as int] as int].name));
                lemma_lex_total(keys[p as int]@, key@);
                if k > p {
                    assert(leq(names_before[p as int], names_before[k]));
                    lemma_lex_transitive(key@, keys[p as int]@, keys[k]@);
                }
            }
        }
        out.insert(p, j);
        keys.insert(p, key);
        proof {
            let after = names_at(ds, out@);
            assert(after =~= names_before.insert(p as int, ds[j as int].name));
            assert forall|x: int, y: int| 0 <= x < y < after.len() implies #[trigger] leq(
                after[x],
                after[y],
            ) by {
                if y < p {
                    assert(leq(names_before[x], names_before[y]));
                } else if y == p {
                    assert(leq(names_before[x], ds[j as int].name));
                } else if x == p {
                    assert(leq(ds[j as int].name, names_before[y - 1]));
                } else if x < p {
                    assert(leq(names_before[x], names_before[y - 1]));
                } else {
                    assert(leq(names_before[x - 1], names_before[y - 1]));
                }
            }
            vstd::seq_lib::to_multiset_insert(before, p as int, j);
            assert(places@.take(i as int + 1) =~= places@.take(i as int).push(places[i as int]));
            vstd::seq_lib::to_multiset_build(places@.take(i as int), places[i as int]);
        }
        i += 1;
    }
    proof {
        assert(places@.take(places.len() as int) =~= places@);
    }
    out
}

/// Hashes a component: its members in the order of their names, each with
/// its provisional digest.
fn hash_component(
    decls: &Vec<Declaration>,
    adj: &Vec<Vec<usize>>,
    m: &Vec<Vec<bool>>,
    fin: &Vec<String>,
    sorted: &Vec<usize>,
    pick: usize,
) -> (group: String)
    requires
        prepared(decls_model(decls@), adj@, m@),
        fin.len() == decls.len(),
        pick < decls.len(),
        forall|k: int| 0 <= k < sorted.len() ==> #[trigger] sorted[k] < decls.len(),
        forall|k: int|
            0 <= k < sorted.len() ==> same_scc(
                graph_of(decls_model(decls@)),
                pick as int,
                #[trigger] sorted[k] as int,
            ),
    ensures
        group@ == digest_of_bytes(
            enc_list(
                group_chunks(
                    decls_model(decls@),
                    strings_model(fin@),
                    pick as int,
                    names_at(decls_model(decls@), sorted@),
                ),
            ),
        ),
{
    proof {
        reveal(component_names);
    }
    let ghost ds = decls_model(decls@);
    let ghost f = strings_model(fin@);
    let ghost chunks = group_chunks(ds, f, pick as int, names_at(ds, sorted@));
    let mut bytes: Vec<u8> = Vec::new();
    let mut k: usize = 0;
    assert(bytes@ =~= items(chunks.take(0)));
    while k < sorted.len()
        invariant
            prepared(ds, adj@, m@),
            ds == decls_model(decls@),
            f == strings_model(fin@),
            fin.len() == decls.len(),
            pick < decls.len(),
            forall|k: int| 0 <= k < sorted.len() ==> #[trigger] sorted[k] < decls.len(),
            forall|k: int|
                0 <= k < sorted.len() ==> same_scc(graph_of(ds), pick as int, #[trigger] sorted[k] as int),
            chunks == group_chunks(ds, f, pick as int, names_at(ds, sorted@)),
            k <= sorted.len(),
            bytes@ == items(chunks.take(k as int)),
        decreases sorted.len() - k,
    {
        let j = sorted[k];
        let ghost start = bytes@;
        bytes.push(1u8);
        put_str(decls[j].name.as_str(), &mut bytes);
        let linker = table_of(decls, adj, m, fin, j, None);
        let (_, d) = rewrite_and_hash(&decls[j].body, &linker);
        put_str(d.as_str(), &mut bytes);
        proof {
            reveal(component_names);
            let name = ds[j as int].name;
            lemma_place_of(ds, j as int);
            assert(same_scc(graph_of(ds), pick as int, j as int));
            assert(component_names(ds, pick as int).contains(name));
            assert(d@ == provisional(ds, f, j as int));
            assert(names_at(ds, sorted@)[k as int] == name);
            assert(chunks[k as int] == enc_str(name) + enc_str(d@));
            lemma_items_push(chunks.take(k as int), chunks[k as int]);
            assert(chunks.take(k as int + 1) =~= chunks.take(k as int).push(chunks[k as int]));
            assert(bytes@ =~= start + seq![1u8] + chunks[k as int]);
        }
        k += 1;
    }
    bytes.push(0u8);
    proof {
        assert(chunks.take(sorted.len() as int) =~= chunks);
    }
    hash_bytes(&bytes)
}

/// The declaration that linking makes of the `i`-th: its name, and its
/// rewritten body.
pub open spec fn linked_decl(ds: Seq<DeclModel>, fin: Seq<Seq<char>>, i: int) -> DeclModel {
    DeclModel { name: ds[i].name, body: rewritten_body(ds, fin, i), span: Span::blank() }
}

/// The state of the linker between two components: the declarations
/// marked done have their digest and their rewritten body, and so has
/// everything that they reach.
pub open spec fn settled(
    ds: Seq<DeclModel>,
    done: Seq<bool>,
    fin: Seq<Seq<char>>,
    outs: Seq<DeclModel>,
) -> bool {
    &&& done.len() == ds.len()
    &&& fin.len() == ds.len()
    &&& outs.len() == ds.len()
    &&& forall|i: int, j: int|
        0 <= i < ds.len() && 0 <= j < ds.len() && done[i] && #[trigger] reach(graph_of(ds), i, j)
            ==> done[j]
    &&& forall|i: int| 0 <= i < ds.len() && done[i] ==> fin[i] == #[trigger] digest_at(ds, fin, i)
    &&& forall|i: int| 0 <= i < ds.len() && done[i] ==> outs[i] == #[trigger] linked_decl(ds, fin, i)
}

/// Whether `p` is in the list.
fn holds_place(row: &Vec<usize>, p: usize) -> (r: bool)
    ensures
        r == row@.contains(p),
{
    let mut k: usize = 0;
    while k < row.len()
        invariant
            k <= row.len(),
            forall|x: int| 0 <= x < k ==> row[x] != p,
        decreases row.len() - k,
    {
        if row[k] == p {
            return true;
        }
        k += 1;
    }
    false
}

/// `i` is one of the places.
pub open spec fn holds(ms: Seq<usize>, i: int) -> bool {
    exists|k: int| 0 <= k < ms.len() && #[trigger] ms[k] as int == i
}

/// `ms` lists the places of the component of `pick`, in rising order.
pub open spec fn is_component(ds: Seq<DeclModel>, ms: Seq<usize>, pick: int) -> bool {
    &&& forall|x: int| 0 <= x < ms.len() ==> #[trigger] ms[x] < ds.len()
    &&& forall|a: int, b: int| 0 <= a < b < ms.len() ==> ms[a] < ms[b]
    &&& forall|x: int| 0 <= x < ms.len() ==> same_scc(graph_of(ds), pick, #[trigger] ms[x] as int)
    &&& forall|j: int| 0 <= j < ds.len() && same_scc(graph_of(ds), pick, j) ==> holds(ms, j)
}

/// The places of the component of `pick`.
fn component_of(
    decls: &Vec<Declaration>,
    adj: &Vec<Vec<usize>>,
    m: &Vec<Vec<bool>>,
    pick: usize,
) -> (ms: Vec<usize>)
    requires
        prepared(decls_model(decls@), adj@, m@),
        pick < decls.len(),
    ensures
        is_component(decls_model(decls@), ms@, pick as int),
        ms@.contains(pick),
{
    let ghost ds = decls_model(decls@);
    let ghost g = graph_of(ds);
    let ms = members_of(m, pick);
    proof {
        lemma_reach_self(g, pick as int);
        assert(m[pick as int][pick as int] == reach(g, pick as int, pick as int));
        assert forall|k: int| 0 <= k < ms.len() implies same_scc(
            g,
            pick as int,
            #[trigger] ms[k] as int,
        ) by {
            let x = ms[k] as int;
            assert(m[pick as int][x] == reach(g, pick as int, x));
            assert(m[x][pick as int] == reach(g, x, pick as int));
        }
        assert forall|j: int| 0 <= j < ds.len() && same_scc(g, pick as int, j) implies holds(
            ms@,
            j,
        ) by {
            assert(m[pick as int][j] == reach(g, pick as int, j));
            assert(m[j][pick as int] == reach(g, j, pick as int));
            assert(ms@.contains(j as usize));
            let k = ms@.index_of(j as usize);
            assert(ms[k] as int == j);
        }
    }
    ms
}

/// No member of the component of `pick` mentions a member of it.
pub open spec fn is_acyclic(ds: Seq<DeclModel>, pick: int) -> bool {
    forall|i: int, j: int|
        0 <= i < ds.len() && same_scc(graph_of(ds), pick, i) && #[trigger] graph_of(ds)[i].contains(
            j,
        ) ==> !same_scc(graph_of(ds), i, j)
}

/// The digest of the component of `pick`, where the component has a
/// cycle; none where it is a single declaration that does not mention
/// itself.
fn component_digest(
    decls: &Vec<Declaration>,
    adj: &Vec<Vec<usize>>,
    m: &Vec<Vec<bool>>,
    fin: &Vec<String>,
    ms: &Vec<usize>,
    pick: usize,
) -> (group: Option<String>)
    requires
        prepared(decls_model(decls@), adj@, m@),
        fin.len() == decls.len(),
        pick < decls.len(),
        is_component(decls_model(decls@), ms@, pick as int),
        ms@.contains(pick),
    ensures
        match group {
            Some(d) => d@ == group_digest(decls_model(decls@), strings_model(fin@), pick as int),
            None => is_acyclic(decls_model(decls@), pick as int),
        },
{
    let ghost ds = decls_model(decls@);
    let ghost g = graph_of(ds);
    let ghost f0 = strings_model(fin@);
    let cyclic = ms.len() > 1 || holds_place(&adj[pick], pick);
    if cyclic {
        let sorted = sort_by_name(decls, ms);
        proof {
            sorted@.to_multiset_ensures();
            ms@.to_multiset_ensures();
            assert forall|k: int| 0 <= k < sorted.len() implies same_scc(
                g,
                pick as int,
                #[trigger] sorted[k] as int,
            ) by {
                assert(sorted@.contains(sorted[k]));
                assert(sorted@.to_multiset().count(sorted[k]) > 0);
                assert(ms@.to_multiset().count(sorted[k]) > 0);
                assert(ms@.contains(sorted[k]));
                let x = ms@.index_of(sorted[k]);
                assert(same_scc(g, pick as int, ms[x] as int));
            }
        }
        let d = hash_component(decls, adj, m, fin, &sorted, pick);
        proof {
            reveal(component_names);
            reveal(group_bytes);
            let names = names_at(ds, sorted@);
            assert(ms@.no_duplicates());
            ms@.lemma_multiset_has_no_duplicates();
            sorted@.lemma_multiset_has_no_duplicates_conv();
            assert(names.no_duplicates()) by {
                assert forall|a: int, b: int|
                    0 <= a < names.len() && 0 <= b < names.len() && a != b implies names[a]
                    != names[b] by {
                    assert(sorted[a] != sorted[b]);
                    if sorted[a] < sorted[b] {
                        assert(ds[sorted[a] as int].name != ds[sorted[b] as int].name);
                    } else {
                        assert(ds[sorted[b] as int].name != ds[sorted[a] as int].name);
                    }
                }
            }
            assert(names.to_set() =~= component_names(ds, pick as int)) by {
                assert forall|x: Seq<char>| names.to_set().contains(x) implies component_names(
                    ds,
                    pick as int,
                ).contains(x) by {
                    let k = choose|k: int| 0 <= k < names.len() && names[k] == x;
                    assert(same_scc(g, pick as int, sorted[k] as int));
                    assert(ds[sorted[k] as int].name == x);
                }
                assert forall|x: Seq<char>|
                    component_names(ds, pick as int).contains(x) implies names.to_set().contains(
                    x,
                ) by {
                    let j = choose|j: int|
                        0 <= j < ds.len() && #[trigger] ds[j].name == x && same_scc(g, pick as int, j);
                    assert(holds(ms@, j));
                    let y = choose|y: int| 0 <= y < ms.len() && #[trigger] ms[y] as int == j;
                    assert(ms@.contains(ms[y]));
                    assert(ms@.to_multiset().count(ms[y]) > 0);
                    assert(sorted@.to_multiset().count(ms[y]) > 0);
                    assert(sorted@.contains(ms[y]));
                    let k = sorted@.index_of(ms[y]);
                    assert(names[k] == x);
                }
            }
            lemma_in_order_unique(names, component_names(ds, pick as int));
        }
        Some(d)
    } else {
        proof {
            assert forall|i: int, j: int|
                0 <= i < ds.len() && same_scc(g, pick as int, i) && #[trigger] g[i].contains(
                    j,
                ) implies !same_scc(g, i, j) by {
                if same_scc(g, i, j) {
                    lemma_reach_in_range(g, pick as int, i);
                    lemma_reach_in_range(g, i, j);
                    lemma_reach_trans(g, pick as int, i, j);
                    lemma_reach_trans(g, j, i, pick as int);
                    assert(holds(ms@, i));
                    assert(holds(ms@, j));
                    let a = choose|a: int| 0 <= a < ms.len() && #[trigger] ms[a] as int == i;
                    let b = choose|b: int| 0 <= b < ms.len() && #[trigger] ms[b] as int == j;
                    let c = ms@.index_of(pick);
                    assert(i == pick && j == pick);
                    assert(graph_of_lists(adj@)[pick as int].contains(pick as int));
                    let e = choose|e: int|
                        0 <= e < adj[pick as int].len() && #[trigger] adj[pick as int][e]
                            == pick as int;
                    assert(adj[pick as int]@[e] == pick);
                }
            }
        }
        None
    }
}

/// Works out the digest and the rewritten body of each member of a
/// component. The rewritten declarations are put in their places; the
/// digests are returned in the order of `ms`.
fn rewrite_members(
    decls: &Vec<Declaration>,
    adj: &Vec<Vec<usize>>,
    m: &Vec<Vec<bool>>,
    fin: &Vec<String>,
    outs: &mut Vec<Declaration>,
    ms: &Vec<usize>,
    pick: usize,
    group: &Option<String>,
) -> (digs: Vec<String>)
    requires
        prepared(decls_model(decls@), adj@, m@),
        fin.len() == decls.len(),
        old(outs).len() == decls.len(),
        pick < decls.len(),
        is_component(decls_model(decls@), ms@, pick as int),
        match group {
            Some(d) => d@ == group_digest(decls_model(decls@), strings_model(fin@), pick as int),
            None => is_acyclic(decls_model(decls@), pick as int),
        },
    ensures
        final(outs).len() == decls.len(),
        digs.len() == ms.len(),
        forall|x: int|
            0 <= x < ms.len() ==> (#[trigger] digs[x])@ == digest_at(
                decls_model(decls@),
                strings_model(fin@),
                ms[x] as int,
            ),
        forall|x: int|
            0 <= x < ms.len() ==> (#[trigger] final(outs)[ms[x] as int])@ == linked_decl(
                decls_model(decls@),
                strings_model(fin@),
                ms[x] as int,
            ),
        forall|j: int|
            0 <= j < decls.len() && !ms@.contains(j as usize) ==> (#[trigger] final(outs)[j])@
                == old(outs)[j]@,
{
    let ghost ds = decls_model(decls@);
    let ghost g = graph_of(ds);
    let ghost f0 = strings_model(fin@);
    let ghost outs0 = outs@;
    let n = decls.len();
    let mut digs: Vec<String> = Vec::new();
    let mut k: usize = 0;
    while k < ms.len()
        invariant
            prepared(ds, adj@, m@),
            ds == decls_model(decls@),
            g == graph_of(ds),
            f0 == strings_model(fin@),
            fin.len() == n,
            n == decls.len(),
            outs.len() == n,
            pick < n,
            k <= ms.len(),
            digs.len() == k,
            is_component(ds, ms@, pick as int),
            match group {
                Some(d) => d@ == group_digest(ds, f0, pick as int),
                None => is_acyclic(ds, pick as int),
            },
            forall|x: int| 0 <= x < k ==> (#[trigger] digs[x])@ == digest_at(ds, f0, ms[x] as int),
            forall|x: int|
                0 <= x < k ==> (#[trigger] outs[ms[x] as int])@ == linked_decl(ds, f0, ms[x] as int),
            forall|j: int|
                0 <= j < n && !ms@.take(k as int).contains(j as usize) ==> (#[trigger] outs[j])@
                    == outs0[j]@,
        decreases ms.len() - k,
    {
        let j = ms[k];
        let linker = match group {
            Some(d) => table_of(decls, adj, m, fin, j, Some(d)),
            None => table_of(decls, adj, m, fin, j, None),
        };
        let (body, d) = rewrite_and_hash(&decls[j].body, &linker);
        proof {
            assert(same_scc(g, pick as int, ms[k as int] as int));
            match group {
                Some(_) => {
                    lemma_group_shared(ds, f0, pick as int, j as int);
                },
                None => {
                    assert forall|x: int| #[trigger] g[j as int].contains(x) implies !same_scc(
                        g,
                        j as int,
                        x,
                    ) by {}
                    lemma_acyclic_table(ds, f0, j as int, group_digest(ds, f0, j as int));
                },
            }
            assert(body@ == rewritten_body(ds, f0, j as int));
            assert(d@ == digest_at(ds, f0, j as int));
        }
        let ghost outs_before = outs@;
        outs.set(j, Declaration { name: decls[j].name.clone(), body, span: Span::none() });
        digs.push(d);
        proof {
            assert(ms@.take(k as int + 1) =~= ms@.take(k as int).push(j));
            assert forall|x: int| 0 <= x <= k implies (#[trigger] outs[ms[x] as int])@
                == linked_decl(ds, f0, ms[x] as int) by {
                if x < k {
                    assert(ms[x] < ms[k as int]);
                    assert(outs[ms[x] as int] == outs_before[ms[x] as int]);
                }
            }
            assert forall|y: int|
                0 <= y < n && !ms@.take(k as int + 1).contains(y as usize) implies (#[trigger] outs[y])@
                == outs0[y]@ by {
                if ms@.take(k as int).contains(y as usize) {
                    let z = ms@.take(k as int).index_of(y as usize);
                    assert(ms@.take(k as int + 1)[z] == y as usize);
                }
                assert(ms@.take(k as int + 1)[k as int] == j);
                assert(y != j);
                assert(outs[y] == outs_before[y]);
            }
        }
        k += 1;
    }
    assert(ms@.take(ms.len() as int) =~= ms@);
    digs
}

/// Records the digests of the members of a component and marks the members
/// done.
fn record_members(
    done: &mut Vec<bool>,
    fin: &mut Vec<String>,
    ms: &Vec<usize>,
    digs: &Vec<String>,
)
    requires
        old(done).len() == old(fin).len(),
        digs.len() == ms.len(),
        forall|x: int| 0 <= x < ms.len() ==> #[trigger] ms[x] < old(done).len(),
        forall|a: int, b: int| 0 <= a < b < ms.len() ==> ms[a] < ms[b],
        forall|x: int| 0 <= x < ms.len() ==> !old(done)[#[trigger] ms[x] as int],
    ensures
        final(done).len() == old(done).len(),
        final(fin).len() == old(fin).len(),
        forall|x: int| 0 <= x < ms.len() ==> (#[trigger] final(fin)[ms[x] as int])@ == digs[x]@,
        forall|x: int| 0 <= x < ms.len() ==> final(done)[#[trigger] ms[x] as int],
        forall|j: int|
            0 <= j < old(done).len() && !ms@.contains(j as usize) ==> #[trigger] final(fin)[j]
                == old(fin)[j],
        forall|j: int|
            0 <= j < old(done).len() && !ms@.contains(j as usize) ==> #[trigger] final(done)[j]
                == old(done)[j],
        count_true(final(done)@) == count_true(old(done)@) + ms.len(),
{
    let ghost done0 = done@;
    let ghost fin0 = fin@;
    let n = done.len();
    let mut k: usize = 0;
    while k < ms.len()
        invariant
            done.len() == n,
            fin.len() == n,
            done0.len() == n,
            fin0.len() == n,
            k <= ms.len(),
            digs.len() == ms.len(),
            forall|x: int| 0 <= x < ms.len() ==> #[trigger] ms[x] < n,
            forall|a: int, b: int| 0 <= a < b < ms.len() ==> ms[a] < ms[b],
            forall|x: int| 0 <= x < ms.len() ==> !done0[#[trigger] ms[x] as int],
            forall|x: int| 0 <= x < k ==> (#[trigger] fin[ms[x] as int])@ == digs[x]@,
            forall|x: int| 0 <= x < k ==> done[#[trigger] ms[x] as int],
            forall|j: int|
                0 <= j < n && !ms@.take(k as int).contains(j as usize) ==> #[trigger] fin[j]
                    == fin0[j],
            forall|j: int|
                0 <= j < n && !ms@.take(k as int).contains(j as usize) ==> #[trigger] done[j]
                    == done0[j],
            count_true(done@) == count_true(done0) + k,
        decreases ms.len() - k,
    {
        let j = ms[k];
        let ghost fin_before = fin@;
        let ghost done_before = done@;
        proof {
            assert(!ms@.take(k as int).contains(j)) by {
                if ms@.take(k as int).contains(j) {
                    let z = ms@.take(k as int).index_of(j);
                    assert(ms[z] < ms[k as int]);
                }
            }
            assert(done[j as int] == done0[j as int]);
            lemma_count_set(done@, j as int);
        }
        fin.set(j, digs[k].clone());
        done.set(j, true);
        proof {
            assert(done@ =~= done_before.update(j as int, true));
            assert(ms@.take(k as int + 1) =~= ms@.take(k as int).push(j));
            assert forall|x: int| 0 <= x <= k implies (#[trigger] fin[ms[x] as int])@
                == digs[x]@ by {
                if x < k {
                    assert(ms[x] < ms[k as int]);
                    assert(fin[ms[x] as int] == fin_before[ms[x] as int]);
                }
            }
            assert forall|x: int| 0 <= x <= k implies done[#[trigger] ms[x] as int] by {
                if x < k {
                    assert(ms[x] < ms[k as int]);
                    assert(done[ms[x] as int] == done_before[ms[x] as int]);
                }
            }
            assert forall|y: int|
                0 <= y < n && !ms@.take(k as int + 1).contains(y as usize) implies #[trigger] fin[y]
                == fin0[y] by {
                if ms@.take(k as int).contains(y as usize) {
                    let z = ms@.take(k as int).index_of(y as usize);
                    assert(ms@.take(k as int + 1)[z] == y as usize);
                }
                assert(ms@.take(k as int + 1)[k as int] == j);
                assert(fin[y] == fin_before[y]);
            }
            assert forall|y: int|
                0 <= y < n && !ms@.take(k as int + 1).contains(y as usize) implies #[trigger] done[y]
                == done0[y] by {
                if ms@.take(k as int).contains(y as usize) {
                    let z = ms@.take(k as int).index_of(y as usize);
                    assert(ms@.take(k as int + 1)[z] == y as usize);
                }
                assert(ms@.take(k as int + 1)[k as int] == j);
                assert(done[y] == done_before[y]);
            }
        }
        k += 1;
    }
    assert(ms@.take(ms.len() as int) =~= ms@);
}

/// Once the members of a component have their digests and bodies, and all
/// that lies below the component had them before, the state is settled
/// again.
pub proof fn lemma_component_settled(
    ds: Seq<DeclModel>,
    ms: Seq<usize>,
    pick: int,
    done0: Seq<bool>,
    f0: Seq<Seq<char>>,
    outs0: Seq<DeclModel>,
    done1: Seq<bool>,
    f1: Seq<Seq<char>>,
    outs1: Seq<DeclModel>,
)
    requires
        unique_names(ds),
        0 <= pick < ds.len(),
        settled(ds, done0, f0, outs0),
        is_component(ds, ms, pick),
        !done0[pick],
        forall|j: int| 0 <= j < ds.len() && below(ds, pick, j) ==> done0[j],
        done1.len() == ds.len(),
        f1.len() == ds.len(),
        outs1.len() == ds.len(),
        forall|i: int|
            0 <= i < ds.len() && !holds(ms, i) ==> f1[i] == f0[i] && done1[i] == done0[i]
                && outs1[i] == outs0[i],
        forall|i: int|
            0 <= i < ds.len() && holds(ms, i) ==> done1[i] && f1[i] == digest_at(
                ds,
                f0,
                i,
            ) && outs1[i] == linked_decl(ds, f0, i),
    ensures
        settled(ds, done1, f1, outs1),
{
    let g = graph_of(ds);
    let n = ds.len();
    assert forall|i: int| 0 <= i < n && holds(ms, i) implies same_scc(g, pick, i)
        && !done0[i] by {
        let x = choose|x: int| 0 <= x < ms.len() && #[trigger] ms[x] as int == i;
        assert(same_scc(g, pick, ms[x] as int));
        if done0[i] {
            assert(reach(g, i, pick));
        }
    }
    assert forall|i: int, j: int|
        0 <= i < n && 0 <= j < n && done1[i] && #[trigger] reach(g, i, j) implies done1[j] by {
        if holds(ms, i) {
            if !holds(ms, j) {
                lemma_reach_trans(g, pick, i, j);
                if reach(g, j, pick) {
                    assert(same_scc(g, pick, j));
                }
                assert(below(ds, pick, j));
            }
        } else {
            assert(done0[i]);
            assert(done0[j]);
        }
    }
    assert forall|i: int| 0 <= i < n && done1[i] implies f1[i] == #[trigger] digest_at(ds, f1, i)
        && outs1[i] == linked_decl(ds, f1, i) by {
        assert forall|j: int| 0 <= j < n && below(ds, i, j) implies f0[j] == f1[j] by {
            if holds(ms, j) {
                if holds(ms, i) {
                    lemma_reach_trans(g, j, pick, i);
                } else {
                    assert(done0[i]);
                    assert(done0[j]);
                }
            }
        }
        lemma_frame(ds, f0, f1, i);
        if !holds(ms, i) {
            assert(f0[i] == digest_at(ds, f0, i));
            assert(outs0[i] == linked_decl(ds, f0, i));
        }
    }
    assert forall|i: int| 0 <= i < n && done1[i] implies outs1[i] == #[trigger] linked_decl(
        ds,
        f1,
        i,
    ) by {
        assert(f1[i] == digest_at(ds, f1, i));
    }
}

/// Links the component of `pick`: works out the digest and the rewritten
/// body of each of its members and marks them done.
fn link_component(
    decls: &Vec<Declaration>,
    adj: &Vec<Vec<usize>>,
    m: &Vec<Vec<bool>>,
    done: &mut Vec<bool>,
    fin: &mut Vec<String>,
    outs: &mut Vec<Declaration>,
    pick: usize,
)
    requires
        prepared(decls_model(decls@), adj@, m@),
        settled(decls_model(decls@), old(done)@, strings_model(old(fin)@), decls_model(old(outs)@)),
        pick < decls.len(),
        !old(done)[pick as int],
        forall|j: int|
            0 <= j < decls.len() && below(decls_model(decls@), pick as int, j) ==> old(done)[j],
    ensures
        settled(decls_model(decls@), final(done)@, strings_model(final(fin)@), decls_model(final(outs)@)),
        count_true(final(done)@) > count_true(old(done)@),
{
    let ghost ds = decls_model(decls@);
    let ghost g = graph_of(ds);
    let ghost f0 = strings_model(fin@);
    let ghost done0 = done@;
    let ghost outs0 = decls_model(outs@);
    let ms = component_of(decls, adj, m, pick);
    let group = component_digest(decls, adj, m, fin, &ms, pick);
    let digs = rewrite_members(decls, adj, m, fin, outs, &ms, pick, &group);
    proof {
        assert forall|x: int| 0 <= x < ms.len() implies !done0[#[trigger] ms[x] as int] by {
            if done0[ms[x] as int] {
                assert(reach(g, ms[x] as int, pick as int));
            }
        }
    }
    record_members(done, fin, &ms, &digs);
    proof {
        let f1 = strings_model(fin@);
        let outs1 = decls_model(outs@);
        assert forall|i: int| 0 <= i < ds.len() && holds(ms@, i) implies done[i] && f1[i]
            == digest_at(ds, f0, i) && outs1[i] == linked_decl(ds, f0, i) by {
            let x = choose|x: int| 0 <= x < ms.len() && #[trigger] ms[x] as int == i;
            assert(ms[x] == i);
            assert(fin[ms[x] as int]@ == digs[x]@);
            assert(outs[ms[x] as int]@ == linked_decl(ds, f0, ms[x] as int));
        }
        assert forall|i: int| 0 <= i < ds.len() && !holds(ms@, i) implies f1[i] == f0[i]
            && done[i] == done0[i] && outs1[i] == outs0[i] by {
            if ms@.contains(i as usize) {
                let k = ms@.index_of(i as usize);
                assert(ms[k] as int == i);
            }
            assert(fin[i] == old(fin)[i]);
            assert(outs[i]@ == old(outs)[i]@);
        }
        lemma_component_settled(ds, ms@, pick as int, done0, f0, outs0, done@, f1, outs1);
        let x = ms@.index_of(pick);
    }
}

/// What linking makes of a unit: the declarations with their rewritten
/// bodies, in the unit's order, and the final digest of each.
pub struct Linked {
    pub declarations: Vec<Declaration>,
    pub digests: Vec<String>,
}

impl Linked {
    /// This is the linking of the unit `ds`: every digest is the digest of
    /// the rewritten body that stands beside it, and every rewritten body is
    /// the unit's body with its references resolved against these digests.
    pub open spec fn is_linking_of(&self, ds: Seq<DeclModel>) -> bool {
        &&& linked(ds, strings_model(self.digests@))
        &&& self.declarations.len() == ds.len()
        &&& forall|i: int|
            0 <= i < ds.len() ==> (#[trigger] self.declarations[i])@ == linked_decl(
                ds,
                strings_model(self.digests@),
                i,
            )
    }
}

/// Links a unit in which no name stands twice, given the table from its
/// names to their places.
pub(crate) fn link_indexed(decls: &Vec<Declaration>, index: &StringHashMap<usize>) -> (out: Linked)
    requires
        unique_names(decls_model(decls@)),
        is_index(index@, decls_model(decls@)),
    ensures
        out.is_linking_of(decls_model(decls@)),
{
    let ghost ds = decls_model(decls@);
    let n = decls.len();
    let dag = TypeDAG::build(decls);
    let adj = dag.resolve(decls, index);
    let m = closure(&adj);
    let keys = reach_counts(&m);
    let mut done: Vec<bool> = Vec::new();
    let mut fin: Vec<String> = Vec::new();
    let mut outs: Vec<Declaration> = Vec::new();
    while done.len() < n
        invariant
            done.len() <= n,
            fin.len() == done.len(),
            outs.len() == done.len(),
            forall|j: int| 0 <= j < done.len() ==> !done[j],
        decreases n - done.len(),
    {
        done.push(false);
        fin.push(String::new());
        outs.push(
            Declaration { name: String::new(), body: Body::Struct(Fields::Unit), span: Span::none() },
        );
    }
    let mut next = pick_next(&done, &keys);
    while next.is_some()
        invariant
            n == decls.len(),
            ds == decls_model(decls@),
            prepared(ds, adj@, m@),
            keys.len() == n,
            forall|i: int| 0 <= i < n ==> keys[i] == count_true(#[trigger] m[i]@),
            settled(ds, done@, strings_model(fin@), decls_model(outs@)),
            match next {
                Some(p) => {
                    &&& p < n
                    &&& !done[p as int]
                    &&& forall|j: int| 0 <= j < n && !done[j] ==> keys[p as int] <= keys[j]
                },
                None => forall|j: int| 0 <= j < n ==> done[j],
            },
        decreases n - count_true(done@),
    {
        let pick = next.unwrap();
        proof {
            assert forall|j: int| 0 <= j < n && below(ds, pick as int, j) implies done[j] by {
                lemma_below_counts_less(m@, graph_of(ds), pick as int, j);
            }
        }
        link_component(decls, &adj, &m, &mut done, &mut fin, &mut outs, pick);
        proof {
            lemma_count_bound(done@);
        }
        next = pick_next(&done, &keys);
    }
    Linked { declarations: outs, digests: fin }
}

/// The linker. It gives every declaration its final digest and its
/// rewritten body, components that are mentioned before the components
/// that mention them. It fails where two declarations share a name, and on
/// nothing else: a name that no declaration has is a leaf and stays.
pub fn link(decls: &Vec<Declaration>) -> (r: Result<Linked, ExtractError>)
    ensures
        match r {
            Ok(out) => out.is_linking_of(decls_model(decls@)),
            Err(ExtractError::DuplicateName { name, first, second }) => {
                &&& first_clash(decls_model(decls@), first as int, second as int)
                &&& name@ == decls_model(decls@)[second as int].name
            },
            Err(ExtractError::UnresolvedReference { .. }) => false,
        },
        r is Ok <==> unique_names(decls_model(decls@)),
{
    let ghost ds = decls_model(decls@);
    match index_names(decls) {
        Ok(index) => Ok(link_indexed(decls, &index)),
        Err((first, second)) => {
            let name = decls[second].name.clone();
            proof {
                assert(ds[first as int].name == ds[second as int].name);
            }
            Err(ExtractError::DuplicateName { name, first, second })
        },
    }
}

/// The linker with its consistency check: it links the unit as `link`
/// does, after it has made sure that the graph it is given accounts for
/// every name that a body mentions. It fails where two declarations share
/// a name, and where a body mentions a name that the graph does not list
/// for it, be it as the name of a declaration or as a leaf; it then names
/// the first declaration with such a mention, and the mention.
pub fn link_checked(decls: &Vec<Declaration>, dag: &TypeDAG) -> (r: Result<Linked, ExtractError>)
    ensures
        match r {
            Ok(out) => out.is_linking_of(decls_model(decls@)),
            Err(ExtractError::DuplicateName { name, first, second }) => {
                &&& first_clash(decls_model(decls@), first as int, second as int)
                &&& name@ == decls_model(decls@)[second as int].name
            },
            Err(ExtractError::UnresolvedReference { declaration, reference }) => {
                &&& unique_names(decls_model(decls@))
                &&& exists|i: int|
                    0 <= i < decls.len() && declaration@ == #[trigger] decls_model(decls@)[i].name
                        && body_names(decls_model(decls@)[i].body).contains(reference@)
                        && !(i < dag.edges.len() && strings_model(dag.edges[i]@).contains(
                        reference@,
                    )) && forall|k: int| 0 <= k < i ==> dag.covers_row(decls_model(decls@), k)
            },
        },
        r is Ok <==> unique_names(decls_model(decls@)) && dag.covers(decls_model(decls@)),
{
    let ghost ds = decls_model(decls@);
    match index_names(decls) {
        Ok(index) => match dag.first_gap(decls) {
            None => Ok(link_indexed(decls, &index)),
            Some((i, reference)) => {
                let declaration = decls[i].name.clone();
                proof {
                    assert(ds[i as int].name == declaration@);
                    assert(!dag.covers_row(ds, i as int));
                }
                Err(ExtractError::UnresolvedReference { declaration, reference })
            },
        },
        Err((first, second)) => {
            let name = decls[second].name.clone();
            proof {
                assert(ds[first as int].name == ds[second as int].name);
            }
            Err(ExtractError::DuplicateName { name, first, second })
        },
    }
}

} // verus!
