//! The content store of a unit: from each name to its digest, and from each
//! digest to the declaration that it is the digest of.

use crate::canon::{canon_decl, canonicalize};
use crate::extract::{
    declarations, first_clash, index_names, is_index, retained, unique_names, ExtractError,
};
use crate::link::{link_indexed, linked_decl, Linked};
use crate::model::{decls_model, nodes_model, DeclModel, Declaration, Node};
use crate::refs::strings_model;
use crate::rewrite::table_model;
use crate::unit::{declared, lemma_place_of, linked, place_of};
use vstd::hash_map::StringHashMap;
use vstd::prelude::*;

verus! {

/// Each declaration in canonical form.
pub open spec fn canon_unit(ds: Seq<DeclModel>) -> Seq<DeclModel> {
    Seq::new(ds.len(), |i: int| canon_decl(ds[i]))
}

/// `i` is the last place at which the digest `d` stands.
pub open spec fn is_last_place(fin: Seq<Seq<char>>, d: Seq<char>, i: int) -> bool {
    &&& 0 <= i < fin.len()
    &&& fin[i] == d
    &&& forall|j: int| i < j < fin.len() ==> fin[j] != d
}

pub open spec fn last_place(fin: Seq<Seq<char>>, d: Seq<char>) -> int {
    choose|i: int| is_last_place(fin, d, i)
}

/// Some declaration has this digest.
pub open spec fn is_digest(fin: Seq<Seq<char>>, d: Seq<char>) -> bool {
    exists|i: int| 0 <= i < fin.len() && #[trigger] fin[i] == d
}

/// What a store says.
pub struct StoreModel {
    /// From each name to the final digest of the declaration that has it.
    pub by_name: Map<Seq<char>, Seq<char>>,
    /// From each final digest to a rewritten declaration with that digest.
    /// Declarations of one shape share a digest; the store then holds the
    /// one that stood last in the unit.
    pub by_digest: Map<Seq<char>, DeclModel>,
}

/// The store of a unit `ds` whose final digests are `fin`.
pub open spec fn store_of(ds: Seq<DeclModel>, fin: Seq<Seq<char>>) -> StoreModel {
    StoreModel {
        by_name: Map::new(|n: Seq<char>| declared(ds, n), |n: Seq<char>| fin[place_of(ds, n)]),
        by_digest: Map::new(
            |d: Seq<char>| is_digest(fin, d),
            |d: Seq<char>| linked_decl(ds, fin, last_place(fin, d)),
        ),
    }
}

/// The content store with the rewritten declarations that it was built of.
/// It is built once and never changed.
pub struct Compiler {
    names_to_h: StringHashMap<String>,
    h_to_ast: StringHashMap<usize>,
    linked: Linked,
}

impl View for Compiler {
    type V = StoreModel;

    closed spec fn view(&self) -> StoreModel {
        StoreModel {
            by_name: table_model(self.names_to_h@),
            by_digest: Map::new(
                |d: Seq<char>| self.h_to_ast@.contains_key(d),
                |d: Seq<char>| self.linked.declarations[self.h_to_ast@[d] as int]@,
            ),
        }
    }
}

impl Compiler {
    #[verifier::type_invariant]
    spec fn well_formed(&self) -> bool {
        forall|d: Seq<char>| #[trigger]
            self.h_to_ast@.contains_key(d) ==> self.h_to_ast@[d] < self.linked.declarations.len()
    }

    /// The final digests of the unit, in the unit's order.
    pub closed spec fn digests(&self) -> Seq<Seq<char>> {
        strings_model(self.linked.digests@)
    }

    /// The rewritten declarations of the unit, in the unit's order.
    pub closed spec fn declarations(&self) -> Seq<DeclModel> {
        decls_model(self.linked.declarations@)
    }

    /// This is the store of the unit `ds`: its digests are the final
    /// digests of `ds`, its declarations are those of `ds` rewritten, and
    /// its two tables are those of `ds` and these digests.
    pub open spec fn is_store_of(&self, ds: Seq<DeclModel>) -> bool {
        &&& linked(ds, self.digests())
        &&& self.declarations().len() == ds.len()
        &&& forall|i: int|
            0 <= i < ds.len() ==> #[trigger] self.declarations()[i] == linked_decl(
                ds,
                self.digests(),
                i,
            )
        &&& self@ == store_of(ds, self.digests())
    }

    /// Builds the store of a unit from what the linker made of it.
    fn build(decls: &Vec<Declaration>, linked: Linked) -> (c: Compiler)
        requires
            unique_names(decls_model(decls@)),
            linked.is_linking_of(decls_model(decls@)),
        ensures
            c.is_store_of(decls_model(decls@)),
    {
        let ghost ds = decls_model(decls@);
        let ghost fin = strings_model(linked.digests@);
        let n = decls.len();
        let mut names_to_h: StringHashMap<String> = StringHashMap::new();
        let mut h_to_ast: StringHashMap<usize> = StringHashMap::new();
        let mut i: usize = 0;
        while i < n
            invariant
                n == decls.len(),
                ds == decls_model(decls@),
                fin == strings_model(linked.digests@),
                fin.len() == n,
                unique_names(ds),
                i <= n,
                forall|k: int|
                    0 <= k < i ==> names_to_h@.contains_key(#[trigger] ds[k].name)
                        && names_to_h@[ds[k].name]@ == fin[k],
                forall|x: Seq<char>| #[trigger]
                    names_to_h@.contains_key(x) ==> exists|k: int|
                        0 <= k < i && #[trigger] ds[k].name == x,
                forall|d: Seq<char>| #[trigger]
                    h_to_ast@.contains_key(d) <==> is_digest(fin.take(i as int), d),
                forall|d: Seq<char>| #[trigger]
                    h_to_ast@.contains_key(d) ==> is_last_place(
                        fin.take(i as int),
                        d,
                        h_to_ast@[d] as int,
                    ),
            decreases n - i,
        {
            let ghost names_before = names_to_h@;
            let ghost digests_before = h_to_ast@;
            names_to_h.insert(decls[i].name.clone(), linked.digests[i].clone());
            h_to_ast.insert(linked.digests[i].clone(), i);
            proof {
                let a = fin.take(i as int);
                let b = fin.take(i as int + 1);
                assert(fin[i as int] == linked.digests[i as int]@);
                assert forall|k: int| 0 <= k <= i implies names_to_h@.contains_key(
                    #[trigger] ds[k].name,
                ) && names_to_h@[ds[k].name]@ == fin[k] by {
                    if k < i {
                        assert(ds[k].name != ds[i as int].name);
                        assert(names_before.contains_key(ds[k].name));
                    }
                }
                assert forall|x: Seq<char>| #[trigger] names_to_h@.contains_key(x) implies exists|
                    k: int,
                | 0 <= k <= i && #[trigger] ds[k].name == x by {
                    if x == ds[i as int].name {
                    } else {
                        assert(names_before.contains_key(x));
                        let k = choose|k: int| 0 <= k < i && #[trigger] ds[k].name == x;
                        assert(ds[k].name == x);
                    }
                }
                assert forall|d: Seq<char>| #[trigger]
                    h_to_ast@.contains_key(d) <==> is_digest(b, d) by {
                    if is_digest(b, d) {
                        let k = choose|k: int| 0 <= k < b.len() && #[trigger] b[k] == d;
                        if k < i {
                            assert(a[k] == d);
                        }
                    }
                    if h_to_ast@.contains_key(d) {
                        if d == fin[i as int] {
                            assert(b[i as int] == d);
                        } else {
                            assert(digests_before.contains_key(d));
                            let k = choose|k: int| 0 <= k < a.len() && #[trigger] a[k] == d;
                            assert(b[k] == d);
                        }
                    }
                }
                assert forall|d: Seq<char>| #[trigger] h_to_ast@.contains_key(d) implies is_last_place(
                    b,
                    d,
                    h_to_ast@[d] as int,
                ) by {
                    if d == fin[i as int] {
                        assert(b[i as int] == d);
                    } else {
                        assert(digests_before.contains_key(d));
                        let p = digests_before[d] as int;
                        assert(is_last_place(a, d, p));
                        assert(b[p] == a[p]);
                        assert forall|j: int| p < j < b.len() implies b[j] != d by {
                            if j < i {
                                assert(a[j] != d);
                            }
                        }
                    }
                }
            }
            i += 1;
        }
        let c = Compiler { names_to_h, h_to_ast, linked };
        proof {
            assert(fin.take(n as int) =~= fin);
            let want = store_of(ds, fin);
            assert(c@.by_name =~= want.by_name) by {
                assert forall|x: Seq<char>| c@.by_name.contains_key(x) <==> declared(ds, x) by {
                    if declared(ds, x) {
                        let k = place_of(ds, x);
                        assert(c.names_to_h@.contains_key(ds[k].name));
                    }
                }
                assert forall|x: Seq<char>| declared(ds, x) implies c@.by_name[x] == fin[place_of(
                    ds,
                    x,
                )] by {
                    let k = place_of(ds, x);
                    assert(c.names_to_h@[ds[k].name]@ == fin[k]);
                }
            }
            assert(c@.by_digest =~= want.by_digest) by {
                assert forall|d: Seq<char>| is_digest(fin, d) implies c@.by_digest[d]
                    == linked_decl(ds, fin, last_place(fin, d)) by {
                    assert(c.h_to_ast@.contains_key(d));
                    let p = c.h_to_ast@[d] as int;
                    assert(is_last_place(fin, d, p));
                    let q = last_place(fin, d);
                    assert(is_last_place(fin, d, q));
                    if p < q {
                        assert(fin[q] != d);
                    }
                    if q < p {
                        assert(fin[p] != d);
                    }
                }
            }
        }
        c
    }

    /// The whole pipeline on the parsed nodes of a unit: the declarations
    /// are extracted, brought into canonical form and linked, and the store
    /// is built of the result. It fails where two declarations share a name,
    /// and then there is no store.
    pub fn extract(nodes: Vec<Node>) -> (r: Result<Compiler, ExtractError>)
        ensures
            match r {
                Ok(c) => c.is_store_of(canon_unit(retained(nodes_model(nodes@)))),
                Err(ExtractError::DuplicateName { name, first, second }) => {
                    &&& first_clash(retained(nodes_model(nodes@)), first as int, second as int)
                    &&& name@ == retained(nodes_model(nodes@))[second as int].name
                },
                Err(ExtractError::UnresolvedReference { .. }) => false,
            },
            r is Ok <==> unique_names(retained(nodes_model(nodes@))),
    {
        let ghost parsed = retained(nodes_model(nodes@));
        let found = declarations(nodes);
        let mut canonical: Vec<Declaration> = Vec::new();
        let mut i: usize = 0;
        while i < found.len()
            invariant
                i <= found.len(),
                canonical.len() == i,
                forall|k: int| 0 <= k < i ==> (#[trigger] canonical[k])@ == canon_decl(found[k]@),
            decreases found.len() - i,
        {
            canonical.push(canonicalize(&found[i]));
            i += 1;
        }
        proof {
            assert(decls_model(canonical@) =~= canon_unit(parsed));
            assert forall|a: int, b: int| 0 <= a < b < parsed.len() implies (parsed[a].name
                != parsed[b].name) == (canon_unit(parsed)[a].name != canon_unit(parsed)[b].name) by {}
        }
        match index_names(&canonical) {
            Ok(index) => {
                let linked = link_indexed(&canonical, &index);
                proof {
                    assert(unique_names(parsed)) by {
                        assert forall|a: int, b: int| 0 <= a < b < parsed.len() implies parsed[a].name
                            != parsed[b].name by {
                            assert(canon_unit(parsed)[a].name != canon_unit(parsed)[b].name);
                        }
                    }
                }
                Ok(Compiler::build(&canonical, linked))
            },
            Err((first, second)) => {
                let name = canonical[second].name.clone();
                proof {
                    let cs = canon_unit(parsed);
                    assert(cs[first as int].name == cs[second as int].name);
                    assert(parsed[first as int].name == parsed[second as int].name);
                    assert(unique_names(parsed.take(second as int))) by {
                        assert forall|a: int, b: int|
                            0 <= a < b < second implies parsed.take(second as int)[a].name
                            != parsed.take(second as int)[b].name by {
                            assert(cs.take(second as int)[a].name != cs.take(second as int)[b].name);
                        }
                    }
                }
                Err(ExtractError::DuplicateName { name, first, second })
            },
        }
    }

    /// The rewritten declarations of the unit with their final digests, in
    /// the unit's order.
    pub fn linking(&self) -> (r: &Linked)
        ensures
            strings_model(r.digests@) == self.digests(),
            decls_model(r.declarations@) == self.declarations(),
    {
        &self.linked
    }

    /// The digest of the declaration with this name.
    pub fn lookup_name(&self, name: &str) -> (r: Option<&String>)
        ensures
            match r {
                Some(d) => self@.by_name.contains_key(name@) && d@ == self@.by_name[name@],
                None => !self@.by_name.contains_key(name@),
            },
    {
        self.names_to_h.get(name)
    }

    /// The declaration with this digest.
    pub fn lookup_digest(&self, digest: &str) -> (r: Option<&Declaration>)
        ensures
            match r {
                Some(d) => self@.by_digest.contains_key(digest@) && d@ == self@.by_digest[digest@],
                None => !self@.by_digest.contains_key(digest@),
            },
    {
        proof {
            use_type_invariant(self);
        }
        match self.h_to_ast.get(digest) {
            Some(i) => Some(&self.linked.declarations[*i]),
            None => None,
        }
    }
}

} // verus!
