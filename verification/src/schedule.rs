//! The order in which components are linked: what a declaration reaches is
//! counted, and the declaration with the least count comes next. Whatever
//! lies strictly below it has a smaller count and came before.

use crate::graph::{is_closure, lemma_reach_self, lemma_reach_trans, reach};
use vstd::prelude::*;

verus! {

/// How many of the flags are set.
pub open spec fn count_true(s: Seq<bool>) -> nat
    decreases s.len(),
{
    if s.len() == 0 {
        0
    } else {
        count_true(s.drop_last()) + if s.last() {
            1nat
        } else {
            0nat
        }
    }
}

pub proof fn lemma_count_bound(s: Seq<bool>)
    ensures
        count_true(s) <= s.len(),
    decreases s.len(),
{
    if s.len() > 0 {
        lemma_count_bound(s.drop_last());
    }
}

/// Setting a flag that was clear raises the count by one.
pub proof fn lemma_count_set(s: Seq<bool>, i: int)
    requires
        0 <= i < s.len(),
        !s[i],
    ensures
        count_true(s.update(i, true)) == count_true(s) + 1,
    decreases s.len(),
{
    let t = s.update(i, true);
    if i == s.len() - 1 {
        assert(t.drop_last() =~= s.drop_last());
    } else {
        assert(t.drop_last() =~= s.drop_last().update(i, true));
        lemma_count_set(s.drop_last(), i);
    }
}

/// Flags that hold wherever others hold, and in one place more, count more.
pub proof fn lemma_count_more(a: Seq<bool>, b: Seq<bool>, w: int)
    requires
        a.len() == b.len(),
        forall|k: int| 0 <= k < a.len() && a[k] ==> b[k],
        0 <= w < a.len(),
        !a[w],
        b[w],
    ensures
        count_true(a) < count_true(b),
    decreases a.len(),
{
    if w == a.len() - 1 {
        lemma_count_within(a.drop_last(), b.drop_last());
    } else {
        lemma_count_more(a.drop_last(), b.drop_last(), w);
    }
}

pub proof fn lemma_count_within(a: Seq<bool>, b: Seq<bool>)
    requires
        a.len() == b.len(),
        forall|k: int| 0 <= k < a.len() && a[k] ==> b[k],
    ensures
        count_true(a) <= count_true(b),
    decreases a.len(),
{
    if a.len() > 0 {
        lemma_count_within(a.drop_last(), b.drop_last());
    }
}

/// What lies strictly below a node reaches fewer nodes than the node does.
pub proof fn lemma_below_counts_less(m: Seq<Vec<bool>>, g: Seq<Set<int>>, i: int, j: int)
    requires
        is_closure(m, g),
        reach(g, i, j),
        !reach(g, j, i),
        0 <= i < g.len(),
        0 <= j < g.len(),
    ensures
        count_true(m[j]@) < count_true(m[i]@),
{
    assert forall|k: int| 0 <= k < m[j]@.len() && m[j]@[k] implies m[i]@[k] by {
        assert(reach(g, j, k));
        lemma_reach_trans(g, i, j, k);
    }
    lemma_reach_self(g, i);
    assert(m[i]@[i] == reach(g, i, i));
    assert(m[j]@[i] == reach(g, j, i));
    lemma_count_more(m[j]@, m[i]@, i);
}

/// Counts the flags that are set.
pub fn count_flags(row: &Vec<bool>) -> (c: usize)
    ensures
        c == count_true(row@),
{
    let mut c: usize = 0;
    let mut i: usize = 0;
    assert(row@.take(0) =~= Seq::<bool>::empty());
    while i < row.len()
        invariant
            i <= row.len(),
            c == count_true(row@.take(i as int)),
            c <= i,
        decreases row.len() - i,
    {
        proof {
            assert(row@.take(i as int + 1).drop_last() =~= row@.take(i as int));
        }
        if row[i] {
            c += 1;
        }
        i += 1;
    }
    assert(row@.take(row.len() as int) =~= row@);
    c
}

/// For each node, how many nodes it reaches.
pub fn reach_counts(m: &Vec<Vec<bool>>) -> (keys: Vec<usize>)
    ensures
        keys.len() == m.len(),
        forall|i: int| 0 <= i < m.len() ==> keys[i] == count_true(#[trigger] m[i]@),
{
    let mut keys: Vec<usize> = Vec::new();
    let mut i: usize = 0;
    while i < m.len()
        invariant
            i <= m.len(),
            keys.len() == i,
            forall|k: int| 0 <= k < i ==> keys[k] == count_true(#[trigger] m[k]@),
        decreases m.len() - i,
    {
        keys.push(count_flags(&m[i]));
        i += 1;
    }
    keys
}

/// The first node with the least key among those not done, if any is left.
pub(crate) fn pick_next(done: &Vec<bool>, keys: &Vec<usize>) -> (r: Option<usize>)
    requires
        done.len() == keys.len(),
    ensures
        match r {
            Some(p) => {
                &&& p < done.len()
                &&& !done[p as int]
                &&& forall|j: int| 0 <= j < done.len() && !done[j] ==> keys[p as int] <= keys[j]
            },
            None => forall|j: int| 0 <= j < done.len() ==> done[j],
        },
{
    let mut best: Option<usize> = None;
    let mut i: usize = 0;
    while i < done.len()
        invariant
            i <= done.len(),
            done.len() == keys.len(),
            match best {
                Some(p) => {
                    &&& p < i
                    &&& !done[p as int]
                    &&& forall|j: int| 0 <= j < i && !done[j] ==> keys[p as int] <= keys[j]
                },
                None => forall|j: int| 0 <= j < i ==> done[j],
            },
        decreases done.len() - i,
    {
        if !done[i] {
            match best {
                Some(p) => {
                    if keys[i] < keys[p] {
                        best = Some(i);
                    }
                },
                None => {
                    best = Some(i);
                },
            }
        }
        i += 1;
    }
    best
}

/// The nodes that `p` reaches and that reach `p`, in rising order.
pub(crate) fn members_of(m: &Vec<Vec<bool>>, p: usize) -> (ms: Vec<usize>)
    requires
        p < m.len(),
        forall|i: int| 0 <= i < m.len() ==> (#[trigger] m[i]).len() == m.len(),
    ensures
        forall|k: int| 0 <= k < ms.len() ==> #[trigger] ms[k] < m.len(),
        forall|k: int|
            0 <= k < ms.len() ==> m[p as int][#[trigger] ms[k] as int] && m[ms[k] as int][p as int],
        forall|j: int|
            0 <= j < m.len() && m[p as int][j] && m[j][p as int] ==> ms@.contains(j as usize),
        forall|a: int, b: int| 0 <= a < b < ms.len() ==> ms[a] < ms[b],
{
    let n = m.len();
    let mut ms: Vec<usize> = Vec::new();
    let mut j: usize = 0;
    while j < n
        invariant
            n == m.len(),
            forall|i: int| 0 <= i < m.len() ==> (#[trigger] m[i]).len() == m.len(),
            p < n,
            j <= n,
            forall|k: int| 0 <= k < ms.len() ==> #[trigger] ms[k] < j,
            forall|k: int|
                0 <= k < ms.len() ==> m[p as int][#[trigger] ms[k] as int] && m[ms[k] as int][p as int],
            forall|x: int|
                0 <= x < j && m[p as int][x] && m[x][p as int] ==> ms@.contains(x as usize),
            forall|a: int, b: int| 0 <= a < b < ms.len() ==> ms[a] < ms[b],
        decreases n - j,
    {
        if m[p][j] && m[j][p] {
            let ghost before = ms@;
            ms.push(j);
            proof {
                assert forall|x: int|
                    0 <= x <= j && m[p as int][x] && m[x][p as int] implies ms@.contains(
                    x as usize,
                ) by {
                    if x < j {
                        let k = before.index_of(x as usize);
                        assert(ms[k] == x as usize);
                    } else {
                        assert(ms[before.len() as int] == j);
                    }
                }
            }
        }
        j += 1;
    }
    ms
}

} // verus!
