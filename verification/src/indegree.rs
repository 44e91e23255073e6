//! In-degrees of graph vertices, restricted to edges whose source has not yet
//! been processed. The in-degree elimination at the heart of the topological
//! sort is specified and proved against these counts.

use vstd::prelude::*;
use crate::counting::{occ, lemma_occ_le_one_of_no_duplicates};

verus! {

/// Edges into `v` whose source lies below `k` and outside `done`.
pub open spec fn in_deg_upto(g: Seq<Seq<usize>>, v: usize, done: Set<usize>, k: int) -> nat
    decreases k,
{
    if k <= 0 {
        0
    } else {
        in_deg_upto(g, v, done, k - 1) + if done.contains((k - 1) as usize) {
            0nat
        } else {
            occ(g[k - 1], v)
        }
    }
}

/// Edges into `v` whose source lies outside `done`.
pub open spec fn in_deg(g: Seq<Seq<usize>>, v: usize, done: Set<usize>) -> nat {
    in_deg_upto(g, v, done, g.len() as int)
}

/// Every adjacency row of `g` is free of duplicates.
pub open spec fn rows_no_duplicates(g: Seq<Seq<usize>>) -> bool {
    forall|u: int| 0 <= u < g.len() ==> (#[trigger] g[u]).no_duplicates()
}

/// With duplicate-free rows, each of the `k` sources contributes at most one
/// edge into `v`.
pub proof fn lemma_in_deg_upto_bound(g: Seq<Seq<usize>>, v: usize, done: Set<usize>, k: int)
    requires
        rows_no_duplicates(g),
        k <= g.len(),
    ensures
        in_deg_upto(g, v, done, k) <= if k <= 0 {
            0int
        } else {
            k
        },
    decreases k,
{
    if k > 0 {
        lemma_in_deg_upto_bound(g, v, done, k - 1);
        lemma_occ_le_one_of_no_duplicates(g[k - 1], v);
    }
}

/// Excluding one more source removes exactly that source's contribution.
pub proof fn lemma_in_deg_upto_insert(
    g: Seq<Seq<usize>>,
    v: usize,
    done: Set<usize>,
    cur: usize,
    k: int,
)
    requires
        !done.contains(cur),
        k <= usize::MAX,
    ensures
        in_deg_upto(g, v, done.insert(cur), k) + if 0 <= (cur as int) < k {
            occ(g[cur as int], v)
        } else {
            0nat
        } == in_deg_upto(g, v, done, k),
    decreases k,
{
    if k > 0 {
        lemma_in_deg_upto_insert(g, v, done, cur, k - 1);
    }
}

/// One unprocessed source below `k` contributes no more than the total.
pub proof fn lemma_in_deg_upto_source_bound(
    g: Seq<Seq<usize>>,
    v: usize,
    done: Set<usize>,
    u: usize,
    k: int,
)
    requires
        (u as int) < k,
        !done.contains(u),
    ensures
        in_deg_upto(g, v, done, k) >= occ(g[u as int], v),
    decreases k,
{
    if (u as int) < k - 1 {
        lemma_in_deg_upto_source_bound(g, v, done, u, k - 1);
    }
}

/// A positive count names at least one unprocessed source of an edge into `v`.
pub proof fn lemma_in_deg_upto_pos(g: Seq<Seq<usize>>, v: usize, done: Set<usize>, k: int)
    requires
        in_deg_upto(g, v, done, k) > 0,
        k <= usize::MAX,
    ensures
        exists|u: usize|
            (u as int) < k && !done.contains(u) && occ(#[trigger] g[u as int], v) > 0,
    decreases k,
{
    if k > 0 {
        if !done.contains((k - 1) as usize) && occ(g[k - 1], v) > 0 {
            let u = (k - 1) as usize;
            assert((u as int) < k && !done.contains(u) && occ(g[u as int], v) > 0);
        } else {
            lemma_in_deg_upto_pos(g, v, done, k - 1);
            let u = choose|u: usize|
                (u as int) < k - 1 && !done.contains(u) && occ(#[trigger] g[u as int], v) > 0;
            assert((u as int) < k && !done.contains(u) && occ(g[u as int], v) > 0);
        }
    }
}

} // verus!
