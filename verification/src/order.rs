//! What it means for a sequence of vertices to be a topological order of a
//! graph, what a cycle is, and why the two exclude each other. The module
//! also proves that a nonempty vertex set in which every vertex keeps an
//! unprocessed predecessor must contain a cycle — the completeness half of
//! cycle detection.

use vstd::prelude::*;
use vstd::set_lib::lemma_len_subset;

verus! {

/// `g` has an edge from `u` to `v`.
pub open spec fn edge(g: Seq<Seq<usize>>, u: usize, v: usize) -> bool {
    (u as int) < g.len() && g[u as int].contains(v)
}

/// `order` lists every vertex of `g` exactly once, and every edge points
/// forward in it.
pub open spec fn valid_topo_order(g: Seq<Seq<usize>>, order: Seq<usize>) -> bool {
    &&& order.len() == g.len()
    &&& order.no_duplicates()
    &&& forall|i: int| 0 <= i < order.len() ==> (#[trigger] order[i] as int) < g.len()
    &&& forall|v: usize| (v as int) < g.len() ==> order.contains(v)
    &&& forall|i: int, j: int|
        0 <= i < order.len() && 0 <= j < order.len() && edge(g, order[i], order[j]) ==> i < j
}

/// `p` walks along edges of `g` and returns to its starting vertex.
pub open spec fn is_cycle(g: Seq<Seq<usize>>, p: Seq<usize>) -> bool {
    &&& p.len() >= 2
    &&& p[0] == p[p.len() - 1]
    &&& forall|i: int| 0 <= i < p.len() - 1 ==> edge(g, #[trigger] p[i], p[i + 1])
}

/// Some cycle exists in `g`.
pub open spec fn has_cycle(g: Seq<Seq<usize>>) -> bool {
    exists|p: Seq<usize>| is_cycle(g, p)
}

/// The set of all vertex indices below `n`.
pub open spec fn below(n: usize) -> Set<usize> {
    Set::new(|v: usize| v < n)
}

pub proof fn lemma_below_finite(n: usize)
    ensures
        below(n).finite(),
        below(n).len() == n,
    decreases n,
{
    broadcast use vstd::set::group_set_axioms;

    if n == 0 {
        assert(below(0) =~= Set::empty());
    } else {
        let m = (n - 1) as usize;
        lemma_below_finite(m);
        assert(below(n) =~= below(m).insert(m));
        assert(!below(m).contains(m));
    }
}

/// A duplicate-free sequence of vertices below `n` has at most `n` entries.
pub proof fn lemma_distinct_bounded_len(s: Seq<usize>, n: usize)
    requires
        s.no_duplicates(),
        forall|i: int| 0 <= i < s.len() ==> (#[trigger] s[i] as int) < n,
    ensures
        s.len() <= n,
{
    broadcast use vstd::set::group_set_axioms, vstd::seq_lib::seq_to_set_is_finite;

    s.unique_seq_to_set();
    lemma_below_finite(n);
    assert(s.to_set().subset_of(below(n)));
    lemma_len_subset(s.to_set(), below(n));
}

/// A duplicate-free sequence of `n` vertices below `n` covers them all.
pub proof fn lemma_distinct_bounded_covers(s: Seq<usize>, n: usize, v: usize)
    requires
        s.no_duplicates(),
        forall|i: int| 0 <= i < s.len() ==> (#[trigger] s[i] as int) < n,
        s.len() == n,
        v < n,
    ensures
        s.contains(v),
{
    broadcast use vstd::set::group_set_axioms, vstd::seq_lib::seq_to_set_is_finite;

    s.unique_seq_to_set();
    lemma_below_finite(n);
    if !s.contains(v) {
        assert(s.to_set().subset_of(below(n).remove(v)));
        assert(below(n).remove(v).len() == n - 1);
        lemma_len_subset(s.to_set(), below(n).remove(v));
    }
}

/// Appending one vertex to a sequence adds exactly it to the vertex set.
pub proof fn lemma_push_to_set(s: Seq<usize>, x: usize)
    ensures
        s.push(x).to_set() =~= s.to_set().insert(x),
{
    broadcast use vstd::set::group_set_axioms;

    assert forall|y: usize| s.push(x).contains(y) implies s.contains(y) || y == x by {
        let i = choose|i: int| 0 <= i < s.push(x).len() && s.push(x)[i] == y;
        if i < s.len() {
            assert(s[i] == y);
        }
    }
    assert forall|y: usize| s.contains(y) implies s.push(x).contains(y) by {
        let i = choose|i: int| 0 <= i < s.len() && s[i] == y;
        assert(s.push(x)[i] == y);
    }
    assert(s.push(x)[s.len() as int] == x);
    assert(s.push(x).contains(x));
}

/// `v` has a predecessor that lies inside `s`.
pub open spec fn has_pred_in(g: Seq<Seq<usize>>, s: Set<usize>, v: usize) -> bool {
    exists|u: usize| #[trigger] s.contains(u) && edge(g, u, v)
}

/// In a predecessor-closed set, walks of any length can be built backwards.
proof fn build_walk(g: Seq<Seq<usize>>, s: Set<usize>, v0: usize, k: nat) -> (w: Seq<usize>)
    requires
        s.contains(v0),
        forall|v: usize| #[trigger] s.contains(v) ==> has_pred_in(g, s, v),
    ensures
        w.len() == k + 1,
        w[0] == v0,
        forall|i: int| 0 <= i < w.len() ==> s.contains(#[trigger] w[i]),
        forall|i: int| 0 <= i < k ==> edge(g, w[i + 1], #[trigger] w[i]),
    decreases k,
{
    if k == 0 {
        seq![v0]
    } else {
        let u = choose|u: usize| #[trigger] s.contains(u) && edge(g, u, v0);
        let rest = build_walk(g, s, u, (k - 1) as nat);
        let w = seq![v0] + rest;
        assert(w[0] == v0);
        assert(forall|i: int| 0 <= i < rest.len() ==> w[i + 1] == rest[i]);
        assert(edge(g, w[1], w[0]));
        w
    }
}

/// A finite, nonempty set of vertices in which every vertex has a
/// predecessor inside the set pins down a cycle: follow predecessors for one
/// step more than the set has vertices, and some vertex must repeat.
pub proof fn lemma_pred_closed_has_cycle(g: Seq<Seq<usize>>, s: Set<usize>)
    requires
        s.finite(),
        s.len() > 0,
        forall|v: usize| #[trigger] s.contains(v) ==> has_pred_in(g, s, v),
    ensures
        has_cycle(g),
{
    broadcast use vstd::set::group_set_axioms, vstd::seq_lib::seq_to_set_is_finite;

    let v0 = s.choose();
    assert(s.contains(v0));
    let w = build_walk(g, s, v0, s.len());
    assert(!w.no_duplicates()) by {
        if w.no_duplicates() {
            w.unique_seq_to_set();
            assert(w.to_set().subset_of(s));
            lemma_len_subset(w.to_set(), s);
        }
    }
    let (i, j) = choose|i: int, j: int| 0 <= i < j < w.len() && w[i] == w[j];
    assert(0 <= i < j < w.len() && w[i] == w[j]) by {
        let (a, b) = choose|a: int, b: int|
            0 <= a < w.len() && 0 <= b < w.len() && a != b && w[a] == w[b];
        if a < b {
            assert(0 <= a < b < w.len() && w[a] == w[b]);
        } else {
            assert(0 <= b < a < w.len() && w[b] == w[a]);
        }
    }
    let p = w.subrange(i, j + 1).reverse();
    assert(is_cycle(g, p)) by {
        assert(p.len() == j + 1 - i);
        assert(forall|k: int| 0 <= k < p.len() ==> #[trigger] p[k] == w[j - k]);
        assert(p[0] == w[j]);
        assert(p[p.len() - 1] == w[i]);
        assert forall|k: int| 0 <= k < p.len() - 1 implies edge(g, p[k], #[trigger] p[k + 1]) by {
            assert(p[k] == w[j - k]);
            assert(p[k + 1] == w[j - k - 1]);
            assert(edge(g, w[(j - k - 1) + 1], w[j - k - 1]));
        }
    }
    assert(has_cycle(g));
}

/// Along a path of `g`, positions in a valid topological order strictly
/// increase.
proof fn lemma_path_positions_increase(g: Seq<Seq<usize>>, order: Seq<usize>, p: Seq<usize>, k: int)
    requires
        valid_topo_order(g, order),
        forall|i: int| 0 <= i < p.len() - 1 ==> edge(g, #[trigger] p[i], p[i + 1]),
        p.len() >= 2,
        p[0] == p[p.len() - 1],
        1 <= k < p.len(),
    ensures
        order.index_of(p[0]) < order.index_of(p[k]),
    decreases k,
{
    let prev = if k == 1 {
        order.index_of(p[0])
    } else {
        lemma_path_positions_increase(g, order, p, k - 1);
        order.index_of(p[k - 1])
    };
    assert(edge(g, p[k - 1], p[k]));
    // both endpoints of an edge are vertices of `g`, hence appear in `order`
    assert((p[k - 1] as int) < g.len());
    assert((p[k] as int) < g.len()) by {
        if k < p.len() - 1 {
            assert(edge(g, p[k], p[k + 1]));
        } else {
            assert(p[k] == p[0]);
            assert(edge(g, p[0], p[1]));
        }
    }
    assert(order.contains(p[k - 1]));
    assert(order.contains(p[k]));
    let a = order.index_of(p[k - 1]);
    let b = order.index_of(p[k]);
    assert(0 <= a < order.len() && order[a] == p[k - 1]);
    assert(0 <= b < order.len() && order[b] == p[k]);
    assert(a < b);
}

/// A graph with a cycle admits no valid topological order.
pub proof fn lemma_cycle_excludes_topological_order(g: Seq<Seq<usize>>, order: Seq<usize>)
    requires
        has_cycle(g),
    ensures
        !valid_topo_order(g, order),
{
    if valid_topo_order(g, order) {
        let p = choose|p: Seq<usize>| is_cycle(g, p);
        lemma_path_positions_increase(g, order, p, p.len() - 1);
        assert(order.index_of(p[0]) < order.index_of(p[p.len() - 1]));
        assert(p[0] == p[p.len() - 1]);
    }
}

} // verus!
