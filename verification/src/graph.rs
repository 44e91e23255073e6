//! A directed graph over dense vertex indices, with edge insertion and a
//! deterministic topological sort by in-degree elimination over a FIFO
//! queue. The sort returns `Some` of a valid topological order exactly when
//! the graph is acyclic, and its result is pinned to the functional
//! description in `kahn`.

use vstd::prelude::*;
use std::collections::VecDeque;
use crate::counting::{
    occ,
    sum_degs,
    lemma_occ_zero_iff_absent,
    lemma_occ_take_succ,
    lemma_occ_take_le,
    lemma_sum_degs_update,
};
use crate::indegree::{
    in_deg,
    in_deg_upto,
    rows_no_duplicates,
    lemma_in_deg_upto_bound,
    lemma_in_deg_upto_insert,
    lemma_in_deg_upto_source_bound,
    lemma_in_deg_upto_pos,
};
use crate::kahn::{init_degs, seed, relax, kahn_from, spec_topological_sort, lemma_seed_props};
use crate::order::{
    edge,
    valid_topo_order,
    has_cycle,
    lemma_cycle_excludes_topological_order,
    has_pred_in,
    below,
    lemma_below_finite,
    lemma_distinct_bounded_len,
    lemma_distinct_bounded_covers,
    lemma_pred_closed_has_cycle,
    lemma_push_to_set,
};
use vstd::set_lib::lemma_len_subset;
use vstd::slice::slice_index_get;

verus! {

/// Every edge target is a valid vertex index, and no adjacency row repeats
/// a target.
pub open spec fn wf_graph(g: Seq<Seq<usize>>) -> bool {
    &&& rows_no_duplicates(g)
    &&& forall|u: int, j: int|
        0 <= u < g.len() && 0 <= j < g[u].len() ==> (#[trigger] g[u][j] as int) < g.len()
}

/// Appending targets to an adjacency row, skipping those already present.
pub open spec fn append_dedup(cur: Seq<usize>, targets: Seq<usize>) -> Seq<usize>
    decreases targets.len(),
{
    if targets.len() == 0 {
        cur
    } else {
        let prev = append_dedup(cur, targets.drop_last());
        if prev.contains(targets.last()) {
            prev
        } else {
            prev.push(targets.last())
        }
    }
}

/// Membership in a sequence steps through its last element.
proof fn lemma_contains_drop_last(s: Seq<usize>, v: usize)
    requires
        s.len() > 0,
    ensures
        s.contains(v) <==> s.drop_last().contains(v) || s.last() == v,
{
    if s.contains(v) {
        let i = choose|i: int| 0 <= i < s.len() && s[i] == v;
        if i < s.len() - 1 {
            assert(s.drop_last()[i] == v);
        }
    }
    if s.drop_last().contains(v) {
        let i = choose|i: int| 0 <= i < s.drop_last().len() && s.drop_last()[i] == v;
        assert(s[i] == v);
    }
    if s.last() == v {
        assert(s[s.len() - 1] == v);
    }
}

/// The deduplicating append holds a vertex exactly when one of its inputs
/// does.
pub proof fn lemma_append_dedup_contains(cur: Seq<usize>, targets: Seq<usize>, v: usize)
    ensures
        append_dedup(cur, targets).contains(v) <==> cur.contains(v) || targets.contains(v),
    decreases targets.len(),
{
    if targets.len() > 0 {
        lemma_append_dedup_contains(cur, targets.drop_last(), v);
        lemma_contains_drop_last(targets, v);
        let prev = append_dedup(cur, targets.drop_last());
        if !prev.contains(targets.last()) {
            lemma_contains_drop_last(prev.push(targets.last()), v);
            assert(prev.push(targets.last()).drop_last() =~= prev);
        }
    }
}

/// The deduplicating append keeps a duplicate-free row duplicate-free.
pub proof fn lemma_append_dedup_no_duplicates(cur: Seq<usize>, targets: Seq<usize>)
    requires
        cur.no_duplicates(),
    ensures
        append_dedup(cur, targets).no_duplicates(),
    decreases targets.len(),
{
    if targets.len() > 0 {
        lemma_append_dedup_no_duplicates(cur, targets.drop_last());
        let prev = append_dedup(cur, targets.drop_last());
        let t = targets.last();
        if !prev.contains(t) {
            let pushed = prev.push(t);
            assert(forall|i: int| 0 <= i < prev.len() ==> pushed[i] == prev[i]);
            assert(pushed[pushed.len() - 1] == t);
            assert(pushed.no_duplicates());
        }
    }
}

/// A directed graph over vertices `0..n`, stored as adjacency lists.
#[derive(Debug)]
pub struct DirectedGraph {
    pub adjacency_list: Vec<Vec<usize>>,
}

impl View for DirectedGraph {
    type V = Seq<Seq<usize>>;

    open spec fn view(&self) -> Seq<Seq<usize>> {
        self.adjacency_list@.map_values(|row: Vec<usize>| row@)
    }
}

/// Is `v` an element of `row`?
fn contains_vertex(row: &Vec<usize>, v: usize) -> (found: bool)
    ensures
        found == row@.contains(v),
{
    let mut j: usize = 0;
    while j < row.len()
        invariant
            j <= row@.len(),
            forall|i: int| 0 <= i < j ==> row@[i] != v,
        decreases row@.len() - j,
    {
        if row[j] == v {
            return true;
        }
        j += 1;
    }
    false
}

impl DirectedGraph {
    /// The representation invariant: all edges stay inside the graph, and
    /// rows are duplicate-free.
    pub open spec fn inv(&self) -> bool {
        wf_graph(self@)
    }

    /// An empty graph over `vertices` vertices.
    pub fn new(vertices: usize) -> (graph: DirectedGraph)
        ensures
            graph.inv(),
            graph@.len() == vertices,
            forall|u: int| 0 <= u < vertices ==> (#[trigger] graph@[u]).len() == 0,
    {
        let mut adjacency_list: Vec<Vec<usize>> = Vec::with_capacity(vertices);
        while adjacency_list.len() < vertices
            invariant
                adjacency_list@.len() <= vertices,
                forall|u: int| 0 <= u < adjacency_list@.len() ==> (#[trigger] adjacency_list@[u])@
                    =~= Seq::<usize>::empty(),
            decreases vertices - adjacency_list@.len(),
        {
            adjacency_list.push(Vec::new());
        }
        DirectedGraph { adjacency_list }
    }

    /// Append `outgoing_edges` to the adjacency row of `from`, dropping
    /// targets the row already holds. Duplicate edges carry no information
    /// for the ordering, so the row stays duplicate-free.
    #[verifier::loop_isolation(false)]
    pub fn add_edges(&mut self, from: usize, outgoing_edges: &[usize])
        requires
            old(self).inv(),
            (from as int) < old(self)@.len(),
            forall|j: int|
                0 <= j < outgoing_edges@.len() ==> (#[trigger] outgoing_edges@[j] as int) < old(
                    self,
                )@.len(),
        ensures
            final(self).inv(),
            final(self)@.len() == old(self)@.len(),
            forall|u: int|
                0 <= u < final(self)@.len() && u != from ==> final(self)@[u] == old(self)@[u],
            final(self)@[from as int] == append_dedup(
                old(self)@[from as int],
                outgoing_edges@,
            ),
    {
        let ghost old_row = self@[from as int];
        let mut row: Vec<usize> = Vec::new();
        let mut i: usize = 0;
        while i < self.adjacency_list[from].len()
            invariant
                *self == *old(self),
                i <= old_row.len(),
                row@ =~= old_row.take(i as int),
            decreases self.adjacency_list@[from as int]@.len() - i,
        {
            row.push(self.adjacency_list[from][i]);
            proof {
                assert(old_row.take(i + 1).drop_last() =~= old_row.take(i as int));
                assert(row@ =~= old_row.take(i + 1));
            }
            i += 1;
        }
        assert(row@ =~= old_row);

        let mut j: usize = 0;
        while j < outgoing_edges.len()
            invariant
                *self == *old(self),
                j <= outgoing_edges@.len(),
                row@ == append_dedup(old_row, outgoing_edges@.take(j as int)),
                row@.no_duplicates(),
            decreases outgoing_edges@.len() - j,
        {
            let t = *slice_index_get(outgoing_edges, j);
            proof {
                assert(outgoing_edges@.take(j + 1).drop_last() =~= outgoing_edges@.take(j as int));
                assert(outgoing_edges@.take(j + 1).last() == outgoing_edges@[j as int]);
            }
            if !contains_vertex(&row, t) {
                row.push(t);
            }
            j += 1;
        }
        assert(outgoing_edges@.take(outgoing_edges@.len() as int) =~= outgoing_edges@);
        assert(row@ == append_dedup(old_row, outgoing_edges@));

        self.adjacency_list[from] = row;
        proof {
            assert(self@ =~= old(self)@.update(from as int, append_dedup(old_row, outgoing_edges@)));
            assert(self.inv()) by {
                lemma_append_dedup_no_duplicates(old_row, outgoing_edges@);
                assert forall|u: int, j2: int|
                    0 <= u < self@.len() && 0 <= j2 < self@[u].len() implies (#[trigger] self@[u][j2] as int) < self@.len() by {
                    if u == from {
                        let v = self@[u][j2];
                        assert(self@[from as int].contains(v));
                        lemma_append_dedup_contains(old_row, outgoing_edges@, v);
                    }
                }
            }
        }
    }

    /// Kahn's algorithm. `Some(order)` is returned exactly when `order`
    /// covers every vertex while following all edges forward, which happens
    /// exactly when the graph is acyclic; a `None` answer always comes with
    /// a cycle. The order itself equals the one functional result of
    /// `spec_topological_sort`, so equal graphs always sort equally.
    #[verifier::loop_isolation(false)]
    #[verifier::rlimit(60)]
    pub fn topological_sort(&self) -> (r: Option<Vec<usize>>)
        requires
            self.inv(),
        ensures
            match r {
                Some(order) => {
                    &&& valid_topo_order(self@, order@)
                    &&& spec_topological_sort(self@) == Some(order@)
                },
                None => {
                    &&& has_cycle(self@)
                    &&& spec_topological_sort(self@) is None
                },
            },
            (r is None) <==> has_cycle(self@),
    {
        let ghost g = self@;
        let n = self.adjacency_list.len();

        // Count the in-degree of every vertex by one scan over all rows.
        let mut in_degrees: Vec<usize> = Vec::with_capacity(n);
        while in_degrees.len() < n
            invariant
                in_degrees@.len() <= n,
                forall|v: int| 0 <= v < in_degrees@.len() ==> in_degrees@[v] == 0,
            decreases n - in_degrees@.len(),
        {
            in_degrees.push(0);
        }
        proof {
            assert forall|v: usize| (v as int) < n implies in_degrees@[v as int] == in_deg_upto(
                g,
                v,
                Set::empty(),
                0,
            ) by {}
        }
        let mut u: usize = 0;
        while u < n
            invariant
                u <= n,
                in_degrees@.len() == n,
                forall|v: usize| (v as int) < n ==> in_degrees@[v as int] == in_deg_upto(
                    g,
                    v,
                    Set::empty(),
                    u as int,
                ),
            decreases n - u,
        {
            let row_len = self.adjacency_list[u].len();
            let mut j: usize = 0;
            while j < row_len
                invariant
                    u < n,
                    j <= row_len,
                    row_len == g[u as int].len(),
                    in_degrees@.len() == n,
                    forall|v: usize| (v as int) < n ==> in_degrees@[v as int] == in_deg_upto(
                        g,
                        v,
                        Set::empty(),
                        u as int,
                    ) + occ(g[u as int].take(j as int), v),
                decreases row_len - j,
            {
                let w = self.adjacency_list[u][j];
                assert((w as int) < n);
                proof {
                    lemma_in_deg_upto_bound(g, w, Set::empty(), u as int);
                    assert(!g[u as int].take(j as int).contains(w)) by {
                        if g[u as int].take(j as int).contains(w) {
                            let i = choose|i: int|
                                0 <= i < j && g[u as int].take(j as int)[i] == w;
                            assert(g[u as int][i] == w);
                            assert(g[u as int][j as int] == w);
                        }
                    }
                    lemma_occ_zero_iff_absent(g[u as int].take(j as int), w);
                }
                let d = in_degrees[w];
                assert(d < n);
                in_degrees[w] = d + 1;
                proof {
                    assert forall|v: usize| (v as int) < n implies in_degrees@[v as int]
                        == in_deg_upto(g, v, Set::empty(), u as int) + occ(
                        g[u as int].take(j + 1),
                        v,
                    ) by {
                        lemma_occ_take_succ(g[u as int], v, j as int);
                    }
                }
                j += 1;
            }
            proof {
                assert(g[u as int].take(row_len as int) =~= g[u as int]);
                assert forall|v: usize| (v as int) < n implies in_degrees@[v as int]
                    == in_deg_upto(g, v, Set::empty(), u + 1) by {
                    assert(in_deg_upto(g, v, Set::empty(), u + 1) == in_deg_upto(
                        g,
                        v,
                        Set::empty(),
                        u as int,
                    ) + occ(g[u as int], v));
                }
            }
            u += 1;
        }
        let ghost degs0 = in_degrees@;
        proof {
            assert(degs0 =~= init_degs(g)) by {
                assert forall|v: int| 0 <= v < n implies degs0[v] == init_degs(g)[v] by {
                    lemma_in_deg_upto_bound(g, v as usize, Set::empty(), n as int);
                }
            }
        }

        // Seed the FIFO queue with the vertices of in-degree zero, in
        // ascending order.
        let mut queue: VecDeque<usize> = VecDeque::with_capacity(n);
        let mut vertex: usize = 0;
        while vertex < n
            invariant
                vertex <= n,
                in_degrees@ == degs0,
                queue@ == seed(degs0, vertex as int),
            decreases n - vertex,
        {
            if in_degrees[vertex] == 0 {
                queue.push_back(vertex);
            }
            vertex += 1;
        }
        let ghost q0 = queue@;
        let ghost target = kahn_from(g, degs0, q0, Seq::<usize>::empty());
        proof {
            lemma_seed_props(degs0, n as int);
            assert(Seq::<usize>::empty().to_set() =~= Set::<usize>::empty());
        }

        // Pop, emit, and relax until the queue runs dry.
        let mut result: Vec<usize> = Vec::with_capacity(n);
        proof {
            assert forall|v: usize| (v as int) < n && in_degrees@[v as int] == 0 implies result@
                .contains(v) || queue@.contains(v) by {
                assert(seed(degs0, n as int).contains(v));
            }
        }
        while queue.len() > 0
            invariant
                in_degrees@.len() == n,
                result@.no_duplicates(),
                forall|i: int| 0 <= i < result@.len() ==> (#[trigger] result@[i] as int) < n,
                queue@.no_duplicates(),
                forall|i: int| 0 <= i < queue@.len() ==> (#[trigger] queue@[i] as int) < n,
                forall|i: int| 0 <= i < queue@.len() ==> !result@.contains(#[trigger] queue@[i]),
                forall|i: int|
                    0 <= i < queue@.len() ==> in_degrees@[#[trigger] queue@[i] as int] == 0,
                forall|i: int|
                    0 <= i < result@.len() ==> in_degrees@[#[trigger] result@[i] as int] == 0,
                forall|v: usize| (v as int) < n ==> in_degrees@[v as int] == in_deg(
                    g,
                    v,
                    result@.to_set(),
                ),
                forall|v: usize|
                    (v as int) < n && in_degrees@[v as int] == 0 ==> result@.contains(v)
                        || queue@.contains(v),
                forall|j: int, u2: usize|
                    0 <= j < result@.len() && #[trigger] edge(g, u2, result@[j]) ==> exists|i: int|
                        0 <= i < j && result@[i] == u2,
                kahn_from(g, in_degrees@, queue@, result@) == target,
            decreases sum_degs(in_degrees@) + queue@.len(),
        {
            let ghost queue_pre = queue@;
            let ghost result_pre = result@;
            let vertex = queue.pop_front().unwrap();
            let ghost done = result@.to_set();
            result.push(vertex);
            proof {
                assert(queue@ =~= queue_pre.drop_first());
                assert(forall|i: int| 0 <= i < queue@.len() ==> queue@[i] == queue_pre[i + 1]);
                assert(result@.drop_last() =~= result_pre);
                // the new entry's predecessors are all settled already
                assert(in_degrees@[vertex as int] == 0);
                assert(!done.contains(vertex));
                assert forall|u2: usize| #[trigger] edge(g, u2, vertex) implies
                    result_pre.contains(u2) by {
                    lemma_occ_zero_iff_absent(g[u2 as int], vertex);
                    if !done.contains(u2) {
                        lemma_in_deg_upto_source_bound(g, vertex, done, u2, n as int);
                    }
                }
                assert forall|j: int, u2: usize|
                    0 <= j < result@.len() && #[trigger] edge(g, u2, result@[j]) implies exists|
                    i: int,
                |
                    0 <= i < j && result@[i] == u2 by {
                    if j < result@.len() - 1 {
                        assert(result@[j] == result_pre[j]);
                        assert(edge(g, u2, result_pre[j]));
                        let i = choose|i: int| 0 <= i < j && result_pre[i] == u2;
                        assert(result@[i] == u2);
                    } else {
                        assert(result@[j] == vertex);
                        assert(result_pre.contains(u2));
                        let i = choose|i: int| 0 <= i < result_pre.len() && result_pre[i] == u2;
                        assert(result@[i] == u2);
                    }
                }
                // vertex joins the emitted set without disturbing the counts
                assert(forall|i: int|
                    0 <= i < result_pre.len() ==> #[trigger] result@[i] == result_pre[i]);
                assert(result@[result@.len() - 1] == vertex);
                assert forall|v: usize|
                    (v as int) < n && in_degrees@[v as int] == 0 implies result@.contains(v)
                        || queue@.contains(v) by {
                    assert(result_pre.contains(v) || queue_pre.contains(v));
                    if result_pre.contains(v) {
                        let i = choose|i: int| 0 <= i < result_pre.len() && result_pre[i] == v;
                        assert(result@[i] == v);
                    } else {
                        let i = choose|i: int| 0 <= i < queue_pre.len() && queue_pre[i] == v;
                        if i == 0 {
                            assert(result@[result@.len() - 1] == v);
                        } else {
                            assert(queue@[i - 1] == v);
                        }
                    }
                }
            }
            let ghost degs_at = in_degrees@;
            let ghost queue_at = queue@;
            let ghost row = g[vertex as int];
            proof {
                // one unfolding of the functional description
                assert(queue_pre[0] == vertex);
                assert(queue_pre.len() > 0);
                assert(kahn_from(g, degs_at, queue_pre, result_pre) == kahn_from(
                    g,
                    relax(row, degs_at, queue_pre.drop_first()).0,
                    relax(row, degs_at, queue_pre.drop_first()).1,
                    result_pre.push(vertex),
                ));
                assert(row.skip(0) =~= row);
            }
            let row_len = self.adjacency_list[vertex].len();
            let mut j: usize = 0;
            while j < row_len
                invariant
                    j <= row_len,
                    row_len == row.len(),
                    in_degrees@.len() == n,
                    forall|v: usize| (v as int) < n ==> in_deg(g, v, done) == in_degrees@[v as int] + occ(row.take(j as int), v),
                    queue@.no_duplicates(),
                    forall|i: int| 0 <= i < queue@.len() ==> (#[trigger] queue@[i] as int) < n,
                    forall|i: int|
                        0 <= i < queue@.len() ==> !result@.contains(#[trigger] queue@[i]),
                    forall|i: int|
                        0 <= i < queue@.len() ==> in_degrees@[#[trigger] queue@[i] as int] == 0,
                    forall|i: int|
                        0 <= i < result@.len() ==> in_degrees@[#[trigger] result@[i] as int] == 0,
                    forall|v: usize|
                        (v as int) < n && in_degrees@[v as int] == 0 ==> result@.contains(v)
                            || queue@.contains(v),
                    relax(row.skip(j as int), in_degrees@, queue@) == relax(
                        row,
                        degs_at,
                        queue_at,
                    ),
                    sum_degs(in_degrees@) + queue@.len() <= sum_degs(degs_at) + queue_at.len(),
                decreases row_len - j,
            {
                let w = self.adjacency_list[vertex][j];
                assert((w as int) < n);
                proof {
                    assert(in_deg(g, w, done) == in_degrees@[w as int] + occ(
                        row.take(j as int),
                        w,
                    ));
                    lemma_in_deg_upto_source_bound(g, w, done, vertex, n as int);
                    assert(in_deg(g, w, done) >= occ(row, w));
                    lemma_occ_take_succ(row, w, j as int);
                    assert(row[j as int] == w);
                    lemma_occ_take_le(row, w, j + 1);
                    assert(in_degrees@[w as int] >= 1);
                }
                let d = in_degrees[w];
                let ghost degs_before = in_degrees@;
                let ghost queue_before = queue@;
                let ghost result_cur = result@;
                in_degrees[w] = d - 1;
                if d - 1 == 0 {
                    queue.push_back(w);
                }
                proof {
                    assert(row.skip(j as int)[0] == row[j as int]);
                    assert(row.skip(j as int).drop_first() =~= row.skip(j + 1));
                    assert forall|v: usize| (v as int) < n implies in_deg(g, v, done)
                        == in_degrees@[v as int] + occ(row.take(j + 1), v) by {
                        lemma_occ_take_succ(row, v, j as int);
                    }
                    lemma_sum_degs_update(degs_before, w as int, (d - 1) as usize);
                    assert forall|v: usize|
                        (v as int) < n && in_degrees@[v as int] == 0 implies result@.contains(v)
                            || queue@.contains(v) by {
                        if v == w {
                            assert(queue@[queue@.len() - 1] == w);
                        } else {
                            assert(degs_before[v as int] == 0);
                            assert(result_cur.contains(v) || queue_before.contains(v));
                            if queue_before.contains(v) {
                                let i = choose|i: int|
                                    0 <= i < queue_before.len() && queue_before[i] == v;
                                assert(queue@[i] == v);
                            }
                        }
                    }
                }
                j += 1;
            }
            proof {
                assert(row.skip(row_len as int) =~= Seq::<usize>::empty());
                assert(row.take(row_len as int) =~= row);
                assert((in_degrees@, queue@) == relax(row, degs_at, queue_at));
                assert(kahn_from(g, in_degrees@, queue@, result@) == target);
                // the emitted set has grown by exactly `vertex`
                lemma_push_to_set(result_pre, vertex);
                assert(result@.to_set() =~= done.insert(vertex));
                assert forall|v: usize| (v as int) < n implies in_degrees@[v as int] == in_deg(
                    g,
                    v,
                    result@.to_set(),
                ) by {
                    assert(in_deg(g, v, done) == in_degrees@[v as int] + occ(
                        row.take(row_len as int),
                        v,
                    ));
                    assert(occ(row.take(row_len as int), v) == occ(row, v));
                    lemma_in_deg_upto_insert(g, v, done, vertex, n as int);
                    assert(in_deg(g, v, done.insert(vertex)) + occ(row, v) == in_deg(g, v, done));
                    assert(result@.to_set() == done.insert(vertex));
                }
            }
        }

        // The queue is dry. Either every vertex was emitted, or the leftover
        // vertices all keep a predecessor among themselves, which yields a
        // cycle.
        proof {
            assert(kahn_from(g, in_degrees@, queue@, result@) == result@);
            assert(target == result@);
            assert(q0 == seed(init_degs(g), init_degs(g).len() as int));
            lemma_distinct_bounded_len(result@, n);
        }
        if result.len() == n {
            proof {
                assert forall|v: usize| (v as int) < g.len() implies result@.contains(v) by {
                    lemma_distinct_bounded_covers(result@, n, v);
                }
                assert forall|i: int, j: int|
                    0 <= i < result@.len() && 0 <= j < result@.len() && edge(
                        g,
                        result@[i],
                        result@[j],
                    ) implies i < j by {
                    let u2 = result@[i];
                    assert(edge(g, u2, result@[j]));
                    let i2 = choose|i2: int| 0 <= i2 < j && result@[i2] == u2;
                    assert(i2 == i);
                }
                assert(valid_topo_order(g, result@));
                if has_cycle(g) {
                    lemma_cycle_excludes_topological_order(g, result@);
                }
            }
            Some(result)
        } else {
            proof {
                let covered = result@.to_set();
                let leftover = below(n).difference(covered);
                broadcast use vstd::set::group_set_axioms, vstd::seq_lib::seq_to_set_is_finite;

                lemma_below_finite(n);
                result@.unique_seq_to_set();
                assert(leftover.finite());
                // some vertex was never emitted
                assert(leftover.len() > 0) by {
                    if below(n).subset_of(covered) {
                        lemma_len_subset(below(n), covered);
                    }
                    let v = choose|v: usize| below(n).contains(v) && !covered.contains(v);
                    assert(leftover.contains(v));
                    if leftover.len() == 0 {
                        assert(leftover =~= Set::<usize>::empty());
                    }
                }
                assert forall|v: usize| #[trigger] leftover.contains(v) implies has_pred_in(
                    g,
                    leftover,
                    v,
                ) by {
                    assert((v as int) < n && !result@.contains(v));
                    assert(in_degrees@[v as int] >= 1);
                    assert(in_deg(g, v, covered) >= 1);
                    lemma_in_deg_upto_pos(g, v, covered, n as int);
                    let u2 = choose|u2: usize|
                        (u2 as int) < n && !covered.contains(u2) && occ(
                            #[trigger] g[u2 as int],
                            v,
                        ) > 0;
                    lemma_occ_zero_iff_absent(g[u2 as int], v);
                    assert(leftover.contains(u2) && edge(g, u2, v));
                }
                lemma_pred_closed_has_cycle(g, leftover);
            }
            None
        }
    }
}

} // verus!
