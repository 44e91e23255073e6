//! A functional description of in-degree elimination with a FIFO work queue.
//! The executable sort is proved to return exactly what these functions
//! compute, which pins the result down to one deterministic order.

use vstd::prelude::*;
use crate::counting::{sum_degs, lemma_sum_degs_update};
use crate::indegree::in_deg;

verus! {

/// The initial in-degrees of all vertices of `g`, as a vector.
pub open spec fn init_degs(g: Seq<Seq<usize>>) -> Seq<usize> {
    Seq::new(g.len(), |v: int| in_deg(g, v as usize, Set::empty()) as usize)
}

/// The vertices below `k` whose in-degree is zero, in ascending order.
pub open spec fn seed(degs: Seq<usize>, k: int) -> Seq<usize>
    decreases k,
{
    if k <= 0 {
        Seq::empty()
    } else if degs[k - 1] == 0 {
        seed(degs, k - 1).push((k - 1) as usize)
    } else {
        seed(degs, k - 1)
    }
}

/// The seed queue holds exactly the vertices below `k` of in-degree zero,
/// each once, in ascending order.
pub proof fn lemma_seed_props(degs: Seq<usize>, k: int)
    requires
        k <= usize::MAX,
    ensures
        seed(degs, k).no_duplicates(),
        forall|i: int|
            0 <= i < seed(degs, k).len() ==> (#[trigger] seed(degs, k)[i] as int) < k,
        forall|i: int|
            0 <= i < seed(degs, k).len() ==> degs[#[trigger] seed(degs, k)[i] as int] == 0,
        forall|v: usize| (v as int) < k && degs[v as int] == 0 ==> seed(degs, k).contains(v),
    decreases k,
{
    if k > 0 {
        lemma_seed_props(degs, k - 1);
        let prev = seed(degs, k - 1);
        if degs[k - 1] == 0 {
            let cur = prev.push((k - 1) as usize);
            assert(forall|i: int| 0 <= i < prev.len() ==> cur[i] == prev[i]);
            assert(cur[cur.len() - 1] == (k - 1) as usize);
            assert(forall|i: int| 0 <= i < prev.len() ==> (#[trigger] prev[i] as int) < k - 1);
            assert(cur.no_duplicates());
            assert forall|v: usize| (v as int) < k && degs[v as int] == 0 implies cur.contains(
                v,
            ) by {
                if (v as int) < k - 1 {
                    assert(prev.contains(v));
                    let i = choose|i: int| 0 <= i < prev.len() && prev[i] == v;
                    assert(cur[i] == v);
                } else {
                    assert(cur[cur.len() - 1] == v);
                }
            }
        } else {
            assert forall|v: usize| (v as int) < k && degs[v as int] == 0 implies seed(
                degs,
                k,
            ).contains(v) by {
                assert((v as int) < k - 1);
            }
        }
    }
}

/// Walk the out-edges `targets` of a vertex that has just been emitted:
/// each target loses one in-degree, and targets reaching zero join the queue.
pub open spec fn relax(targets: Seq<usize>, degs: Seq<usize>, queue: Seq<usize>) -> (
    Seq<usize>,
    Seq<usize>,
)
    decreases targets.len(),
{
    if targets.len() == 0 {
        (degs, queue)
    } else {
        let w = targets[0];
        if (w as int) < degs.len() && degs[w as int] >= 1 {
            let degs2 = degs.update(w as int, (degs[w as int] - 1) as usize);
            let queue2 = if degs2[w as int] == 0 {
                queue.push(w)
            } else {
                queue
            };
            relax(targets.drop_first(), degs2, queue2)
        } else {
            relax(targets.drop_first(), degs, queue)
        }
    }
}

/// Relaxation never increases the sum of in-degrees plus the queue length.
pub proof fn lemma_relax_measure(targets: Seq<usize>, degs: Seq<usize>, queue: Seq<usize>)
    ensures
        sum_degs(relax(targets, degs, queue).0) + relax(targets, degs, queue).1.len()
            <= sum_degs(degs) + queue.len(),
    decreases targets.len(),
{
    if targets.len() > 0 {
        let w = targets[0];
        if (w as int) < degs.len() && degs[w as int] >= 1 {
            let degs2 = degs.update(w as int, (degs[w as int] - 1) as usize);
            let queue2 = if degs2[w as int] == 0 {
                queue.push(w)
            } else {
                queue
            };
            lemma_sum_degs_update(degs, w as int, (degs[w as int] - 1) as usize);
            lemma_relax_measure(targets.drop_first(), degs2, queue2);
        } else {
            lemma_relax_measure(targets.drop_first(), degs, queue);
        }
    }
}

/// Run in-degree elimination to completion: pop the queue head, emit it,
/// relax its out-edges, and continue until the queue is empty.
pub open spec fn kahn_from(
    g: Seq<Seq<usize>>,
    degs: Seq<usize>,
    queue: Seq<usize>,
    acc: Seq<usize>,
) -> Seq<usize>
    decreases sum_degs(degs) + queue.len() via kahn_from_decreases
{
    if queue.len() == 0 {
        acc
    } else {
        let v = queue[0];
        if (v as int) < g.len() {
            let dq = relax(g[v as int], degs, queue.drop_first());
            kahn_from(g, dq.0, dq.1, acc.push(v))
        } else {
            kahn_from(g, degs, queue.drop_first(), acc.push(v))
        }
    }
}

#[via_fn]
proof fn kahn_from_decreases(
    g: Seq<Seq<usize>>,
    degs: Seq<usize>,
    queue: Seq<usize>,
    acc: Seq<usize>,
) {
    if queue.len() > 0 {
        let v = queue[0];
        if (v as int) < g.len() {
            lemma_relax_measure(g[v as int], degs, queue.drop_first());
        }
    }
}

/// The order that in-degree elimination yields on `g`, when it covers every
/// vertex; the shortfall otherwise witnesses a cycle.
pub open spec fn spec_topological_sort(g: Seq<Seq<usize>>) -> Option<Seq<usize>> {
    let degs = init_degs(g);
    let queue = seed(degs, degs.len() as int);
    let run = kahn_from(g, degs, queue, Seq::empty());
    if run.len() == g.len() {
        Some(run)
    } else {
        None
    }
}

} // verus!
