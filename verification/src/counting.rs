//! Occurrence counts in sequences of vertex indices, and sums of degree
//! vectors. These are the measures behind the in-degree bookkeeping of the
//! topological sort.

use vstd::prelude::*;

verus! {

/// Number of occurrences of `v` in `s`.
pub open spec fn occ(s: Seq<usize>, v: usize) -> nat
    decreases s.len(),
{
    if s.len() == 0 {
        0
    } else {
        occ(s.drop_last(), v) + if s.last() == v {
            1nat
        } else {
            0nat
        }
    }
}

/// `v` occurs in `s` exactly when its occurrence count is positive.
pub proof fn lemma_occ_zero_iff_absent(s: Seq<usize>, v: usize)
    ensures
        occ(s, v) == 0 <==> !s.contains(v),
    decreases s.len(),
{
    if s.len() > 0 {
        lemma_occ_zero_iff_absent(s.drop_last(), v);
        if s.contains(v) {
            let i = choose|i: int| 0 <= i < s.len() && s[i] == v;
            if i < s.len() - 1 {
                assert(s.drop_last()[i] == v);
                assert(s.drop_last().contains(v));
            }
        } else {
            assert(forall|i: int| 0 <= i < s.len() - 1 ==> s.drop_last()[i] == s[i]);
            assert(!s.drop_last().contains(v));
        }
    }
}

/// A sequence without duplicates holds each value at most once.
pub proof fn lemma_occ_le_one_of_no_duplicates(s: Seq<usize>, v: usize)
    requires
        s.no_duplicates(),
    ensures
        occ(s, v) <= 1,
    decreases s.len(),
{
    if s.len() > 0 {
        assert(s.drop_last().no_duplicates());
        lemma_occ_le_one_of_no_duplicates(s.drop_last(), v);
        if s.last() == v {
            assert(forall|i: int| 0 <= i < s.len() - 1 ==> #[trigger] s[i] != s[s.len() - 1]);
            assert(!s.drop_last().contains(v));
            lemma_occ_zero_iff_absent(s.drop_last(), v);
        }
    }
}

/// Extending a prefix by one element adds that element's contribution.
pub proof fn lemma_occ_take_succ(s: Seq<usize>, v: usize, j: int)
    requires
        0 <= j < s.len(),
    ensures
        occ(s.take(j + 1), v) == occ(s.take(j), v) + if s[j] == v {
            1nat
        } else {
            0nat
        },
{
    assert(s.take(j + 1).drop_last() =~= s.take(j));
    assert(s.take(j + 1).last() == s[j]);
}

/// A prefix never holds more occurrences than the whole sequence.
pub proof fn lemma_occ_take_le(s: Seq<usize>, v: usize, j: int)
    requires
        0 <= j <= s.len(),
    ensures
        occ(s.take(j), v) <= occ(s, v),
    decreases s.len() - j,
{
    if j == s.len() {
        assert(s.take(j) =~= s);
    } else {
        lemma_occ_take_succ(s, v, j);
        lemma_occ_take_le(s, v, j + 1);
    }
}

/// Sum of all entries of a degree vector.
pub open spec fn sum_degs(degs: Seq<usize>) -> nat
    decreases degs.len(),
{
    if degs.len() == 0 {
        0
    } else {
        sum_degs(degs.drop_last()) + degs.last() as nat
    }
}

/// Updating one entry changes the sum by the difference at that entry.
pub proof fn lemma_sum_degs_update(degs: Seq<usize>, w: int, x: usize)
    requires
        0 <= w < degs.len(),
    ensures
        sum_degs(degs.update(w, x)) + degs[w] == sum_degs(degs) + x,
    decreases degs.len(),
{
    let upd = degs.update(w, x);
    if w == degs.len() - 1 {
        assert(upd.drop_last() =~= degs.drop_last());
        assert(upd.last() == x);
    } else {
        assert(upd.drop_last() =~= degs.drop_last().update(w, x));
        assert(upd.last() == degs.last());
        lemma_sum_degs_update(degs.drop_last(), w, x);
    }
}

} // verus!
