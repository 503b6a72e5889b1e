//! Sums over count histograms, and the small facts the simulation engine
//! needs about them.

use vstd::prelude::*;

verus! {

/// The sum of a sequence of counts.
pub open spec fn sum_u64(s: Seq<u64>) -> int
    decreases s.len(),
{
    if s.len() == 0 {
        0
    } else {
        sum_u64(s.drop_last()) + s.last()
    }
}

pub proof fn lemma_sum_u64_nonneg(s: Seq<u64>)
    ensures
        sum_u64(s) >= 0,
    decreases s.len(),
{
    if s.len() > 0 {
        lemma_sum_u64_nonneg(s.drop_last());
    }
}

/// No single count exceeds the sum.
pub proof fn lemma_sum_u64_elem(s: Seq<u64>, i: int)
    requires
        0 <= i < s.len(),
    ensures
        s[i] <= sum_u64(s),
    decreases s.len(),
{
    if i == s.len() - 1 {
        lemma_sum_u64_nonneg(s.drop_last());
    } else {
        lemma_sum_u64_elem(s.drop_last(), i);
    }
}

/// Replacing one count moves the sum by exactly the difference.
pub proof fn lemma_sum_u64_update(s: Seq<u64>, i: int, v: u64)
    requires
        0 <= i < s.len(),
    ensures
        sum_u64(s.update(i, v)) == sum_u64(s) - s[i] + v,
    decreases s.len(),
{
    if i == s.len() - 1 {
        assert(s.update(i, v).drop_last() =~= s.drop_last());
        assert(s.update(i, v).last() == v);
    } else {
        lemma_sum_u64_update(s.drop_last(), i, v);
        assert(s.update(i, v).drop_last() =~= s.drop_last().update(i, v));
        assert(s.update(i, v).last() == s.last());
    }
}

/// The sum of a sequence of outcomes.
pub open spec fn sum_int(s: Seq<int>) -> int
    decreases s.len(),
{
    if s.len() == 0 {
        0
    } else {
        sum_int(s.drop_last()) + s.last()
    }
}

/// The grand total of a stack of histograms: the sum of every row's sum.
pub open spec fn rows_total(rows: Seq<Vec<u64>>) -> int
    decreases rows.len(),
{
    if rows.len() == 0 {
        0
    } else {
        rows_total(rows.drop_last()) + sum_u64(rows.last()@)
    }
}

/// The sum of column `k` over a stack of histograms.
pub open spec fn col_sum(rows: Seq<Vec<u64>>, k: int) -> int
    decreases rows.len(),
{
    if rows.len() == 0 {
        0
    } else {
        col_sum(rows.drop_last(), k) + rows.last()@[k]
    }
}

/// A prefix of the rows never sums a column past the whole stack.
pub proof fn lemma_col_sum_prefix(rows: Seq<Vec<u64>>, k: int, t: int)
    requires
        0 <= t <= rows.len(),
    ensures
        col_sum(rows.subrange(0, t), k) <= col_sum(rows, k),
    decreases rows.len() - t,
{
    if t == rows.len() {
        assert(rows.subrange(0, t) =~= rows);
    } else {
        lemma_col_sum_prefix(rows, k, t + 1);
        assert(rows.subrange(0, t + 1).drop_last() =~= rows.subrange(0, t));
        assert(rows.subrange(0, t + 1).last() == rows[t]);
    }
}

proof fn lemma_col_sum_le_total_prefix(rows: Seq<Vec<u64>>, k: int, t: int)
    requires
        0 <= k,
        forall|u: int| 0 <= u < rows.len() ==> k < (#[trigger] rows[u])@.len(),
        0 <= t <= rows.len(),
    ensures
        col_sum(rows.subrange(0, t), k) <= rows_total(rows.subrange(0, t)),
    decreases t,
{
    if t > 0 {
        lemma_col_sum_le_total_prefix(rows, k, t - 1);
        assert(rows.subrange(0, t).drop_last() =~= rows.subrange(0, t - 1));
        assert(rows.subrange(0, t).last() == rows[t - 1]);
        lemma_sum_u64_elem(rows[t - 1]@, k);
    }
}

/// No column sums past the grand total.
pub proof fn lemma_col_sum_le_total(rows: Seq<Vec<u64>>, k: int)
    requires
        0 <= k,
        forall|t: int| 0 <= t < rows.len() ==> k < (#[trigger] rows[t])@.len(),
    ensures
        col_sum(rows, k) <= rows_total(rows),
{
    lemma_col_sum_le_total_prefix(rows, k, rows.len() as int);
    assert(rows.subrange(0, rows.len() as int) =~= rows);
}

proof fn lemma_rows_total_uniform_prefix(rows: Seq<Vec<u64>>, share: int, t: int)
    requires
        forall|u: int| 0 <= u < rows.len() ==> sum_u64((#[trigger] rows[u])@) == share,
        0 <= t <= rows.len(),
    ensures
        rows_total(rows.subrange(0, t)) == t * share,
    decreases t,
{
    if t == 0 {
        assert(rows.subrange(0, 0) =~= Seq::<Vec<u64>>::empty());
        assert(0 * share == 0);
    } else {
        lemma_rows_total_uniform_prefix(rows, share, t - 1);
        assert(rows.subrange(0, t).drop_last() =~= rows.subrange(0, t - 1));
        assert(rows.subrange(0, t).last() == rows[t - 1]);
        assert(t * share == (t - 1) * share + share) by (nonlinear_arith);
    }
}

/// When every row sums to the same share, the grand total is the number of
/// rows times that share.
pub proof fn lemma_rows_total_uniform(rows: Seq<Vec<u64>>, share: int)
    requires
        forall|t: int| 0 <= t < rows.len() ==> sum_u64((#[trigger] rows[t])@) == share,
    ensures
        rows_total(rows) == rows.len() * share,
{
    lemma_rows_total_uniform_prefix(rows, share, rows.len() as int);
    assert(rows.subrange(0, rows.len() as int) =~= rows);
}

} // verus!
