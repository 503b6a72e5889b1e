//! The Monte Carlo simulation engine.
//!
//! `run_sim` samples an expression a given number of times and counts each
//! outcome in a histogram whose length is the expression's outcome bound
//! (clamped to one slot). Every sampled outcome provably lands inside the
//! histogram, and the counts always sum to exactly the number of trials, so
//! dividing by that total yields a probability mass function.
//!
//! `run_sim_parallel` splits the trials evenly over the worker threads of a
//! freshly built pool (dropping the remainder of the division), runs
//! `run_sim` independently on every worker, and sums the per-worker
//! histograms elementwise; the combined counts sum to the number of threads
//! times each worker's share. A pool that cannot be built yields the empty
//! histogram rather than an error.

use vstd::prelude::*;
use vstd::pervasive::VecAdditionalExecFns;
use vstd::arithmetic::div_mod::{lemma_fundamental_div_mod, lemma_mod_division_less_than_divisor};
use crate::decision::Decision;
use crate::dice::sum_sides;
use crate::parse::{parse_dice, spec_parse};
use crate::rollable::{max1, Rollable};
use crate::sums::{col_sum, lemma_col_sum_le_total, lemma_col_sum_prefix, lemma_rows_total_uniform, lemma_sum_u64_elem, lemma_sum_u64_update, rows_total, sum_u64};

verus! {

/// A histogram of the given length with every count zero.
fn zero_hist(len: usize) -> (h: Vec<u64>)
    ensures
        h@.len() == len,
        sum_u64(h@) == 0,
        forall|k: int| 0 <= k < len ==> #[trigger] h@[k] == 0,
{
    let mut h: Vec<u64> = Vec::new();
    while h.len() < len
        invariant
            h@.len() <= len,
            sum_u64(h@) == 0,
            forall|k: int| 0 <= k < h@.len() ==> #[trigger] h@[k] == 0,
        decreases len - h@.len(),
    {
        let ghost before = h@;
        h.push(0);
        proof {
            assert(h@.drop_last() =~= before);
        }
    }
    h
}

/// Samples the expression `iters` times and counts every outcome. The
/// histogram has one slot per possible outcome (at least one), and its
/// counts sum to exactly `iters`.
pub fn run_sim<R: Rollable>(dice: &R, iters: i32) -> (hist: Vec<u64>)
    requires
        dice.wf(),
        iters >= 0,
    ensures
        hist@.len() == max1(dice.max_spec()),
        sum_u64(hist@) == iters,
        forall|k: int| 0 <= k < hist@.len() ==> #[trigger] hist@[k] <= iters,
{
    let max = dice.max();
    let bound = if max == 0 {
        1
    } else {
        max
    };
    let mut hist = zero_hist(bound);
    let mut t: i32 = 0;
    while t < iters
        invariant
            dice.wf(),
            0 <= t <= iters,
            hist@.len() == max1(dice.max_spec()),
            sum_u64(hist@) == t,
        decreases iters - t,
    {
        let roll = dice.roll(false);
        let ghost before = hist@;
        proof {
            lemma_sum_u64_elem(before, roll as int);
        }
        let cur = hist[roll];
        hist.set(roll, cur + 1);
        proof {
            lemma_sum_u64_update(before, roll as int, (cur + 1) as u64);
        }
        t = t + 1;
    }
    proof {
        assert forall|k: int| 0 <= k < hist@.len() implies #[trigger] hist@[k] <= iters by {
            lemma_sum_u64_elem(hist@, k);
        }
    }
    hist
}

/// Relies on `rayon::current_num_threads`: the number of worker threads of
/// the surrounding thread pool (the global pool outside of one); a pool
/// always has at least one worker.
#[verifier::external_body]
fn current_num_threads() -> (n: usize)
    ensures
        1 <= n,
{
    rayon::current_num_threads()
}

/// Relies on `rayon::ThreadPoolBuilder` (`num_threads`, `build`) and
/// `rayon::ThreadPool::broadcast`: a pool built with `num_threads(w)` for a
/// positive `w` has exactly `w` worker threads, and `broadcast` runs the
/// closure once on every worker and returns the per-worker results. Rayon
/// soft-limits a pool to an internal cap (255 threads on 32-bit targets,
/// 65535 on 64-bit), so only `w` below both caps is admitted here. The
/// closure only calls the verified `run_sim`, whose contract gives the
/// length and sum of each per-worker histogram. A pool that cannot be
/// built maps to `None`.
#[verifier::external_body]
fn broadcast_run_sim<R: Rollable + Sync>(dice: &R, w: usize, per: i32) -> (r: Option<
    Vec<Vec<u64>>,
>)
    requires
        dice.wf(),
        per >= 0,
        1 <= w <= 0xff,
    ensures
        r matches Some(rs) ==> {
            &&& rs@.len() == w
            &&& forall|t: int|
                0 <= t < rs@.len() ==> (#[trigger] rs@[t])@.len() == max1(dice.max_spec())
            &&& forall|t: int| 0 <= t < rs@.len() ==> sum_u64((#[trigger] rs@[t])@) == per
        },
{
    let pool = match rayon::ThreadPoolBuilder::new().num_threads(w).build() {
        Ok(pool) => pool,
        Err(_) => {
            return None;
        },
    };
    Some(pool.broadcast(|_| run_sim(dice, per)))
}

/// The engine's reduction policy, named and verified: per-worker count
/// histograms of one common length are combined by elementwise summation,
/// with no renormalization. Every output slot is exactly the column sum of
/// the input rows, and the output total is the grand total of the rows.
pub fn combine_histograms(rows: &Vec<Vec<u64>>) -> (r: Vec<u64>)
    requires
        rows@.len() >= 1,
        forall|t: int| 0 <= t < rows@.len() ==> (#[trigger] rows@[t])@.len() == rows@[0]@.len(),
        rows_total(rows@) <= u64::MAX,
    ensures
        r@.len() == rows@[0]@.len(),
        forall|k: int| 0 <= k < r@.len() ==> #[trigger] r@[k] == col_sum(rows@, k),
        sum_u64(r@) == rows_total(rows@),
{
    let ghost rs = rows@;
    let len = rows[0].len();
    let mut combined = zero_hist(len);
    let mut t: usize = 0;
    proof {
        assert(rs.subrange(0, 0) =~= Seq::<Vec<u64>>::empty());
    }
    while t < rows.len()
        invariant
            rows@ == rs,
            1 <= rs.len(),
            forall|u: int| 0 <= u < rs.len() ==> (#[trigger] rs[u])@.len() == len,
            rows_total(rs) <= u64::MAX,
            0 <= t <= rs.len(),
            combined@.len() == len,
            forall|k: int|
                0 <= k < len ==> #[trigger] combined@[k] == col_sum(rs.subrange(0, t as int), k),
            sum_u64(combined@) == rows_total(rs.subrange(0, t as int)),
        decreases rs.len() - t,
    {
        let row = &rows[t];
        let mut j: usize = 0;
        proof {
            assert(row@.subrange(0, 0) =~= Seq::<u64>::empty());
        }
        while j < row.len()
            invariant
                rows@ == rs,
                0 <= t < rs.len(),
                row@ == rs[t as int]@,
                forall|u: int| 0 <= u < rs.len() ==> (#[trigger] rs[u])@.len() == len,
                rows_total(rs) <= u64::MAX,
                row@.len() == len,
                0 <= j <= len,
                combined@.len() == len,
                forall|k: int|
                    0 <= k < j ==> #[trigger] combined@[k] == col_sum(
                        rs.subrange(0, t as int + 1),
                        k,
                    ),
                forall|k: int|
                    j <= k < len ==> #[trigger] combined@[k] == col_sum(
                        rs.subrange(0, t as int),
                        k,
                    ),
                sum_u64(combined@) == rows_total(rs.subrange(0, t as int)) + sum_u64(
                    row@.subrange(0, j as int),
                ),
            decreases row@.len() - j,
        {
            let ghost before = combined@;
            proof {
                assert(rs.subrange(0, t as int + 1).drop_last() =~= rs.subrange(0, t as int));
                assert(rs.subrange(0, t as int + 1).last() == rs[t as int]);
                lemma_col_sum_prefix(rs, j as int, t as int + 1);
                lemma_col_sum_le_total(rs, j as int);
                assert(row@.subrange(0, j as int + 1).drop_last() =~= row@.subrange(0, j as int));
                assert(row@.subrange(0, j as int + 1).last() == row@[j as int]);
            }
            let add = row[j];
            let cur = combined[j];
            combined.set(j, cur + add);
            proof {
                lemma_sum_u64_update(before, j as int, (cur + add) as u64);
            }
            j = j + 1;
        }
        proof {
            assert(row@.subrange(0, row@.len() as int) =~= row@);
            assert(rs.subrange(0, t as int + 1).drop_last() =~= rs.subrange(0, t as int));
            assert(rs.subrange(0, t as int + 1).last() == rs[t as int]);
        }
        t = t + 1;
    }
    proof {
        assert(rs.subrange(0, rs.len() as int) =~= rs);
    }
    combined
}

/// Splits the trials evenly across the worker threads, simulates each share
/// independently, and merges the per-worker histograms with
/// [`combine_histograms`]: the combined counts sum to `w * (iters / w)` for
/// the worker count `w`, so the remainder of the division is dropped and
/// nothing is renormalized. Returns the empty histogram when the worker
/// pool cannot be built.
pub fn run_sim_parallel<R: Rollable + Sync>(dice: &R, iters: i32) -> (hist: Vec<u64>)
    requires
        dice.wf(),
        iters >= 0,
    ensures
        hist@.len() == max1(dice.max_spec()) || hist@.len() == 0,
        sum_u64(hist@) <= iters,
        hist@.len() != 0 ==> exists|w: int|
            1 <= w && sum_u64(hist@) == #[trigger] (w * ((iters as int) / w)),
{
    let num_threads = current_num_threads();
    let w: usize = if num_threads > 0xff {
        0xff
    } else {
        num_threads
    };
    let per: i32 = iters / (w as i32);
    proof {
        lemma_fundamental_div_mod(iters as int, w as int);
        lemma_mod_division_less_than_divisor(iters as int, w as int);
    }
    match broadcast_run_sim(dice, w, per) {
        None => Vec::new(),
        Some(results) => {
            proof {
                lemma_rows_total_uniform(results@, per as int);
            }
            let combined = combine_histograms(&results);
            proof {
                assert(sum_u64(combined@) == (w as int) * ((iters as int) / (w as int)));
            }
            combined
        },
    }
}

/// Simulates one decision sequentially (see [`run_sim`]).
pub fn run_sim_decision(decision: Decision, iters: i32) -> (hist: Vec<u64>)
    requires
        decision.wf(),
        iters >= 0,
    ensures
        hist@.len() == max1(decision.max_spec()),
        sum_u64(hist@) == iters,
{
    run_sim(&decision, iters)
}

/// Parses free text and simulates the resulting dice set sequentially.
/// When the parsed set's outcome bound does not fit the machine word, the
/// histogram cannot be allocated and the result is empty.
pub fn get_histogram(dice_str: String, iters: i32) -> (hist: Vec<u64>)
    requires
        iters >= 0,
    ensures
        sum_sides(spec_parse(dice_str@)) <= usize::MAX ==> hist@.len() == max1(
            sum_sides(spec_parse(dice_str@)),
        ) && sum_u64(hist@) == iters,
        sum_sides(spec_parse(dice_str@)) > usize::MAX ==> hist@.len() == 0,
{
    let dice = parse_dice(dice_str);
    if dice.check_wf() {
        run_sim(&dice, iters)
    } else {
        Vec::new()
    }
}

} // verus!
