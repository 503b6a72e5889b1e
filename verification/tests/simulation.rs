//! Simulation-engine tests: histogram shape, exact trial counts, the
//! normalized distribution, and the parallel variant's combined counts.

use dice_lib::Comparison;
use dice_lib::Decision;
use dice_lib::Rollable;
use dice_lib::combine_histograms;
use dice_lib::get_histogram;
use dice_lib::parse_dice;
use dice_lib::run_sim;
use dice_lib::run_sim_decision;
use dice_lib::run_sim_parallel;

#[test]
fn test_sequential() {
    let d = parse_dice("20d20".to_string());
    run_sim(&d, 1000000);
}

#[test]
fn test_parallel() {
    let d = parse_dice("20d20".to_string());
    run_sim_parallel(&d, 1000000);
}

#[test]
fn test_decision_parallel() {
    let d = parse_dice("1d20".to_string());
    let set = Decision::new(Comparison::GreaterThan, d.clone(), 12, d.clone());
    run_sim_parallel(&set, 1000000);
}

#[test]
fn test_run_sim_counts() {
    let d = parse_dice("2d6".to_string());
    let iters = 100000i32;
    let hist = run_sim(&d, iters);
    // one slot per outcome below the bound
    assert_eq!(hist.len(), 12);
    // every trial is counted exactly once
    let total: u64 = hist.iter().sum();
    assert_eq!(total, iters as u64);
    // outcomes of two dice with six faces lie in [2, 10]
    assert_eq!(hist[0], 0);
    assert_eq!(hist[1], 0);
    assert_eq!(hist[11], 0);
    assert!(hist[2] > 0);
}

#[test]
fn test_run_sim_normalizes_to_one() {
    // dividing the counts by the number of trials yields a distribution
    // summing to 1.0 up to floating-point rounding
    let d = parse_dice("3d6".to_string());
    let iters = 200000i32;
    let hist = run_sim(&d, iters);
    let total: u64 = hist.iter().sum();
    let pmf: Vec<f64> = hist.iter().map(|c| *c as f64 / total as f64).collect();
    let sum: f64 = pmf.iter().sum();
    assert!((sum - 1.0).abs() < 1e-9);
}

#[test]
fn test_run_sim_empty_expression() {
    // an empty expression has bound zero: the histogram is clamped to one
    // slot and every outcome is zero
    let d = parse_dice("1d1".to_string());
    let hist = run_sim(&d, 1000);
    assert_eq!(hist.len(), 1);
    assert_eq!(hist[0], 1000);
}

#[test]
fn test_run_sim_boundary_largest_roll() {
    // the largest attainable roll of 1d2 is 1, one below the bound: the
    // top slot of the histogram stays empty under the exclusive-bound
    // sampling convention
    let d = parse_dice("1d2".to_string());
    let hist = run_sim(&d, 500);
    assert_eq!(hist.len(), 2);
    assert_eq!(hist[0], 0);
    assert_eq!(hist[1], 500);
}

#[test]
fn test_run_sim_parallel_counts() {
    // the parallel engine gives every worker iters / w trials and combines
    // the counts without renormalizing: the total is w * (iters / w), so
    // the remainder of the division is dropped
    let d = parse_dice("2d6".to_string());
    let iters = 100001i32;
    let hist = run_sim_parallel(&d, iters);
    assert_eq!(hist.len(), 12);
    let total: u64 = hist.iter().sum();
    let w = rayon::current_num_threads() as i32;
    assert_eq!(total, (w as u64) * ((iters / w) as u64));
    assert!(total <= iters as u64);
}

#[test]
fn test_run_sim_decision_counts() {
    let d = parse_dice("1d20".to_string());
    let decision = Decision::new(Comparison::GreaterThan, d.clone(), 12, d.clone());
    let iters = 50000i32;
    let hist = run_sim_decision(decision, iters);
    // sized by the payoff's bound, with the failed-trigger mass at zero
    assert_eq!(hist.len(), 20);
    let total: u64 = hist.iter().sum();
    assert_eq!(total, iters as u64);
    assert!(hist[0] > 0);
    let fraction = hist[0] as f64 / iters as f64;
    // the trigger fails when the d20 roll (uniform over 1..=19) is at
    // most 12
    assert!((fraction - 12.0 / 19.0).abs() < 0.02);
}

#[test]
fn test_combine_histograms() {
    // the reduction policy is plain elementwise summation, renormalizing
    // nothing
    let rows = vec![vec![1u64, 2, 3], vec![10, 20, 30], vec![100, 200, 300]];
    let combined = combine_histograms(&rows);
    assert_eq!(combined, vec![111u64, 222, 333]);
    let single = combine_histograms(&vec![vec![7u64, 0]]);
    assert_eq!(single, vec![7u64, 0]);
}

#[test]
fn test_get_histogram() {
    let hist = get_histogram("1d6".to_string(), 1000);
    assert_eq!(hist.len(), 6);
    let total: u64 = hist.iter().sum();
    assert_eq!(total, 1000);

    let empty = get_histogram("no dice here".to_string(), 1000);
    assert_eq!(empty.len(), 1);
    assert_eq!(empty[0], 1000);
}

#[test]
fn test_max_reports_outcome_bound() {
    let d = parse_dice("20d20".to_string());
    assert_eq!(d.max(), 400);
    let hist = run_sim(&d, 1000);
    assert_eq!(hist.len(), 400);
}
