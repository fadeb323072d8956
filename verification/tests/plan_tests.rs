use fft_rs::bitrev::{bit_reverse, bit_reversal_swaps, pow2_exec};
use fft_rs::buffer::{apply_swaps, bit_reverse_permute, pad_with};
use fft_rs::planner::TwiddlePlanner;
use fft_rs::pow2::{log2_exec, next_power_of_two};
use fft_rs::schedule::{butterfly_stages, stage_ops};

#[test]
fn padded_length_rule() {
    assert_eq!(next_power_of_two(0), 1);
    assert_eq!(next_power_of_two(1), 1);
    assert_eq!(next_power_of_two(2), 2);
    assert_eq!(next_power_of_two(3), 4);
    assert_eq!(next_power_of_two(4), 4);
    assert_eq!(next_power_of_two(5), 8);
    assert_eq!(next_power_of_two(8), 8);
    assert_eq!(next_power_of_two(9), 16);
    assert_eq!(next_power_of_two(1000), 1024);
}

#[test]
fn pow2_and_log2() {
    assert_eq!(pow2_exec(0), 1);
    assert_eq!(pow2_exec(1), 2);
    assert_eq!(pow2_exec(10), 1024);
    assert_eq!(log2_exec(1), 0);
    assert_eq!(log2_exec(2), 1);
    assert_eq!(log2_exec(8), 3);
    assert_eq!(log2_exec(1024), 10);
}

#[test]
fn bit_reverse_values() {
    assert_eq!(bit_reverse(0, 3), 0);
    assert_eq!(bit_reverse(1, 3), 4);
    assert_eq!(bit_reverse(2, 3), 2);
    assert_eq!(bit_reverse(3, 3), 6);
    assert_eq!(bit_reverse(4, 3), 1);
    assert_eq!(bit_reverse(5, 3), 5);
    assert_eq!(bit_reverse(6, 3), 3);
    assert_eq!(bit_reverse(7, 3), 7);
    assert_eq!(bit_reverse(1, 4), 8);
    assert_eq!(bit_reverse(0, 0), 0);
}

#[test]
fn swap_schedule_values() {
    assert_eq!(bit_reversal_swaps(1), vec![]);
    assert_eq!(bit_reversal_swaps(2), vec![]);
    assert_eq!(bit_reversal_swaps(4), vec![(1, 2)]);
    assert_eq!(bit_reversal_swaps(8), vec![(1, 4), (3, 6)]);
}

#[test]
fn apply_swaps_moves_pairs() {
    let mut data: Vec<u64> = vec![10, 11, 12, 13];
    let swaps: Vec<(usize, usize)> = vec![(1, 3), (0, 2)];
    apply_swaps(&mut data, &swaps);
    assert_eq!(data, vec![12, 13, 10, 11]);
}

#[test]
fn permutation_of_eight() {
    let mut data: Vec<u64> = vec![0, 1, 2, 3, 4, 5, 6, 7];
    bit_reverse_permute(&mut data);
    assert_eq!(data, vec![0, 4, 2, 6, 1, 5, 3, 7]);
}

#[test]
fn padding_appends_fill() {
    let data: Vec<u64> = vec![1, 2, 3];
    let out = pad_with(&data, 0, 4);
    assert_eq!(out, vec![1, 2, 3, 0]);
    let empty: Vec<u64> = vec![];
    assert_eq!(pad_with(&empty, 9, 1), vec![9]);
}

#[test]
fn stage_ops_values() {
    assert_eq!(stage_ops(4, 2), vec![(0, 1, 0), (2, 3, 0)]);
    assert_eq!(stage_ops(4, 4), vec![(0, 2, 0), (1, 3, 1)]);
    assert_eq!(
        stage_ops(8, 4),
        vec![(0, 2, 0), (1, 3, 2), (4, 6, 0), (5, 7, 2)]
    );
}

#[test]
fn butterfly_stage_schedule() {
    let stages = butterfly_stages(8);
    assert_eq!(stages.len(), 3);
    assert_eq!(stages[0], vec![(0, 1, 0), (2, 3, 0), (4, 5, 0), (6, 7, 0)]);
    assert_eq!(stages[1], vec![(0, 2, 0), (1, 3, 2), (4, 6, 0), (5, 7, 2)]);
    assert_eq!(stages[2], vec![(0, 4, 0), (1, 5, 1), (2, 6, 2), (3, 7, 3)]);
    assert_eq!(butterfly_stages(1).len(), 0);
}

#[test]
fn cache_rebuild_decision() {
    let mut planner = TwiddlePlanner::new();
    assert_eq!(planner.current_size, 0);
    assert!(planner.ensure_size(8));
    assert!(!planner.ensure_size(8));
    assert_eq!(planner.current_size, 8);
    assert!(planner.ensure_size(4));
    assert_eq!(planner.current_size, 4);
}

#[test]
fn transform_plan_shape() {
    let mut planner = TwiddlePlanner::new();
    let plan = planner.plan_transform(3);
    assert_eq!(plan.padded_len, 4);
    assert!(plan.rebuild_twiddles);
    assert_eq!(plan.swaps, vec![(1, 2)]);
    assert_eq!(plan.stages.len(), 2);
    let again = planner.plan_transform(3);
    assert_eq!(again.padded_len, 4);
    assert!(!again.rebuild_twiddles);
}
