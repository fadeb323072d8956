//! Runs whole transforms by executing the library's verified plans on
//! double-precision complex samples, the way the numeric shell does.

use fft_rs::buffer::{apply_swaps, pad_with};
use fft_rs::planner::TwiddlePlanner;

fn c_add(a: (f64, f64), b: (f64, f64)) -> (f64, f64) {
    (a.0 + b.0, a.1 + b.1)
}

fn c_sub(a: (f64, f64), b: (f64, f64)) -> (f64, f64) {
    (a.0 - b.0, a.1 - b.1)
}

fn c_mul(a: (f64, f64), b: (f64, f64)) -> (f64, f64) {
    (
        a.0.mul_add(b.0, -(a.1 * b.1)),
        a.0.mul_add(b.1, a.1 * b.0),
    )
}

/// The twiddle factors of a transform of length `n`, generated the way the
/// engine generates them: one polar evaluation, then repeated multiplication.
fn twiddles(n: usize) -> Vec<(f64, f64)> {
    let base = -2.0 * std::f64::consts::PI / (n as f64);
    let step = (base.cos(), base.sin());
    let mut factor = (1.0, 0.0);
    let mut out = Vec::new();
    for _ in 0..n {
        out.push(factor);
        factor = c_mul(factor, step);
    }
    out
}

fn run_fft(
    planner: &mut TwiddlePlanner,
    cache: &mut Vec<(f64, f64)>,
    signal: &[(f64, f64)],
) -> Vec<(f64, f64)> {
    let plan = planner.plan_transform(signal.len());
    let mut data = pad_with(&signal.to_vec(), (0.0, 0.0), plan.padded_len);
    if plan.rebuild_twiddles {
        *cache = twiddles(plan.padded_len);
    }
    apply_swaps(&mut data, &plan.swaps);
    for stage in plan.stages.iter() {
        for &(e, o, t) in stage.iter() {
            let even = data[e];
            let odd = c_mul(data[o], cache[t]);
            data[e] = c_add(even, odd);
            data[o] = c_sub(even, odd);
        }
    }
    data
}

fn run_fft_real(
    planner: &mut TwiddlePlanner,
    cache: &mut Vec<(f64, f64)>,
    signal: &[f64],
) -> Vec<(f64, f64)> {
    let lifted: Vec<(f64, f64)> = signal.iter().map(|&x| (x, 0.0)).collect();
    run_fft(planner, cache, &lifted)
}

/// The discrete Fourier transform summed directly from its definition.
fn naive_dft(signal: &[(f64, f64)]) -> Vec<(f64, f64)> {
    let n = signal.len();
    let mut out = Vec::new();
    for k in 0..n {
        let mut acc = (0.0, 0.0);
        for (j, &x) in signal.iter().enumerate() {
            let angle = -2.0 * std::f64::consts::PI * (j as f64) * (k as f64) / (n as f64);
            acc = c_add(acc, c_mul(x, (angle.cos(), angle.sin())));
        }
        out.push(acc);
    }
    out
}

fn close(a: (f64, f64), b: (f64, f64), tol: f64) -> bool {
    (a.0 - b.0).abs() < tol && (a.1 - b.1).abs() < tol
}

#[test]
fn test_power_of_two() {
    let mut planner = TwiddlePlanner::new();
    let mut cache = Vec::new();
    let result = run_fft_real(
        &mut planner,
        &mut cache,
        &[1.0, 1.0, 1.0, 1.0, 0.0, 0.0, 0.0, 0.0],
    );
    assert!((result[0].0 - 4.0).abs() < 1e-10);
    assert!(result[0].1.abs() < 1e-10);
    assert!((result[4].0 - 0.0).abs() < 1e-10);
    assert!(result[4].1.abs() < 1e-10);
}

#[test]
fn test_non_power_of_two() {
    let mut planner = TwiddlePlanner::new();
    let mut cache = Vec::new();
    let result = run_fft_real(&mut planner, &mut cache, &[1.0, 1.0, 1.0]);
    assert_eq!(result.len(), 4);
    assert!((result[0].0 - 3.0).abs() < 1e-10);
}

#[test]
fn output_length_is_padded_power_of_two() {
    let mut planner = TwiddlePlanner::new();
    let mut cache = Vec::new();
    for (len, expected) in [(0, 1), (1, 1), (2, 2), (3, 4), (5, 8), (8, 8), (9, 16)] {
        let signal = vec![0.5; len];
        let result = run_fft_real(&mut planner, &mut cache, &signal);
        assert_eq!(result.len(), expected);
    }
}

#[test]
fn dc_component_is_sum_of_samples() {
    let mut planner = TwiddlePlanner::new();
    let mut cache = Vec::new();
    let result = run_fft_real(&mut planner, &mut cache, &[2.5; 8]);
    assert!((result[0].0 - 20.0).abs() < 1e-10);
    assert!(result[0].1.abs() < 1e-10);
    let result = run_fft_real(&mut planner, &mut cache, &[-1.25; 16]);
    assert!((result[0].0 + 20.0).abs() < 1e-10);
    assert!(result[0].1.abs() < 1e-10);
}

#[test]
fn linearity() {
    let x = [
        (1.0, 0.5),
        (-2.0, 1.0),
        (0.25, -3.0),
        (4.0, 0.0),
        (0.0, 2.0),
        (-1.5, -1.5),
        (3.0, 0.125),
        (0.75, -0.25),
    ];
    let y = [
        (0.5, -1.0),
        (2.0, 2.0),
        (-0.75, 0.0),
        (1.0, -4.0),
        (-3.0, 0.5),
        (0.0, 1.25),
        (-0.5, -0.5),
        (2.25, 3.0),
    ];
    let a = 2.0;
    let b = -0.5;
    let combined: Vec<(f64, f64)> = x
        .iter()
        .zip(y.iter())
        .map(|(&xi, &yi)| (a * xi.0 + b * yi.0, a * xi.1 + b * yi.1))
        .collect();
    let mut planner = TwiddlePlanner::new();
    let mut cache = Vec::new();
    let fx = run_fft(&mut planner, &mut cache, &x);
    let fy = run_fft(&mut planner, &mut cache, &y);
    let fc = run_fft(&mut planner, &mut cache, &combined);
    for k in 0..8 {
        let want = (a * fx[k].0 + b * fy[k].0, a * fx[k].1 + b * fy[k].1);
        assert!(close(fc[k], want, 1e-9));
    }
}

#[test]
fn matches_direct_dft() {
    let signal = [
        (0.3, -0.7),
        (1.5, 2.0),
        (-2.25, 0.5),
        (0.0, 1.0),
        (4.0, -1.5),
        (-0.125, 0.25),
        (2.0, 3.5),
        (-1.0, -2.0),
    ];
    let mut planner = TwiddlePlanner::new();
    let mut cache = Vec::new();
    let fast = run_fft(&mut planner, &mut cache, &signal);
    let direct = naive_dft(&signal);
    for k in 0..8 {
        assert!(close(fast[k], direct[k], 1e-9));
    }
}

#[test]
fn repeated_transforms_reuse_cache() {
    let signal = [0.5, -1.0, 2.0, 0.25, -0.75, 1.5, 0.0, 3.0];
    let mut planner = TwiddlePlanner::new();
    let mut cache = Vec::new();
    let first = run_fft_real(&mut planner, &mut cache, &signal);
    let cache_snapshot = cache.clone();
    let second = run_fft_real(&mut planner, &mut cache, &signal);
    assert_eq!(cache, cache_snapshot);
    assert_eq!(first, second);
    // A different length rebuilds; coming back rebuilds again and still
    // reproduces the same output bit for bit.
    let _ = run_fft_real(&mut planner, &mut cache, &[1.0, 2.0, 3.0]);
    let third = run_fft_real(&mut planner, &mut cache, &signal);
    assert_eq!(first, third);
}
