use spline_spectral::smoothing::SmoothingToolkit;

fn curvature_keys(signal: &[f64]) -> Vec<u64> {
    let n = signal.len();
    let mut curvature = vec![0.0f64; n];
    for i in 1..n - 1 {
        curvature[i] = (signal[i - 1] - 2.0 * signal[i] + signal[i + 1]).abs();
    }
    curvature[0] = curvature[1];
    curvature[n - 1] = curvature[n - 2];
    curvature.iter().map(|c| c.to_bits()).collect()
}

#[test]
fn spline_knots_fifteen() {
    let (numerators, denominator) = SmoothingToolkit::spline_knot_numerators(15);
    assert_eq!(denominator, 8);
    assert_eq!(numerators, vec![0, 0, 0, 0, 1, 2, 3, 4, 5, 6, 7, 8, 8, 8, 8]);
}

#[test]
fn spline_knots_small_counts() {
    assert_eq!(SmoothingToolkit::spline_knot_numerators(7), (vec![0, 0, 0, 0, 1, 1, 1], 1));
    assert_eq!(SmoothingToolkit::spline_knot_numerators(8), (vec![0, 0, 0, 0, 1, 1, 1, 1], 1));
    assert_eq!(SmoothingToolkit::spline_knot_numerators(9), (vec![0, 0, 0, 0, 1, 2, 2, 2, 2], 2));
}

#[test]
fn spline_knots_clamped_uniform() {
    for num_knots in 8..60usize {
        let (numerators, denominator) = SmoothingToolkit::spline_knot_numerators(num_knots);
        assert_eq!(numerators.len(), num_knots);
        assert_eq!(&numerators[..4], &[0, 0, 0, 0]);
        assert_eq!(&numerators[num_knots - 4..], &[denominator; 4]);
        for w in numerators.windows(2) {
            assert!(w[0] <= w[1] && w[1] - w[0] <= 1);
        }
    }
}

#[test]
fn denoise_knot_count_quarter_or_minimum() {
    assert_eq!(SmoothingToolkit::denoise_knot_count(40, 3), 10);
    assert_eq!(SmoothingToolkit::denoise_knot_count(10, 3), 5);
    assert_eq!(SmoothingToolkit::denoise_knot_count(20, 3), 5);
    assert_eq!(SmoothingToolkit::denoise_knot_count(100, 0), 25);
}

#[test]
fn observed_indices_skip_missing() {
    assert_eq!(SmoothingToolkit::observed_indices(6, &vec![2]), vec![0, 1, 3, 4, 5]);
    assert_eq!(SmoothingToolkit::observed_indices(4, &vec![3, 0, 9]), vec![1, 2]);
    assert!(SmoothingToolkit::observed_indices(0, &vec![]).is_empty());
}

#[test]
fn top_curvature_step_signal() {
    let signal: Vec<f64> = (0..20).map(|i| if i < 10 { 0.0 } else { 5.0 }).collect();
    let keys = curvature_keys(&signal);
    let selected = SmoothingToolkit::top_curvature_indices(&keys, 3);
    assert_eq!(selected, vec![0, 9, 10]);
    let positions: Vec<f64> = selected.iter().map(|&i| i as f64 / 19.0).collect();
    assert!(positions.iter().any(|&k| k > 0.35 && k < 0.65));
}

#[test]
fn top_curvature_ties_go_to_earlier_index() {
    assert_eq!(SmoothingToolkit::top_curvature_indices(&vec![5, 5, 5], 2), vec![0, 1]);
    assert_eq!(SmoothingToolkit::top_curvature_indices(&vec![1, 9, 3, 9, 2], 3), vec![1, 2, 3]);
}

#[test]
fn top_curvature_edge_counts() {
    assert!(SmoothingToolkit::top_curvature_indices(&vec![4, 2, 7], 0).is_empty());
    assert_eq!(SmoothingToolkit::top_curvature_indices(&vec![4, 2, 7], 10), vec![0, 1, 2]);
    assert!(SmoothingToolkit::top_curvature_indices(&vec![], 3).is_empty());
}

#[test]
fn top_curvature_selected_outrank_the_rest() {
    let keys: Vec<u64> = (0..30u64).map(|i| (i * 7919) % 13).collect();
    for k in 0..31usize {
        let selected = SmoothingToolkit::top_curvature_indices(&keys, k);
        assert_eq!(selected.len(), k.min(keys.len()));
        for w in selected.windows(2) {
            assert!(w[0] < w[1]);
        }
        for &s in &selected {
            for j in 0..keys.len() {
                if !selected.contains(&j) {
                    assert!(keys[s] > keys[j] || (keys[s] == keys[j] && s < j));
                }
            }
        }
    }
}
