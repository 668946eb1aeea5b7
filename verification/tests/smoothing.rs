use histdiff::profile::{exponential_smoothing, normalize, Profile, Ratio};

fn values(p: &Profile) -> Vec<f64> {
    p.parts.iter().map(|&n| n as f64 / p.scale as f64).collect()
}

#[test]
fn test_smoothing_simple() {
    let test_in = Profile { parts: vec![1, 2, 3, 4, 5], scale: 1 };
    let alpha = Ratio { num: 1, den: 4 };
    let smoothed = exponential_smoothing(&test_in, &alpha);

    println!("{:?}", smoothed);

    let answer = vec![1.25, 2.0, 3.0, 4.0, 4.75];
    assert_eq!(values(&smoothed), answer);
}

#[test]
fn smoothing_keeps_exact_numerators() {
    let x = Profile { parts: vec![1, 2, 3, 4, 5], scale: 1 };
    let s = exponential_smoothing(&x, &Ratio { num: 1, den: 4 });
    assert_eq!(s.parts, vec![5, 8, 12, 16, 19]);
    assert_eq!(s.scale, 4);
}

#[test]
fn single_bin_smooths_to_itself() {
    let x = Profile { parts: vec![7], scale: 1 };
    let s = exponential_smoothing(&x, &Ratio { num: 1, den: 4 });
    assert_eq!(values(&s), vec![7.0]);
}

#[test]
fn two_bins_move_towards_each_other() {
    let x = Profile { parts: vec![0, 8], scale: 2 };
    let s = exponential_smoothing(&x, &Ratio { num: 1, den: 2 });
    assert_eq!(s.parts, vec![8, 8]);
    assert_eq!(s.scale, 4);
}

#[test]
fn empty_row_smooths_to_empty_row() {
    let x = Profile { parts: vec![], scale: 1 };
    let s = exponential_smoothing(&x, &Ratio { num: 1, den: 4 });
    assert_eq!(s.parts.len(), 0);
}

#[test]
fn weight_zero_changes_no_value() {
    let x = Profile { parts: vec![3, 1, 4], scale: 1 };
    let s = exponential_smoothing(&x, &Ratio { num: 0, den: 5 });
    assert_eq!(values(&s), vec![3.0, 1.0, 4.0]);
}

#[test]
fn smoothing_keeps_the_sum() {
    let x = Profile { parts: vec![9, 0, 2, 7, 1, 1], scale: 1 };
    let s = exponential_smoothing(&x, &Ratio { num: 1, den: 4 });
    let sum: i64 = s.parts.iter().sum();
    assert_eq!(sum, 4 * 20);
}

#[test]
fn normalize_gives_shares_that_sum_to_one() {
    let x = Profile { parts: vec![1, 3, 4], scale: 1 };
    let n = normalize(&x);
    assert_eq!(values(&n), vec![0.125, 0.375, 0.5]);
    let sum: f64 = values(&n).iter().sum();
    assert_eq!(sum, 1.0);
}

#[test]
fn normalize_twice_is_normalize_once() {
    let x = Profile { parts: vec![5, 8, 12, 16, 19], scale: 4 };
    let once = normalize(&x);
    let twice = normalize(&once);
    assert_eq!(once.parts, twice.parts);
    assert_eq!(once.scale, twice.scale);
    assert_eq!(once.scale, 60);
}

#[test]
fn normalize_of_zeros_is_zeros() {
    let x = Profile { parts: vec![0, 0, 0], scale: 4 };
    let n = normalize(&x);
    assert_eq!(values(&n), vec![0.0, 0.0, 0.0]);
    let again = normalize(&n);
    assert_eq!(values(&again), vec![0.0, 0.0, 0.0]);
}

#[test]
fn from_parts_refuses_zero_denominator_and_overflowing_sum() {
    assert!(Profile::from_parts(vec![1, 2], 0).is_none());
    assert!(Profile::from_parts(vec![i64::MAX, 1], 1).is_none());
    assert!(Profile::from_parts(vec![i64::MAX, -1], 1).is_none());
    assert!(Profile::from_parts(vec![i64::MIN], 1).is_none());
    let p = Profile::from_parts(vec![i64::MAX - 1, 1], 3).unwrap();
    assert_eq!(p.sum(), i64::MAX);
    assert_eq!(p.weight(), i64::MAX as u64);
    assert_eq!(p.scale, 3);
    let q = Profile::from_parts(vec![-(i64::MAX - 1), 1], 3).unwrap();
    assert_eq!(q.sum(), -(i64::MAX - 2));
    assert_eq!(q.weight(), i64::MAX as u64);
}

#[test]
fn zeros_has_one_zero_for_each_bin() {
    let p = Profile::zeros(4);
    assert_eq!(p.parts, vec![0, 0, 0, 0]);
    assert_eq!(p.scale, 1);
}

#[test]
fn weight_above_one_half_can_turn_a_bin_negative() {
    // s[1] = 10 + (0 - 10) + (0 - 10) with the weight one.
    let x = Profile { parts: vec![0, 10, 0], scale: 1 };
    let s = exponential_smoothing(&x, &Ratio { num: 1, den: 1 });
    assert_eq!(values(&s), vec![10.0, -10.0, 10.0]);
    let t = exponential_smoothing(&x, &Ratio { num: 3, den: 4 });
    assert_eq!(values(&t), vec![7.5, -5.0, 7.5]);
    assert_eq!(t.parts, vec![30, -20, 30]);
    assert_eq!(t.scale, 4);
}

#[test]
fn weight_above_one_overshoots() {
    let x = Profile { parts: vec![1, 2, 3, 4, 5], scale: 1 };
    let s = exponential_smoothing(&x, &Ratio { num: 2, den: 1 });
    // 1 + 2 * 1, 2 + 2 * (-1) + 2 * 1, ..., 5 + 2 * (-1)
    assert_eq!(values(&s), vec![3.0, 2.0, 3.0, 4.0, 3.0]);
}

#[test]
fn negative_weight_sharpens() {
    let x = Profile { parts: vec![1, 2, 3, 4, 5], scale: 1 };
    let s = exponential_smoothing(&x, &Ratio { num: -1, den: 4 });
    assert_eq!(values(&s), vec![0.75, 2.0, 3.0, 4.0, 5.25]);
    let y = Profile { parts: vec![0, 4, 0], scale: 2 };
    let t = exponential_smoothing(&y, &Ratio { num: -1, den: 2 });
    // 0 - (2 - 0) / 2, 2 - (0 - 2) / 2 - (0 - 2) / 2, 0 - (2 - 0) / 2
    assert_eq!(values(&t), vec![-1.0, 4.0, -1.0]);
}

#[test]
fn smoothing_takes_negative_values() {
    let x = Profile { parts: vec![-4, 0, 8], scale: 1 };
    let s = exponential_smoothing(&x, &Ratio { num: 1, den: 4 });
    assert_eq!(values(&s), vec![-3.0, 1.0, 6.0]);
    let sum: i64 = s.parts.iter().sum();
    assert_eq!(sum, 4 * 4);
}

#[test]
fn smoothing_keeps_the_sum_for_any_weight() {
    let x = Profile { parts: vec![9, 0, 2, 7, 1, 1], scale: 1 };
    for (num, den) in [(0, 1), (1, 4), (1, 2), (3, 4), (1, 1), (5, 2), (-1, 4), (-3, 1)] {
        let s = exponential_smoothing(&x, &Ratio { num, den });
        let sum: i64 = s.parts.iter().sum();
        assert_eq!(sum, den as i64 * 20);
        assert_eq!(s.scale, den);
    }
}

#[test]
fn smoothing_agrees_with_the_formulas_in_floating_point() {
    let x = Profile { parts: vec![3, -1, 4, 1, -5, 9, 2, 6], scale: 1 };
    let xs: Vec<f64> = x.parts.iter().map(|&v| v as f64).collect();
    for (num, den) in [(1, 4), (1, 2), (3, 4), (2, 1), (-1, 2), (7, 8)] {
        let alpha = num as f64 / den as f64;
        let n = xs.len();
        let expected: Vec<f64> = (0..n)
            .map(|i| {
                if i == 0 {
                    xs[0] + alpha * (xs[1] - xs[0])
                } else if i == n - 1 {
                    alpha * (xs[i - 1] - xs[i]) + xs[i]
                } else {
                    alpha * (xs[i - 1] - xs[i]) + xs[i] + alpha * (xs[i + 1] - xs[i])
                }
            })
            .collect();
        let s = exponential_smoothing(&x, &Ratio { num, den });
        assert_eq!(values(&s), expected);
    }
}

#[test]
fn normalize_with_a_negative_sum_keeps_the_denominator_positive() {
    let x = Profile { parts: vec![1, -3, -2], scale: 1 };
    let n = normalize(&x);
    assert_eq!(n.parts, vec![-1, 3, 2]);
    assert_eq!(n.scale, 4);
    assert_eq!(values(&n), vec![-0.25, 0.75, 0.5]);
    let again = normalize(&n);
    assert_eq!(again.parts, n.parts);
    assert_eq!(again.scale, n.scale);
}

#[test]
fn normalize_of_a_row_that_sums_to_zero_is_zeros() {
    let x = Profile { parts: vec![2, -2, 0], scale: 3 };
    let n = normalize(&x);
    assert_eq!(n.parts, vec![0, 0, 0]);
    assert_eq!(n.scale, 3);
}
