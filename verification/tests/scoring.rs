use histdiff::profile::{Profile, Ratio};
use histdiff::score::{fits, hist_square_diff, square_diff, Score, ShapeError};

fn value(s: &Score) -> f64 {
    let magnitude = s.num as f64 / s.den as f64;
    if s.negative {
        -magnitude
    } else {
        magnitude
    }
}

fn one() -> Ratio {
    Ratio { num: 1, den: 1 }
}

#[test]
fn score_sign_scenario() {
    let ctrl = Profile { parts: vec![2, 3, 4], scale: 1 };
    let exp = vec![Profile { parts: vec![1, 2, 3], scale: 1 }];
    let scores = hist_square_diff(&exp, &ctrl, &one()).unwrap();
    assert_eq!(scores.len(), 1);
    // The control leans further right (20 against 14), so the score is negative.
    assert!(scores[0].negative);
    assert_eq!(scores[0].num, 3);
    assert_eq!(scores[0].den, 1);
    assert_eq!(value(&scores[0]), -3.0);
}

#[test]
fn ties_are_positive() {
    let ctrl = Profile { parts: vec![1, 2, 1], scale: 4 };
    let same = Profile { parts: vec![2, 4, 2], scale: 8 };
    let score = square_diff(&ctrl, &same, &one());
    assert!(!score.negative);
    assert_eq!(score.num, 0);
    assert_eq!(value(&score), 0.0);
}

#[test]
fn well_right_of_control_is_positive() {
    let ctrl = Profile { parts: vec![3, 1], scale: 4 };
    let exp = Profile { parts: vec![1, 3], scale: 4 };
    let score = square_diff(&ctrl, &exp, &one());
    assert!(!score.negative);
    // (3/4 - 1/4)^2 + (1/4 - 3/4)^2 = 1/2
    assert_eq!(value(&score), 0.5);
}

#[test]
fn factor_scales_the_well() {
    let ctrl = Profile { parts: vec![2, 2], scale: 1 };
    let exp = Profile { parts: vec![1, 1], scale: 1 };
    let score = square_diff(&ctrl, &exp, &Ratio { num: 2, den: 1 });
    assert_eq!(score.num, 0);
    // The factor does not enter the sign: 2 + 4 against 1 + 2.
    assert!(score.negative);
    let half = square_diff(&ctrl, &exp, &Ratio { num: 1, den: 2 });
    // (2 - 1/2)^2 * 2 = 4.5
    assert_eq!(value(&half), -4.5);
}

#[test]
fn different_denominators_compare_as_shares() {
    let ctrl = Profile { parts: vec![1, 3], scale: 4 };
    let exp = Profile { parts: vec![5, 5], scale: 10 };
    let score = square_diff(&ctrl, &exp, &one());
    // proxies: 7/4 against 15/10
    assert!(score.negative);
    // (1/4 - 1/2)^2 + (3/4 - 1/2)^2 = 1/8
    assert_eq!(value(&score), -0.125);
    assert_eq!(score.den, 1600);
    assert_eq!(score.num, 200);
}

#[test]
fn mismatched_lengths_are_an_error() {
    let ctrl = Profile { parts: vec![2, 3, 4], scale: 1 };
    let exp = vec![
        Profile { parts: vec![1, 2, 3], scale: 1 },
        Profile { parts: vec![1, 2], scale: 1 },
    ];
    assert_eq!(hist_square_diff(&exp, &ctrl, &one()).unwrap_err(), ShapeError::Mismatch);
}

#[test]
fn no_wells_give_no_scores() {
    let ctrl = Profile { parts: vec![2, 3, 4], scale: 1 };
    let scores = hist_square_diff(&[], &ctrl, &one()).unwrap();
    assert!(scores.is_empty());
}

#[test]
fn several_wells_are_scored_in_order() {
    let ctrl = Profile { parts: vec![2, 3, 4], scale: 1 };
    let exp = vec![
        Profile { parts: vec![1, 2, 3], scale: 1 },
        Profile { parts: vec![2, 3, 4], scale: 1 },
        Profile { parts: vec![2, 3, 6], scale: 1 },
    ];
    let scores = hist_square_diff(&exp, &ctrl, &one()).unwrap();
    let got: Vec<f64> = scores.iter().map(value).collect();
    assert_eq!(got, vec![-3.0, 0.0, 4.0]);
}

#[test]
fn fits_tells_when_a_score_can_be_held() {
    let small = Profile { parts: vec![2, 3, 4], scale: 9 };
    assert!(fits(&small, &small, &one()));
    let big = Profile { parts: vec![1 << 40, 1 << 40], scale: 1 << 41 };
    assert!(!fits(&big, &big, &one()));
    assert!(fits(&big, &small, &one()));
    assert!(!fits(&small, &small, &Ratio { num: 1, den: u64::MAX }));
}

#[test]
fn negative_shares_and_factors_are_scored() {
    let ctrl = Profile { parts: vec![3, -1], scale: 2 };
    let exp = Profile { parts: vec![-1, 3], scale: 2 };
    let score = square_diff(&ctrl, &exp, &one());
    // proxies: (3 - 2) / 2 against (-1 + 6) / 2
    assert!(!score.negative);
    // (3/2 + 1/2)^2 + (-1/2 - 3/2)^2 = 8
    assert_eq!(value(&score), 8.0);
    let turned = square_diff(&ctrl, &exp, &Ratio { num: -1, den: 1 });
    // (3/2 - 1/2)^2 + (-1/2 + 3/2)^2 = 2
    assert_eq!(value(&turned), 2.0);
}
