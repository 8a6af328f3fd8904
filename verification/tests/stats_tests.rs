use tvagg::stats::StatsState;
use tvagg::Point;

fn state_of(values: &[i64]) -> StatsState {
    let pts: Vec<Point> = values.iter().enumerate().map(|(i, &v)| Point {
        ts: i as i64,
        val: v,
    }).collect();
    StatsState::from_points(&pts)
}

#[test]
fn five_values_sum_to_one_hundred_and_average_twenty() {
    let s = state_of(&[25, 10, 20, 15, 30]);
    assert_eq!(s.sum(), 100);
    assert_eq!(s.num_vals(), 5);
    let avg = s.average().unwrap();
    assert_eq!(avg.num, 100);
    assert_eq!(avg.den, 5);
}

#[test]
fn the_state_ignores_input_order() {
    let a = state_of(&[25, 10, 20, 15, 30]);
    let b = state_of(&[30, 15, 20, 10, 25]);
    assert_eq!(a, b);
}

#[test]
fn moments_of_the_stats_scenario() {
    let s = state_of(&[25, 10, 20, 15, 30]);
    assert_eq!(s.n, 5);
    assert_eq!(s.sx, 100);
    assert_eq!(s.sx2, 2250);
    assert_eq!(s.sx3, 55000);
    assert_eq!(s.sx4, 1421250);
}

#[test]
fn sample_variance_is_exact() {
    let s = state_of(&[25, 10, 20, 15, 30]);
    let v = s.variance().unwrap();
    // (5 * 2250 - 100^2) / (5 * 4)
    assert_eq!(v.num, 1250);
    assert_eq!(v.den, 20);
}

#[test]
fn kurtosis_of_a_symmetric_sample() {
    let s = state_of(&[-1, 1]);
    // Central moments: m2 scaled by n^2 is 2*2 - 0 = 4; m4 scaled by n^4 is
    // 8*2 = 16; kurtosis = 16 / 16 = 1 for two symmetric points.
    let k = s.kurtosis().unwrap();
    assert_eq!(k.num, 16);
    assert_eq!(k.den, 16);
}

#[test]
fn skewness_squared_vanishes_on_symmetric_samples() {
    let s = state_of(&[-5, 5]);
    let sk = s.skewness_squared().unwrap();
    assert_eq!(sk.num, 0);
}

#[test]
fn average_is_absent_on_an_empty_state() {
    let s = StatsState::new();
    assert!(s.average().is_none());
    assert!(s.variance().is_none());
    assert_eq!(s.num_vals(), 0);
    assert_eq!(s.sum(), 0);
}

#[test]
fn variance_is_absent_below_two_values() {
    let s = state_of(&[42]);
    assert!(s.variance().is_none());
    assert!(s.average().is_some());
}

#[test]
fn stats_finalize_twice_gives_identical_results() {
    let s = state_of(&[25, 10, 20, 15, 30]);
    let first = (s.sum(), s.average(), s.variance(), s.kurtosis());
    let second = (s.sum(), s.average(), s.variance(), s.kurtosis());
    assert_eq!(first, second);
}

#[test]
fn merging_partials_equals_accumulating_everything() {
    let whole = state_of(&[25, 10, 20, 15, 30, 7, -3]);
    let left = state_of(&[25, 10, 20]);
    let right = state_of(&[15, 30, 7, -3]);
    let merged = left.merge(right);
    assert_eq!(merged, whole);
}

#[test]
fn merge_is_commutative_and_associative_on_values() {
    let a = state_of(&[1, 2]);
    let b = state_of(&[3]);
    let c = state_of(&[4, 5, 6]);
    assert_eq!(a.merge(b), b.merge(a));
    assert_eq!(a.merge(b).merge(c), a.merge(b.merge(c)));
}
