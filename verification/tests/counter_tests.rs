use tvagg::counter::{CounterError, CounterState};
use tvagg::Point;

fn counter_of(data: &[(i64, i64)]) -> CounterState {
    let mut it = data.iter();
    let &(ts, val) = it.next().unwrap();
    let mut state = CounterState::new(Point { ts, val });
    for &(ts, val) in it {
        state.accumulate(Point { ts, val });
    }
    state
}

#[test]
fn counter_scenario_two_resets_sum_forty_five_four_changes() {
    let s = counter_of(&[(1, 15), (2, 25), (3, 20), (4, 10), (5, 30)]);
    assert_eq!(s.resets(), 2);
    assert_eq!(s.reset_sum, 45);
    assert_eq!(s.changes(), 4);
}

#[test]
fn retained_points_of_the_scenario() {
    let s = counter_of(&[(1, 15), (2, 25), (3, 20), (4, 10), (5, 30)]);
    assert_eq!((s.first.ts, s.first.val), (1, 15));
    assert_eq!((s.second.ts, s.second.val), (2, 25));
    assert_eq!((s.penultimate.ts, s.penultimate.val), (4, 10));
    assert_eq!((s.last.ts, s.last.val), (5, 30));
}

#[test]
fn delta_and_rate_account_for_resets() {
    let s = counter_of(&[(1, 15), (2, 25), (3, 20), (4, 10), (5, 30)]);
    // Corrected last reading is 30 + 45; the first reading is 15.
    assert_eq!(s.delta(), Some(60));
    let r = s.rate().unwrap();
    assert_eq!(r.num, 60);
    assert_eq!(r.den, 4);
}

#[test]
fn one_point_yields_an_absent_summary() {
    let s = counter_of(&[(7, 100)]);
    assert!(s.delta().is_none());
    assert!(s.rate().is_none());
    assert!(s.regression_slope().is_none());
}

#[test]
fn a_plain_monotone_counter_has_no_resets() {
    let s = counter_of(&[(1, 1), (2, 2), (3, 2), (4, 5)]);
    assert_eq!(s.resets(), 0);
    assert_eq!(s.reset_sum, 0);
    assert_eq!(s.changes(), 2);
    assert_eq!(s.delta(), Some(4));
}

#[test]
fn merging_adjacent_partials_equals_accumulating_everything() {
    let whole = counter_of(&[(1, 15), (2, 25), (3, 20), (4, 10), (5, 30)]);
    let early = counter_of(&[(1, 15), (2, 25)]);
    let late = counter_of(&[(3, 20), (4, 10), (5, 30)]);
    let merged = early.merge(late).unwrap();
    assert_eq!(merged, whole);
    // The reset across the partial boundary (25 to 20) is counted once.
    assert_eq!(merged.resets(), 2);
    assert_eq!(merged.reset_sum, 45);
}

#[test]
fn merge_accepts_either_argument_order() {
    let whole = counter_of(&[(1, 15), (2, 25), (3, 20), (4, 10), (5, 30)]);
    let early = counter_of(&[(1, 15), (2, 25)]);
    let late = counter_of(&[(3, 20), (4, 10), (5, 30)]);
    assert_eq!(late.merge(early).unwrap(), whole);
}

#[test]
fn overlapping_ranges_are_refused() {
    let a = counter_of(&[(1, 10), (5, 20)]);
    let b = counter_of(&[(3, 5), (8, 9)]);
    assert_eq!(a.merge(b), Err(CounterError::OverlappingRanges));
    // Touching timestamps overlap too.
    let c = counter_of(&[(5, 1), (9, 2)]);
    assert_eq!(a.merge(c), Err(CounterError::OverlappingRanges));
}

#[test]
fn bad_bounds_are_refused_at_configuration() {
    let s = counter_of(&[(1, 10), (2, 20)]);
    assert_eq!(s.with_bounds(9, 9).unwrap_err(), CounterError::BadBounds);
    assert!(s.with_bounds(0, 10).is_ok());
}

#[test]
fn extrapolated_delta_follows_the_edge_lines() {
    let s = counter_of(&[(0, 0), (10, 10)]).with_bounds(0, 20).unwrap();
    let d = s.extrapolated_delta().unwrap();
    // The single observed segment has slope one; extended to the range
    // [0, 20] the increase is 20, as the exact rational 2000 / 100.
    assert_eq!(d.num, 2000);
    assert_eq!(d.den, 100);
}

#[test]
fn extrapolated_delta_is_absent_without_bounds() {
    let s = counter_of(&[(0, 0), (10, 10)]);
    assert!(s.extrapolated_delta().is_none());
}

#[test]
fn regression_slope_of_a_straight_line() {
    let s = counter_of(&[(0, 0), (1, 2), (2, 4), (3, 6)]);
    let slope = s.regression_slope().unwrap();
    // n*sxy - sx*sy over n*sx2 - sx^2: (4*28 - 6*12) / (4*14 - 36).
    assert_eq!(slope.num, 40);
    assert_eq!(slope.den, 20);
}

#[test]
fn counter_finalize_twice_gives_identical_results() {
    let s = counter_of(&[(1, 15), (2, 25), (3, 20)]);
    assert_eq!(s.delta(), s.delta());
    assert_eq!(s.rate(), s.rate());
}
