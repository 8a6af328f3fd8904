use tvagg::cardinality::{CardinalityError, SketchState};

fn sketch_of(precision: u8, values: &[i64]) -> SketchState {
    let mut s = SketchState::new(precision).unwrap();
    for &v in values {
        s = s.insert(v);
    }
    s
}

#[test]
fn bad_precisions_are_refused() {
    assert!(matches!(SketchState::new(3), Err(CardinalityError::BadPrecision)));
    assert!(matches!(SketchState::new(17), Err(CardinalityError::BadPrecision)));
    assert!(SketchState::new(4).is_ok());
    assert!(SketchState::new(16).is_ok());
}

#[test]
fn ten_values_with_seven_distinct_count_exactly_seven() {
    let s = sketch_of(7, &[10, 15, 20, 25, 30, 25, 15, 35, 10, 5]);
    assert_eq!(s.count(), 7);
}

#[test]
fn an_empty_sketch_counts_zero() {
    let s = SketchState::new(8).unwrap();
    assert_eq!(s.count(), 0);
}

#[test]
fn duplicates_never_raise_the_count() {
    let s = sketch_of(10, &[1, 1, 1, 1, 1, 1]);
    assert_eq!(s.count(), 1);
}

#[test]
fn merging_sparse_sketches_counts_the_distinct_union() {
    let a = sketch_of(8, &[1, 2, 3, 4]);
    let b = sketch_of(8, &[3, 4, 5, 6]);
    let m = a.merge(b).unwrap();
    assert_eq!(m.count(), 6);
}

#[test]
fn merging_equal_sketches_changes_nothing() {
    let a = sketch_of(8, &[7, 8, 9]);
    let b = sketch_of(8, &[7, 8, 9]);
    let m = a.merge(b).unwrap();
    assert_eq!(m.count(), 3);
}

#[test]
fn mismatched_precisions_are_refused() {
    let a = sketch_of(8, &[1]);
    let b = sketch_of(9, &[1]);
    assert!(matches!(a.merge(b), Err(CardinalityError::MismatchedPrecision)));
}

#[test]
fn the_dense_form_estimates_large_cardinalities() {
    // Precision 4 holds four distinct hashes sparsely; this input forces the
    // dense registers.  The estimate is approximate but deterministic, and
    // must stay in the right region for 200 distinct values.
    let values: Vec<i64> = (0..200).collect();
    let s = sketch_of(4, &values);
    let c = s.count();
    assert!(c >= 60, "estimate {} is far too low", c);
    assert!(c <= 600, "estimate {} is far too high", c);
}

#[test]
fn dense_merging_agrees_with_direct_building() {
    let all: Vec<i64> = (0..100).collect();
    let left: Vec<i64> = (0..60).collect();
    let right: Vec<i64> = (40..100).collect();
    let direct = sketch_of(4, &all);
    let merged = sketch_of(4, &left).merge(sketch_of(4, &right)).unwrap();
    assert_eq!(direct.count(), merged.count());
}

#[test]
fn merging_sparse_into_dense_agrees_with_direct_building() {
    let all: Vec<i64> = (0..33).collect();
    let dense_part: Vec<i64> = (0..30).collect();
    let sparse_part: Vec<i64> = (30..33).collect();
    let direct = sketch_of(4, &all);
    let merged = sketch_of(4, &dense_part).merge(sketch_of(4, &sparse_part)).unwrap();
    assert_eq!(direct.count(), merged.count());
    let other_way = sketch_of(4, &sparse_part).merge(sketch_of(4, &dense_part)).unwrap();
    assert_eq!(direct.count(), other_way.count());
}

#[test]
fn counting_twice_gives_identical_results() {
    let s = sketch_of(6, &[5, 6, 7]);
    assert_eq!(s.count(), s.count());
}

#[test]
fn the_sketch_is_a_function_of_the_distinct_values() {
    // Whatever order and grouping built it, a sketch over the same values
    // counts the same.
    let forward: Vec<i64> = (0..50).collect();
    let mut backward: Vec<i64> = forward.clone();
    backward.reverse();
    let a = sketch_of(5, &forward);
    let b = sketch_of(5, &backward);
    assert_eq!(a.count(), b.count());
    let split = sketch_of(5, &forward[..20]).merge(sketch_of(5, &forward[20..])).unwrap();
    assert_eq!(a.count(), split.count());
}
