use tvagg::pipeline::{apply_element, evaluate, run_elements, Element, Pipeline};
use tvagg::Point;

fn pts(data: &[(i64, i64)]) -> Vec<Point> {
    data.iter().map(|&(ts, val)| Point { ts, val }).collect()
}

fn vals(v: &[Point]) -> Vec<i64> {
    v.iter().map(|p| p.val).collect()
}

fn times(v: &[Point]) -> Vec<i64> {
    v.iter().map(|p| p.ts).collect()
}

#[test]
fn arithmetic_elements_map_values_and_keep_timestamps() {
    let tv = pts(&[(1, 10), (2, -3), (3, 0)]);
    let plus = apply_element(&Element::Plus(5), tv.clone());
    assert_eq!(vals(&plus), vec![15, 2, 5]);
    assert_eq!(times(&plus), vec![1, 2, 3]);

    let minus = apply_element(&Element::Minus(4), tv.clone());
    assert_eq!(vals(&minus), vec![6, -7, -4]);

    let times_el = apply_element(&Element::Times(-2), tv);
    assert_eq!(vals(&times_el), vec![-20, 6, 0]);
}

#[test]
fn abs_is_exact_and_saturates_at_the_minimum() {
    let tv = pts(&[(1, -7), (2, 7), (3, i64::MIN)]);
    let out = apply_element(&Element::Abs, tv);
    assert_eq!(vals(&out), vec![7, 7, i64::MAX]);
}

#[test]
fn ceil_and_floor_are_identity_on_integers() {
    let tv = pts(&[(1, -7), (2, 9)]);
    let c = apply_element(&Element::Ceil, tv.clone());
    let f = apply_element(&Element::Floor, tv.clone());
    assert_eq!(vals(&c), vals(&tv));
    assert_eq!(vals(&f), vals(&tv));
}

#[test]
fn sort_orders_by_timestamp_and_is_stable() {
    // Two points share the timestamp 2; their payloads must keep input order.
    let tv = pts(&[(3, 30), (2, 21), (1, 10), (2, 22)]);
    let out = apply_element(&Element::Sort, tv);
    assert_eq!(times(&out), vec![1, 2, 2, 3]);
    assert_eq!(vals(&out), vec![10, 21, 22, 30]);
}

#[test]
fn arithmetic_wraps_instead_of_panicking() {
    let tv = pts(&[(1, i64::MAX)]);
    let out = apply_element(&Element::Plus(1), tv);
    assert_eq!(vals(&out), vec![i64::MIN]);
}

#[test]
fn elements_run_left_to_right() {
    // (v + 1) * 3 differs from v * 3 + 1: order must be evaluation order.
    let elements = vec![Element::Plus(1), Element::Times(3)];
    let out = run_elements(&elements, pts(&[(1, 4)]));
    assert_eq!(vals(&out), vec![15]);
}

#[test]
fn pipeline_builds_and_evaluates() {
    let mut p = Pipeline::new();
    p.append(Element::Times(2));
    p.append(Element::Sort);
    let out = evaluate(&p, pts(&[(2, 5), (1, 3)]));
    assert_eq!(times(&out), vec![1, 2]);
    assert_eq!(vals(&out), vec![6, 10]);
}

#[test]
fn empty_pipeline_is_identity() {
    let p = Pipeline::new();
    let tv = pts(&[(5, 50), (1, 10)]);
    let out = evaluate(&p, tv.clone());
    assert_eq!(vals(&out), vals(&tv));
    assert_eq!(times(&out), times(&tv));
}
