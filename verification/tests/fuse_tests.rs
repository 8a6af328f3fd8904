use tvagg::fuse::{
    run_pipeline_then_average, run_pipeline_then_cardinality, run_pipeline_then_counter_agg,
    run_pipeline_then_num_vals, run_pipeline_then_stats_agg, run_pipeline_then_sum, try_fuse,
    FusedPipeline, TerminalKind, TerminalSpec,
};
use tvagg::counter::CounterError;
use tvagg::pipeline::{evaluate, Element, Pipeline};
use tvagg::Point;

fn pts(data: &[(i64, i64)]) -> Vec<Point> {
    data.iter().map(|&(ts, val)| Point { ts, val }).collect()
}

fn pipeline_of(elements: &[Element]) -> Pipeline {
    let mut p = Pipeline::new();
    for &e in elements {
        p.append(e);
    }
    p
}

#[test]
fn fusing_concatenates_the_element_lists() {
    let p = pipeline_of(&[Element::Plus(1), Element::Sort]);
    let t = TerminalSpec::stats_agg().with_element(Element::Abs);
    let fused = try_fuse(p, t);
    assert_eq!(fused.elements, vec![Element::Plus(1), Element::Sort, Element::Abs]);
    assert_eq!(fused.kind, TerminalKind::StatsAgg);
}

#[test]
fn fusing_a_plain_terminal_keeps_the_chain() {
    let p = pipeline_of(&[Element::Times(2)]);
    let fused = try_fuse(p, TerminalSpec::sum());
    assert_eq!(fused.elements, vec![Element::Times(2)]);
    assert_eq!(fused.kind, TerminalKind::Sum);
}

#[test]
fn fused_and_unfused_evaluation_agree() {
    // The fusion equivalence on concrete data: running the fused chain
    // equals evaluating the pipeline first, then the terminal's own chain.
    let rows = pts(&[(4, 25), (1, -10), (3, 20), (2, 15), (5, 30)]);
    let p = pipeline_of(&[Element::Times(2), Element::Sort]);
    let t = TerminalSpec::stats_agg().with_element(Element::Abs);
    let fused = try_fuse(pipeline_of(&[Element::Times(2), Element::Sort]), t);

    let fused_state = run_pipeline_then_stats_agg(rows.clone(), &fused);

    let intermediate = evaluate(&p, rows);
    let terminal_only = FusedPipeline {
        elements: vec![Element::Abs],
        kind: TerminalKind::StatsAgg,
    };
    let unfused_state = run_pipeline_then_stats_agg(intermediate, &terminal_only);

    assert_eq!(fused_state, unfused_state);
}

#[test]
fn sum_average_and_num_vals_terminals() {
    let rows = pts(&[(4, 25), (1, 10), (3, 20), (2, 15), (5, 30)]);
    let sum_fused = try_fuse(Pipeline::new(), TerminalSpec::sum());
    assert_eq!(run_pipeline_then_sum(rows.clone(), &sum_fused), 100);

    let avg_fused = try_fuse(Pipeline::new(), TerminalSpec::average());
    let avg = run_pipeline_then_average(rows.clone(), &avg_fused).unwrap();
    assert_eq!((avg.num, avg.den), (100, 5));

    let count_fused = try_fuse(Pipeline::new(), TerminalSpec::num_vals());
    assert_eq!(run_pipeline_then_num_vals(rows, &count_fused), 5);
}

#[test]
fn average_of_nothing_is_absent() {
    let avg_fused = try_fuse(Pipeline::new(), TerminalSpec::average());
    assert!(run_pipeline_then_average(Vec::new(), &avg_fused).is_none());
}

#[test]
fn counter_terminal_sorts_then_detects_resets() {
    let rows = pts(&[(4, 10), (1, 15), (3, 20), (2, 25), (5, 30)]);
    let t = TerminalSpec::counter_agg(None).unwrap().with_element(Element::Sort);
    let fused = try_fuse(Pipeline::new(), t);
    let state = run_pipeline_then_counter_agg(rows, &fused).unwrap().unwrap();
    assert_eq!(state.resets(), 2);
    assert_eq!(state.reset_sum, 45);
    assert_eq!(state.changes(), 4);
}

#[test]
fn counter_terminal_reports_absence_on_empty_input() {
    let t = TerminalSpec::counter_agg(None).unwrap();
    let fused = try_fuse(Pipeline::new(), t);
    assert_eq!(run_pipeline_then_counter_agg(Vec::new(), &fused), Ok(None));
}

#[test]
fn counter_terminal_refuses_disordered_input() {
    let rows = pts(&[(5, 1), (1, 2)]);
    let t = TerminalSpec::counter_agg(None).unwrap();
    let fused = try_fuse(Pipeline::new(), t);
    assert_eq!(
        run_pipeline_then_counter_agg(rows, &fused),
        Err(CounterError::OutOfOrder)
    );
}

#[test]
fn counter_terminal_carries_its_bounds() {
    let rows = pts(&[(0, 0), (10, 10)]);
    let t = TerminalSpec::counter_agg(Some((0, 20))).unwrap();
    let fused = try_fuse(Pipeline::new(), t);
    let state = run_pipeline_then_counter_agg(rows, &fused).unwrap().unwrap();
    let d = state.extrapolated_delta().unwrap();
    assert_eq!((d.num, d.den), (2000, 100));
}

#[test]
fn bad_counter_bounds_are_refused_at_construction() {
    assert!(matches!(
        TerminalSpec::counter_agg(Some((7, 7))),
        Err(CounterError::BadBounds)
    ));
}

#[test]
fn cardinality_terminal_counts_distinct_transformed_values() {
    let rows = pts(&[
        (1, 10), (2, 15), (3, 20), (4, 25), (5, 30),
        (6, 25), (7, 15), (8, 35), (9, 10), (10, 5),
    ]);
    let t = TerminalSpec::cardinality(7).unwrap();
    let fused = try_fuse(Pipeline::new(), t);
    let sketch = run_pipeline_then_cardinality(rows.clone(), &fused);
    assert_eq!(sketch.count(), 7);

    // An absolute-value step collapses sign pairs before counting.
    let signed = pts(&[(1, -3), (2, 3), (3, 5)]);
    let t2 = TerminalSpec::cardinality(7).unwrap();
    let fused2 = try_fuse(pipeline_of(&[Element::Abs]), t2);
    assert_eq!(run_pipeline_then_cardinality(signed, &fused2).count(), 2);
}

#[test]
fn fused_equivalence_holds_for_the_counter_terminal() {
    let rows = pts(&[(4, 10), (1, 15), (3, 20), (2, 25), (5, 30)]);
    let fused = try_fuse(
        pipeline_of(&[Element::Plus(1)]),
        TerminalSpec::counter_agg(None).unwrap().with_element(Element::Sort),
    );
    let fused_result = run_pipeline_then_counter_agg(rows.clone(), &fused);

    let intermediate = evaluate(&pipeline_of(&[Element::Plus(1)]), rows);
    let terminal_only = FusedPipeline {
        elements: vec![Element::Sort],
        kind: TerminalKind::CounterAgg { bounds: None },
    };
    let unfused_result = run_pipeline_then_counter_agg(intermediate, &terminal_only);
    assert_eq!(fused_result, unfused_result);
}
