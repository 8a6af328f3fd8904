use tvagg::codec::{decode_counter, decode_fused, decode_stats, encode_counter, encode_fused,
    encode_stats, DecodeError};
use tvagg::counter::CounterState;
use tvagg::fuse::{try_fuse, FusedPipeline, TerminalKind, TerminalSpec};
use tvagg::pipeline::{Element, Pipeline};
use tvagg::stats::StatsState;
use tvagg::Point;

fn stats_of(values: &[i64]) -> StatsState {
    let pts: Vec<Point> = values.iter().enumerate().map(|(i, &v)| Point {
        ts: i as i64,
        val: v,
    }).collect();
    StatsState::from_points(&pts)
}

#[test]
fn stats_round_trip() {
    let st = stats_of(&[25, 10, 20, 15, 30, -7]);
    let bytes = encode_stats(&st);
    assert_eq!(decode_stats(&bytes), Ok(st));
}

#[test]
fn stats_encoding_leads_with_the_version_tag() {
    let bytes = encode_stats(&StatsState::new());
    assert_eq!(bytes[0], 1);
    assert_eq!(bytes.len(), 73);
}

#[test]
fn stats_decode_refuses_unknown_versions() {
    let mut bytes = encode_stats(&stats_of(&[1, 2, 3]));
    bytes[0] = 9;
    assert_eq!(decode_stats(&bytes), Err(DecodeError::UnknownVersion));
}

#[test]
fn stats_decode_refuses_wrong_lengths() {
    let mut bytes = encode_stats(&stats_of(&[1, 2, 3]));
    bytes.pop();
    assert_eq!(decode_stats(&bytes), Err(DecodeError::BadLength));
    assert_eq!(decode_stats(&Vec::new()), Err(DecodeError::BadLength));
}

#[test]
fn fused_round_trip_with_every_element() {
    let mut p = Pipeline::new();
    for e in [
        Element::Plus(-3),
        Element::Minus(i64::MAX),
        Element::Times(17),
        Element::Abs,
        Element::Ceil,
        Element::Floor,
        Element::Sort,
    ] {
        p.append(e);
    }
    let f = try_fuse(p, TerminalSpec::stats_agg());
    let bytes = encode_fused(&f);
    let back = decode_fused(&bytes).unwrap();
    assert_eq!(back.elements, f.elements);
    assert_eq!(back.kind, f.kind);
}

#[test]
fn fused_round_trip_for_every_terminal_kind() {
    let kinds = [
        TerminalSpec::sum().kind,
        TerminalSpec::average().kind,
        TerminalSpec::num_vals().kind,
        TerminalSpec::stats_agg().kind,
        TerminalSpec::counter_agg(None).unwrap().kind,
        TerminalSpec::counter_agg(Some((-5, 90))).unwrap().kind,
        TerminalSpec::cardinality(11).unwrap().kind,
    ];
    for kind in kinds {
        let f = FusedPipeline { elements: vec![Element::Plus(2)], kind };
        let back = decode_fused(&encode_fused(&f)).unwrap();
        assert_eq!(back.kind, kind);
        assert_eq!(back.elements, f.elements);
    }
}

#[test]
fn fused_decode_refuses_unknown_versions_and_lengths() {
    let f = FusedPipeline { elements: Vec::new(), kind: TerminalKind::Sum };
    let mut bytes = encode_fused(&f);
    bytes[0] = 2;
    assert!(matches!(decode_fused(&bytes), Err(DecodeError::UnknownVersion)));
    let short = vec![1u8, 0, 0];
    assert!(matches!(decode_fused(&short), Err(DecodeError::BadLength)));
}

#[test]
fn fused_decode_refuses_malformed_payloads() {
    let f = FusedPipeline {
        elements: vec![Element::Abs],
        kind: TerminalKind::Sum,
    };
    let mut bytes = encode_fused(&f);
    // An unknown terminal tag.
    let mut bad_kind = bytes.clone();
    bad_kind[1] = 200;
    assert!(matches!(decode_fused(&bad_kind), Err(DecodeError::Malformed)));
    // A non-zero operand under an element that takes none.
    let rhs_first = bytes.len() - 8;
    bytes[rhs_first] = 1;
    assert!(matches!(decode_fused(&bytes), Err(DecodeError::Malformed)));
}

#[test]
fn fused_decode_refuses_invalid_counter_bounds() {
    let good = FusedPipeline {
        elements: Vec::new(),
        kind: TerminalKind::CounterAgg {
            bounds: Some(tvagg::CounterBounds { left: 1, right: 5 }),
        },
    };
    let mut bytes = encode_fused(&good);
    // Swap the bounds so that left is no longer below right.
    let left: Vec<u8> = bytes[3..11].to_vec();
    let right: Vec<u8> = bytes[11..19].to_vec();
    bytes[3..11].copy_from_slice(&right);
    bytes[11..19].copy_from_slice(&left);
    assert!(matches!(decode_fused(&bytes), Err(DecodeError::Malformed)));
}

#[test]
fn counter_round_trip() {
    let mut st = CounterState::new(Point { ts: 1, val: 15 });
    for p in [(2i64, 25i64), (3, 20), (4, 10), (5, 30)] {
        st.accumulate(Point { ts: p.0, val: p.1 });
    }
    let st = st.with_bounds(0, 100).unwrap();
    let bytes = encode_counter(&st);
    assert_eq!(bytes[0], 1);
    assert_eq!(decode_counter(&bytes), Ok(st));
}

#[test]
fn counter_decode_refuses_inconsistent_points() {
    let mut st = CounterState::new(Point { ts: 1, val: 15 });
    st.accumulate(Point { ts: 2, val: 25 });
    let good = encode_counter(&st);
    // Swap the first and last points: time order breaks, and the decoder
    // must refuse the blob instead of rebuilding a nonsensical state.
    let mut bad = good.clone();
    let first: Vec<u8> = good[9..25].to_vec();
    let last: Vec<u8> = good[57..73].to_vec();
    bad[9..25].copy_from_slice(&last);
    bad[57..73].copy_from_slice(&first);
    assert_eq!(decode_counter(&bad), Err(DecodeError::Malformed));
}
