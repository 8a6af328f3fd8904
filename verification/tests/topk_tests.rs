use tvagg::topk::{Direction, TopKError, TopKState};

fn keys<P>(v: &[(i64, P)]) -> Vec<i64> {
    v.iter().map(|x| x.0).collect()
}

fn retained_set(state: &TopKState<&'static str>) -> Vec<(i64, &'static str)> {
    let mut v = state.kept.clone();
    v.sort();
    v
}

#[test]
fn zero_capacity_is_a_configuration_error() {
    let r: Result<TopKState<u32>, TopKError> = TopKState::new(0, Direction::Largest);
    assert!(matches!(r, Err(TopKError::ZeroCapacity)));
}

#[test]
fn inserts_below_capacity_are_admitted_unconditionally() {
    let mut s: TopKState<&str> = TopKState::new(3, Direction::Largest).unwrap();
    s.insert(1, "a");
    s.insert(9, "b");
    s.insert(5, "c");
    assert_eq!(s.len(), 3);
    assert_eq!(keys(&s.kept), vec![1, 9, 5]);
}

#[test]
fn a_strictly_better_key_evicts_the_worst() {
    let mut s: TopKState<&str> = TopKState::new(2, Direction::Largest).unwrap();
    s.insert(1, "a");
    s.insert(9, "b");
    s.insert(5, "c");
    let mut got = keys(&s.kept);
    got.sort();
    assert_eq!(got, vec![5, 9]);
}

#[test]
fn an_equal_key_is_not_admitted_at_capacity() {
    let mut s: TopKState<&str> = TopKState::new(1, Direction::Largest).unwrap();
    s.insert(5, "first");
    s.insert(5, "second");
    assert_eq!(s.kept, vec![(5, "first")]);
}

#[test]
fn smallest_direction_keeps_the_low_keys() {
    let mut s: TopKState<&str> = TopKState::new(2, Direction::Smallest).unwrap();
    s.insert(4, "a");
    s.insert(1, "b");
    s.insert(3, "c");
    let mut got = keys(&s.kept);
    got.sort();
    assert_eq!(got, vec![1, 3]);
}

#[test]
fn capacity_is_never_exceeded() {
    let mut s: TopKState<i64> = TopKState::new(4, Direction::Largest).unwrap();
    for k in 0..100 {
        s.insert(k % 37, k);
        assert!(s.len() <= 4);
    }
    let mut t: TopKState<i64> = TopKState::new(4, Direction::Largest).unwrap();
    for k in 0..50 {
        t.insert(3 * k % 41, k);
    }
    t.merge(s).unwrap();
    assert!(t.len() <= 4);
}

#[test]
fn merge_behaves_like_inserting_every_pair() {
    let mut a: TopKState<&str> = TopKState::new(2, Direction::Largest).unwrap();
    a.insert(1, "a1");
    a.insert(5, "a5");
    let mut b: TopKState<&str> = TopKState::new(2, Direction::Largest).unwrap();
    b.insert(3, "b3");
    b.insert(7, "b7");
    let mut by_merge = a;
    let mut by_inserts: TopKState<&str> = TopKState::new(2, Direction::Largest).unwrap();
    by_inserts.insert(1, "a1");
    by_inserts.insert(5, "a5");
    by_inserts.insert(3, "b3");
    by_inserts.insert(7, "b7");
    by_merge.merge(b).unwrap();
    assert_eq!(by_merge.kept, by_inserts.kept);
}

#[test]
fn merge_is_commutative_on_retained_sets() {
    let build = |items: &[(i64, &'static str)]| {
        let mut s: TopKState<&str> = TopKState::new(2, Direction::Largest).unwrap();
        for &(k, p) in items {
            s.insert(k, p);
        }
        s
    };
    let ab = {
        let mut x = build(&[(1, "a"), (5, "b")]);
        x.merge(build(&[(3, "c"), (7, "d")])).unwrap();
        x
    };
    let ba = {
        let mut x = build(&[(3, "c"), (7, "d")]);
        x.merge(build(&[(1, "a"), (5, "b")])).unwrap();
        x
    };
    assert_eq!(retained_set(&ab), retained_set(&ba));
    assert_eq!(retained_set(&ab), vec![(5, "b"), (7, "d")]);
}

#[test]
fn merge_is_associative_on_retained_sets() {
    let build = |items: &[(i64, &'static str)]| {
        let mut s: TopKState<&str> = TopKState::new(2, Direction::Largest).unwrap();
        for &(k, p) in items {
            s.insert(k, p);
        }
        s
    };
    let left = {
        let mut x = build(&[(1, "a"), (4, "b")]);
        x.merge(build(&[(2, "c"), (6, "d")])).unwrap();
        x.merge(build(&[(3, "e"), (5, "f")])).unwrap();
        x
    };
    let right = {
        let mut bc = build(&[(2, "c"), (6, "d")]);
        bc.merge(build(&[(3, "e"), (5, "f")])).unwrap();
        let mut x = build(&[(1, "a"), (4, "b")]);
        x.merge(bc).unwrap();
        x
    };
    assert_eq!(retained_set(&left), retained_set(&right));
    assert_eq!(retained_set(&left), vec![(5, "f"), (6, "d")]);
}

#[test]
fn mismatched_states_are_refused() {
    let mut a: TopKState<u8> = TopKState::new(2, Direction::Largest).unwrap();
    let b: TopKState<u8> = TopKState::new(3, Direction::Largest).unwrap();
    assert_eq!(a.merge(b), Err(TopKError::MismatchedStates));
    let c: TopKState<u8> = TopKState::new(2, Direction::Smallest).unwrap();
    assert_eq!(a.merge(c), Err(TopKError::MismatchedStates));
}

#[test]
fn finalize_sorts_best_first_with_ties_in_insertion_order() {
    let mut s: TopKState<&str> = TopKState::new(4, Direction::Largest).unwrap();
    s.insert(5, "early");
    s.insert(7, "top");
    s.insert(5, "late");
    s.insert(2, "low");
    let out = s.finalize();
    assert_eq!(out, vec![(7, "top"), (5, "early"), (5, "late"), (2, "low")]);
}

#[test]
fn finalize_smallest_first_under_the_smallest_direction() {
    let mut s: TopKState<&str> = TopKState::new(3, Direction::Smallest).unwrap();
    s.insert(9, "c");
    s.insert(2, "a");
    s.insert(4, "b");
    let out = s.finalize();
    assert_eq!(out, vec![(2, "a"), (4, "b"), (9, "c")]);
}

#[test]
fn finalize_is_a_function_of_the_state() {
    let build = || {
        let mut s: TopKState<&str> = TopKState::new(3, Direction::Largest).unwrap();
        s.insert(1, "x");
        s.insert(8, "y");
        s
    };
    assert_eq!(build().finalize(), build().finalize());
}
