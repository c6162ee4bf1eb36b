use nodus::signal::and_gate;
use nodus::signal::not_gate;
use nodus::signal::or_gate;
use nodus::signal::State;
use nodus::signal::Transition;

#[test]
fn and_low_dominates() {
    assert_eq!(Transition::And.apply(&[State::High, State::Low, State::Unknown]), State::Low);
    assert_eq!(Transition::And.apply(&[State::Unknown, State::Low]), State::Low);
    assert_eq!(Transition::And.apply(&[State::Low, State::Unknown]), State::Low);
}

#[test]
fn and_all_high_is_high() {
    assert_eq!(Transition::And.apply(&[State::High, State::High]), State::High);
}

#[test]
fn and_unknown_without_low_is_unknown() {
    assert_eq!(Transition::And.apply(&[State::High, State::Unknown]), State::Unknown);
    assert_eq!(Transition::And.apply(&[State::Unknown, State::High]), State::Unknown);
}

#[test]
fn and_of_nothing_is_high() {
    assert_eq!(and_gate(&[]), State::High);
}

#[test]
fn or_high_dominates() {
    assert_eq!(Transition::Or.apply(&[State::Low, State::High, State::Unknown]), State::High);
    assert_eq!(Transition::Or.apply(&[State::Unknown, State::High]), State::High);
    assert_eq!(Transition::Or.apply(&[State::High, State::Unknown]), State::High);
}

#[test]
fn or_all_low_is_low() {
    assert_eq!(Transition::Or.apply(&[State::Low, State::Low]), State::Low);
}

#[test]
fn or_unknown_without_high_is_unknown() {
    assert_eq!(Transition::Or.apply(&[State::Low, State::Unknown]), State::Unknown);
    assert_eq!(Transition::Or.apply(&[State::Unknown, State::Low]), State::Unknown);
}

#[test]
fn or_of_nothing_is_low() {
    assert_eq!(or_gate(&[]), State::Low);
}

#[test]
fn not_inverts() {
    assert_eq!(Transition::Not.apply(&[State::Unknown]), State::Unknown);
    assert_eq!(Transition::Not.apply(&[State::High]), State::Low);
    assert_eq!(Transition::Not.apply(&[State::Low]), State::High);
}

#[test]
fn not_reads_first_input_only() {
    assert_eq!(not_gate(&[State::High, State::Low]), State::Low);
    assert_eq!(not_gate(&[]), State::Unknown);
}

#[test]
fn constant_ignores_inputs() {
    assert_eq!(Transition::Constant(State::High).apply(&[]), State::High);
    assert_eq!(Transition::Constant(State::Low).apply(&[State::High, State::High]), State::Low);
}

#[test]
fn invert_swaps_high_and_low() {
    assert_eq!(State::High.invert(), State::Low);
    assert_eq!(State::Low.invert(), State::High);
    assert_eq!(State::Unknown.invert(), State::Unknown);
}

#[test]
fn equal_inputs_give_equal_outputs() {
    let rules = [
        Transition::Not,
        Transition::And,
        Transition::Or,
        Transition::Constant(State::High),
    ];
    let values = [State::Unknown, State::High, State::Low];
    for rule in rules {
        for a in values {
            for b in values {
                let first = vec![a, b];
                let second = vec![a, b];
                assert_eq!(rule.apply(&first), rule.apply(&second));
            }
        }
    }
}

#[test]
fn and_matches_truth_table() {
    let values = [State::Unknown, State::High, State::Low];
    for a in values {
        for b in values {
            let expected = if a == State::Low || b == State::Low {
                State::Low
            } else if a == State::Unknown || b == State::Unknown {
                State::Unknown
            } else {
                State::High
            };
            assert_eq!(and_gate(&[a, b]), expected);
        }
    }
}

#[test]
fn or_matches_truth_table() {
    let values = [State::Unknown, State::High, State::Low];
    for a in values {
        for b in values {
            let expected = if a == State::High || b == State::High {
                State::High
            } else if a == State::Unknown || b == State::Unknown {
                State::Unknown
            } else {
                State::Low
            };
            assert_eq!(or_gate(&[a, b]), expected);
        }
    }
}
