use nodus::circuit::Circuit;
use nodus::connector::ConnInfo;
use nodus::connector::ConnectionLine;
use nodus::connector::Connector;
use nodus::connector::ConnectorType;
use nodus::gate::Gate;
use nodus::gate::NodeRange;
use nodus::model::EditError;
use nodus::model::Request;
use nodus::signal::State;
use nodus::signal::Transition;

fn not_gate(c: &mut Circuit) -> usize {
    Gate::new(
        c,
        "NOT Gate".to_string(),
        NodeRange { min: 1, max: 1 },
        NodeRange { min: 1, max: 1 },
        vec![Transition::Not],
    )
    .unwrap()
}

fn and_gate(c: &mut Circuit) -> usize {
    Gate::new(
        c,
        "AND Gate".to_string(),
        NodeRange { min: 2, max: 16 },
        NodeRange { min: 1, max: 1 },
        vec![Transition::And],
    )
    .unwrap()
}

fn or_gate(c: &mut Circuit) -> usize {
    Gate::new(
        c,
        "OR Gate".to_string(),
        NodeRange { min: 2, max: 16 },
        NodeRange { min: 1, max: 1 },
        vec![Transition::Or],
    )
    .unwrap()
}

fn input_port(c: &Circuit, gate: usize, slot: usize) -> usize {
    c.ports_of(gate).unwrap()[slot]
}

fn output_port(c: &Circuit, gate: usize, slot: usize) -> usize {
    let inputs = c.gate_of(gate).unwrap().inputs as usize;
    c.ports_of(gate).unwrap()[inputs + slot]
}

fn outputs(c: &Circuit, gate: usize) -> Vec<State> {
    c.outputs_of(gate).unwrap().0.clone()
}

fn inputs(c: &Circuit, gate: usize) -> Vec<State> {
    c.inputs_of(gate).unwrap().0.clone()
}

#[test]
fn new_circuit_is_empty() {
    let c = Circuit::new();
    assert_eq!(c.gate_count(), 0);
    assert!(c.gate_of(0).is_none());
    assert!(c.ports_of(0).is_none());
    assert!(c.connector(0).is_none());
    assert!(c.line(0).is_none());
    assert!(!c.is_occupied(0));
}

#[test]
fn new_gate_has_minimum_arity() {
    let mut c = Circuit::new();
    let g = and_gate(&mut c);
    assert_eq!(g, 0);
    assert_eq!(c.gate_count(), 1);
    let gate = c.gate_of(g).unwrap();
    assert_eq!(gate.inputs, 2);
    assert_eq!(gate.outputs, 1);
    assert_eq!(gate.in_range, NodeRange { min: 2, max: 16 });
    assert_eq!(gate.out_range, NodeRange { min: 1, max: 1 });
    assert_eq!(c.name_of(g).unwrap().0, "AND Gate");
    assert_eq!(inputs(&c, g), vec![State::Unknown, State::Unknown]);
    assert_eq!(outputs(&c, g), vec![State::Unknown]);
    assert_eq!(c.transitions_of(g).unwrap().0, vec![Transition::And]);
    assert_eq!(c.targets_of(g).unwrap().0.len(), 1);
    assert!(c.targets_of(g).unwrap().0[0].is_empty());
    assert_eq!(c.ports_of(g).unwrap(), vec![0, 1, 2]);
}

#[test]
fn new_gate_has_free_connectors() {
    let mut c = Circuit::new();
    let g = and_gate(&mut c);
    let first = c.connector(0).unwrap();
    assert_eq!(first.ctype, ConnectorType::In);
    assert_eq!(first.index, 0);
    assert_eq!(first.parent, g);
    assert!(!first.occupied);
    assert!(first.connections.0.is_empty());
    let second = c.connector(1).unwrap();
    assert_eq!(second.ctype, ConnectorType::In);
    assert_eq!(second.index, 1);
    let out = c.connector(2).unwrap();
    assert_eq!(out.ctype, ConnectorType::Out);
    assert_eq!(out.index, 0);
    assert_eq!(out.parent, g);
    assert!(!out.occupied);
    assert!(c.connector(3).is_none());
}

#[test]
fn second_gate_gets_next_handles() {
    let mut c = Circuit::new();
    let a = not_gate(&mut c);
    let b = and_gate(&mut c);
    assert_eq!(a, 0);
    assert_eq!(b, 1);
    assert_eq!(c.ports_of(a).unwrap(), vec![0, 1]);
    assert_eq!(c.ports_of(b).unwrap(), vec![2, 3, 4]);
    assert_eq!(c.connector(3).unwrap().parent, b);
}

#[test]
fn gate_with_range_out_of_order_is_refused() {
    let mut c = Circuit::new();
    let r = Gate::new(
        &mut c,
        "bad".to_string(),
        NodeRange { min: 3, max: 2 },
        NodeRange { min: 1, max: 1 },
        vec![Transition::And],
    );
    assert_eq!(r, Err(EditError::ArityOutOfRange));
    let r = Gate::new(
        &mut c,
        "bad".to_string(),
        NodeRange { min: 1, max: 2 },
        NodeRange { min: 2, max: 1 },
        vec![Transition::And, Transition::Or],
    );
    assert_eq!(r, Err(EditError::ArityOutOfRange));
    assert_eq!(c.gate_count(), 0);
    assert!(c.connector(0).is_none());
}

#[test]
fn gate_with_wrong_number_of_rules_is_refused() {
    let mut c = Circuit::new();
    let r = Gate::new(
        &mut c,
        "bad".to_string(),
        NodeRange { min: 1, max: 1 },
        NodeRange { min: 1, max: 1 },
        vec![],
    );
    assert_eq!(r, Err(EditError::ArityOutOfRange));
    let r = Gate::new(
        &mut c,
        "bad".to_string(),
        NodeRange { min: 1, max: 1 },
        NodeRange { min: 1, max: 2 },
        vec![Transition::Not, Transition::Not],
    );
    assert_eq!(r, Err(EditError::ArityOutOfRange));
    assert_eq!(c.gate_count(), 0);
}

#[test]
fn constant_gate_has_no_input_and_one_output() {
    let mut c = Circuit::new();
    let g = Gate::constant(&mut c, "HIGH Const".to_string(), State::High);
    let gate = c.gate_of(g).unwrap();
    assert_eq!(gate.inputs, 0);
    assert_eq!(gate.outputs, 1);
    assert_eq!(gate.in_range, NodeRange { min: 0, max: 0 });
    assert_eq!(gate.out_range, NodeRange { min: 1, max: 1 });
    assert_eq!(c.transitions_of(g).unwrap().0, vec![Transition::Constant(State::High)]);
    assert_eq!(outputs(&c, g), vec![State::Unknown]);
    assert_eq!(c.ports_of(g).unwrap(), vec![0]);
    assert_eq!(c.connector(0).unwrap().ctype, ConnectorType::Out);
    c.step();
    assert_eq!(outputs(&c, g), vec![State::High]);
}

#[test]
fn connector_record_starts_free() {
    let p = Connector::new(ConnectorType::In, 3, 7);
    assert_eq!(p.ctype, ConnectorType::In);
    assert_eq!(p.index, 3);
    assert_eq!(p.parent, 7);
    assert!(!p.occupied);
    assert!(p.connections.0.is_empty());
}

#[test]
fn line_record_keeps_its_ends() {
    let output = ConnInfo { entity: 4, index: 0 };
    let input = ConnInfo { entity: 9, index: 2 };
    let l = ConnectionLine::new(output, input);
    assert_eq!(l.output, output);
    assert_eq!(l.input, input);
}

#[test]
fn connect_records_the_line_everywhere() {
    let mut c = Circuit::new();
    let k = Gate::constant(&mut c, "HIGH Const".to_string(), State::High);
    let n = not_gate(&mut c);
    let o = output_port(&c, k, 0);
    let i = input_port(&c, n, 0);
    let w = c.connect(o, i).unwrap();
    assert_eq!(w, 0);
    assert_eq!(c.endpoints_of(w), Some((o, i)));
    let line = c.line(w).unwrap();
    assert_eq!(line.output, ConnInfo { entity: o, index: 0 });
    assert_eq!(line.input, ConnInfo { entity: i, index: 0 });
    assert!(c.is_occupied(i));
    assert!(!c.is_occupied(o));
    assert_eq!(c.connector(i).unwrap().connections.0, vec![w]);
    assert_eq!(c.connector(o).unwrap().connections.0, vec![w]);
    let table = &c.targets_of(k).unwrap().0[0];
    assert_eq!(table.len(), 1);
    assert_eq!(table.get(&n), Some(&vec![0]));
    assert_eq!(inputs(&c, n), vec![State::Unknown]);
    assert_eq!(outputs(&c, k), vec![State::Unknown]);
}

#[test]
fn connect_takes_the_connectors_in_either_order() {
    let mut c = Circuit::new();
    let k = Gate::constant(&mut c, "LOW Const".to_string(), State::Low);
    let n = not_gate(&mut c);
    let o = output_port(&c, k, 0);
    let i = input_port(&c, n, 0);
    let w = c.connect(i, o).unwrap();
    assert_eq!(c.endpoints_of(w), Some((o, i)));
    assert!(c.is_occupied(i));
    assert_eq!(c.targets_of(k).unwrap().0[0].get(&n), Some(&vec![0]));
}

#[test]
fn connect_two_outputs_is_invalid_direction() {
    let mut c = Circuit::new();
    let a = Gate::constant(&mut c, "HIGH Const".to_string(), State::High);
    let b = Gate::constant(&mut c, "LOW Const".to_string(), State::Low);
    let oa = output_port(&c, a, 0);
    let ob = output_port(&c, b, 0);
    assert_eq!(c.connect(oa, ob), Err(EditError::InvalidDirection));
    assert!(c.line(0).is_none());
    assert!(c.connector(oa).unwrap().connections.0.is_empty());
    assert!(c.connector(ob).unwrap().connections.0.is_empty());
    assert!(c.targets_of(a).unwrap().0[0].is_empty());
    assert!(c.targets_of(b).unwrap().0[0].is_empty());
}

#[test]
fn connect_two_inputs_is_invalid_direction() {
    let mut c = Circuit::new();
    let g = and_gate(&mut c);
    let a = input_port(&c, g, 0);
    let b = input_port(&c, g, 1);
    assert_eq!(c.connect(a, b), Err(EditError::InvalidDirection));
    assert_eq!(c.connect(a, a), Err(EditError::InvalidDirection));
    assert!(!c.is_occupied(a));
    assert!(!c.is_occupied(b));
    assert!(c.line(0).is_none());
}

#[test]
fn connect_unknown_connector_is_invariant_violation() {
    let mut c = Circuit::new();
    let g = not_gate(&mut c);
    let o = output_port(&c, g, 0);
    assert_eq!(c.connect(o, 99), Err(EditError::InvariantViolation));
    assert_eq!(c.connect(99, o), Err(EditError::InvariantViolation));
    assert!(c.line(0).is_none());
}

#[test]
fn connect_occupied_input_is_invariant_violation() {
    let mut c = Circuit::new();
    let a = Gate::constant(&mut c, "HIGH Const".to_string(), State::High);
    let b = Gate::constant(&mut c, "LOW Const".to_string(), State::Low);
    let n = not_gate(&mut c);
    let i = input_port(&c, n, 0);
    let w = c.connect(output_port(&c, a, 0), i).unwrap();
    assert_eq!(c.connect(output_port(&c, b, 0), i), Err(EditError::InvariantViolation));
    assert_eq!(c.connector(i).unwrap().connections.0, vec![w]);
    assert!(c.targets_of(b).unwrap().0[0].is_empty());
    assert!(c.line(w + 1).is_none());
}

#[test]
fn one_output_feeds_many_inputs() {
    let mut c = Circuit::new();
    let k = Gate::constant(&mut c, "HIGH Const".to_string(), State::High);
    let a = and_gate(&mut c);
    let n = not_gate(&mut c);
    let o = output_port(&c, k, 0);
    let w0 = c.connect(o, input_port(&c, a, 0)).unwrap();
    let w1 = c.connect(o, input_port(&c, a, 1)).unwrap();
    let w2 = c.connect(o, input_port(&c, n, 0)).unwrap();
    assert_eq!(c.connector(o).unwrap().connections.0, vec![w0, w1, w2]);
    assert!(!c.is_occupied(o));
    let table = &c.targets_of(k).unwrap().0[0];
    assert_eq!(table.len(), 2);
    assert_eq!(table.get(&a), Some(&vec![0, 1]));
    assert_eq!(table.get(&n), Some(&vec![0]));
    c.step();
    assert_eq!(inputs(&c, a), vec![State::High, State::High]);
    assert_eq!(inputs(&c, n), vec![State::High]);
    c.step();
    assert_eq!(outputs(&c, a), vec![State::High]);
    assert_eq!(outputs(&c, n), vec![State::Low]);
}

#[test]
fn constant_reaches_not_after_two_steps() {
    let mut c = Circuit::new();
    let k = Gate::constant(&mut c, "HIGH Const".to_string(), State::High);
    let n = not_gate(&mut c);
    c.connect(output_port(&c, k, 0), input_port(&c, n, 0)).unwrap();
    c.step();
    assert_eq!(outputs(&c, k), vec![State::High]);
    assert_eq!(inputs(&c, n), vec![State::High]);
    assert_eq!(outputs(&c, n), vec![State::Unknown]);
    c.step();
    assert_eq!(outputs(&c, n), vec![State::Low]);
}

#[test]
fn chain_needs_one_step_per_gate() {
    let mut c = Circuit::new();
    let k = Gate::constant(&mut c, "LOW Const".to_string(), State::Low);
    let a = not_gate(&mut c);
    let b = not_gate(&mut c);
    c.connect(output_port(&c, k, 0), input_port(&c, a, 0)).unwrap();
    c.connect(output_port(&c, a, 0), input_port(&c, b, 0)).unwrap();
    c.step();
    assert_eq!(outputs(&c, a), vec![State::Unknown]);
    assert_eq!(outputs(&c, b), vec![State::Unknown]);
    c.step();
    assert_eq!(outputs(&c, a), vec![State::High]);
    assert_eq!(outputs(&c, b), vec![State::Unknown]);
    c.step();
    assert_eq!(outputs(&c, a), vec![State::High]);
    assert_eq!(outputs(&c, b), vec![State::Low]);
}

#[test]
fn step_reads_inputs_from_before_the_step() {
    let mut c = Circuit::new();
    let a = not_gate(&mut c);
    let b = not_gate(&mut c);
    let k = Gate::constant(&mut c, "HIGH Const".to_string(), State::High);
    c.connect(output_port(&c, a, 0), input_port(&c, b, 0)).unwrap();
    c.connect(output_port(&c, k, 0), input_port(&c, a, 0)).unwrap();
    c.step();
    c.step();
    assert_eq!(outputs(&c, a), vec![State::Low]);
    assert_eq!(inputs(&c, b), vec![State::Low]);
    assert_eq!(outputs(&c, b), vec![State::Unknown]);
    c.step();
    assert_eq!(outputs(&c, b), vec![State::High]);
}

#[test]
fn loop_of_one_not_gate_keeps_stepping() {
    let mut c = Circuit::new();
    let n = not_gate(&mut c);
    c.connect(output_port(&c, n, 0), input_port(&c, n, 0)).unwrap();
    assert_eq!(c.targets_of(n).unwrap().0[0].get(&n), Some(&vec![0]));
    c.step();
    c.step();
    assert_eq!(outputs(&c, n), vec![State::Unknown]);
    assert_eq!(inputs(&c, n), vec![State::Unknown]);
}

#[test]
fn unconnected_input_keeps_its_value() {
    let mut c = Circuit::new();
    let k = Gate::constant(&mut c, "HIGH Const".to_string(), State::High);
    let a = and_gate(&mut c);
    let w = c.connect(output_port(&c, k, 0), input_port(&c, a, 0)).unwrap();
    c.step();
    assert_eq!(inputs(&c, a), vec![State::High, State::Unknown]);
    c.disconnect(w).unwrap();
    c.step();
    assert_eq!(inputs(&c, a), vec![State::High, State::Unknown]);
    assert_eq!(outputs(&c, a), vec![State::Unknown]);
}

#[test]
fn or_gate_in_a_circuit() {
    let mut c = Circuit::new();
    let h = Gate::constant(&mut c, "HIGH Const".to_string(), State::High);
    let l = Gate::constant(&mut c, "LOW Const".to_string(), State::Low);
    let o = or_gate(&mut c);
    c.connect(output_port(&c, l, 0), input_port(&c, o, 0)).unwrap();
    c.step();
    c.step();
    assert_eq!(outputs(&c, o), vec![State::Unknown]);
    c.connect(output_port(&c, h, 0), input_port(&c, o, 1)).unwrap();
    c.step();
    c.step();
    assert_eq!(inputs(&c, o), vec![State::Low, State::High]);
    assert_eq!(outputs(&c, o), vec![State::High]);
}

#[test]
fn line_carries_the_value_of_its_output() {
    let mut c = Circuit::new();
    let k = Gate::constant(&mut c, "LOW Const".to_string(), State::Low);
    let n = not_gate(&mut c);
    let w = c.connect(output_port(&c, k, 0), input_port(&c, n, 0)).unwrap();
    assert_eq!(c.state_of(w), Some(State::Unknown));
    c.step();
    assert_eq!(c.state_of(w), Some(State::Low));
    assert_eq!(c.state_of(w + 1), None);
}

#[test]
fn disconnect_undoes_connect() {
    let mut c = Circuit::new();
    let k = Gate::constant(&mut c, "HIGH Const".to_string(), State::High);
    let n = not_gate(&mut c);
    let o = output_port(&c, k, 0);
    let i = input_port(&c, n, 0);
    let w = c.connect(o, i).unwrap();
    assert_eq!(c.disconnect(w), Ok(()));
    assert!(!c.is_occupied(i));
    assert!(c.connector(i).unwrap().connections.0.is_empty());
    assert!(c.connector(o).unwrap().connections.0.is_empty());
    assert!(c.targets_of(k).unwrap().0[0].is_empty());
    assert!(c.line(w).is_none());
    assert_eq!(c.endpoints_of(w), None);
    let again = c.connect(o, i).unwrap();
    assert_eq!(again, w + 1);
    assert!(c.is_occupied(i));
    assert_eq!(c.endpoints_of(again), Some((o, i)));
    assert_eq!(c.connector(i).unwrap().connections.0, vec![again]);
    assert_eq!(c.connector(o).unwrap().connections.0, vec![again]);
    assert_eq!(c.targets_of(k).unwrap().0[0].get(&n), Some(&vec![0]));
}

#[test]
fn disconnect_keeps_the_other_lines() {
    let mut c = Circuit::new();
    let k = Gate::constant(&mut c, "HIGH Const".to_string(), State::High);
    let a = and_gate(&mut c);
    let o = output_port(&c, k, 0);
    let w0 = c.connect(o, input_port(&c, a, 0)).unwrap();
    let w1 = c.connect(o, input_port(&c, a, 1)).unwrap();
    c.disconnect(w0).unwrap();
    assert_eq!(c.connector(o).unwrap().connections.0, vec![w1]);
    assert_eq!(c.targets_of(k).unwrap().0[0].get(&a), Some(&vec![1]));
    assert!(!c.is_occupied(input_port(&c, a, 0)));
    assert!(c.is_occupied(input_port(&c, a, 1)));
    assert_eq!(c.endpoints_of(w1), Some((o, input_port(&c, a, 1))));
}

#[test]
fn disconnect_unknown_line_is_invariant_violation() {
    let mut c = Circuit::new();
    let k = Gate::constant(&mut c, "HIGH Const".to_string(), State::High);
    let n = not_gate(&mut c);
    assert_eq!(c.disconnect(0), Err(EditError::InvariantViolation));
    let w = c.connect(output_port(&c, k, 0), input_port(&c, n, 0)).unwrap();
    assert_eq!(c.disconnect(w), Ok(()));
    assert_eq!(c.disconnect(w), Err(EditError::InvariantViolation));
}

#[test]
fn shrink_disconnects_the_dropped_input() {
    let mut c = Circuit::new();
    let h = Gate::constant(&mut c, "HIGH Const".to_string(), State::High);
    let l = Gate::constant(&mut c, "LOW Const".to_string(), State::Low);
    let a = and_gate(&mut c);
    assert_eq!(c.resize_inputs(a, 3), Ok(()));
    let i0 = input_port(&c, a, 0);
    let i2 = input_port(&c, a, 2);
    let w0 = c.connect(output_port(&c, h, 0), i0).unwrap();
    let w2 = c.connect(output_port(&c, l, 0), i2).unwrap();
    assert_eq!(c.resize_inputs(a, 2), Ok(()));
    assert!(c.line(w2).is_none());
    assert!(c.connector(i2).is_none());
    assert!(c.targets_of(l).unwrap().0[0].is_empty());
    assert!(c.connector(output_port(&c, l, 0)).unwrap().connections.0.is_empty());
    assert_eq!(c.endpoints_of(w0), Some((output_port(&c, h, 0), i0)));
    assert!(c.is_occupied(i0));
    assert_eq!(c.targets_of(h).unwrap().0[0].get(&a), Some(&vec![0]));
    assert_eq!(c.gate_of(a).unwrap().inputs, 2);
    assert_eq!(inputs(&c, a).len(), 2);
    let ports = c.ports_of(a).unwrap();
    assert_eq!(ports.len(), 3);
    assert_eq!(c.connector(ports[0]).unwrap().ctype, ConnectorType::In);
    assert_eq!(c.connector(ports[1]).unwrap().ctype, ConnectorType::In);
    assert_eq!(c.connector(ports[2]).unwrap().ctype, ConnectorType::Out);
}

#[test]
fn grow_adds_free_inputs() {
    let mut c = Circuit::new();
    let a = and_gate(&mut c);
    assert_eq!(c.resize_inputs(a, 5), Ok(()));
    assert_eq!(c.gate_of(a).unwrap().inputs, 5);
    assert_eq!(inputs(&c, a), vec![State::Unknown; 5]);
    let ports = c.ports_of(a).unwrap();
    assert_eq!(ports, vec![0, 1, 3, 4, 5, 2]);
    for slot in 0..5 {
        let p = c.connector(ports[slot]).unwrap();
        assert_eq!(p.ctype, ConnectorType::In);
        assert_eq!(p.index, slot);
        assert_eq!(p.parent, a);
        assert!(!p.occupied);
    }
}

#[test]
fn shrink_keeps_the_values_of_the_remaining_inputs() {
    let mut c = Circuit::new();
    let h = Gate::constant(&mut c, "HIGH Const".to_string(), State::High);
    let a = and_gate(&mut c);
    c.resize_inputs(a, 3).unwrap();
    c.connect(output_port(&c, h, 0), input_port(&c, a, 1)).unwrap();
    c.step();
    assert_eq!(inputs(&c, a), vec![State::Unknown, State::High, State::Unknown]);
    c.resize_inputs(a, 2).unwrap();
    assert_eq!(inputs(&c, a), vec![State::Unknown, State::High]);
    c.resize_inputs(a, 3).unwrap();
    assert_eq!(inputs(&c, a), vec![State::Unknown, State::High, State::Unknown]);
}

#[test]
fn resize_to_the_same_count_changes_nothing() {
    let mut c = Circuit::new();
    let a = and_gate(&mut c);
    assert_eq!(c.resize_inputs(a, 2), Ok(()));
    assert_eq!(c.ports_of(a).unwrap(), vec![0, 1, 2]);
    assert_eq!(c.gate_of(a).unwrap().inputs, 2);
}

#[test]
fn resize_outside_the_range_is_refused() {
    let mut c = Circuit::new();
    let a = and_gate(&mut c);
    let n = not_gate(&mut c);
    assert_eq!(c.resize_inputs(a, 1), Err(EditError::ArityOutOfRange));
    assert_eq!(c.resize_inputs(a, 17), Err(EditError::ArityOutOfRange));
    assert_eq!(c.resize_inputs(n, 2), Err(EditError::ArityOutOfRange));
    assert_eq!(c.resize_outputs(a, 0), Err(EditError::ArityOutOfRange));
    assert_eq!(c.resize_outputs(a, 2), Err(EditError::ArityOutOfRange));
    assert_eq!(c.gate_of(a).unwrap().inputs, 2);
    assert_eq!(c.gate_of(a).unwrap().outputs, 1);
    assert_eq!(c.ports_of(a).unwrap(), vec![0, 1, 2]);
    assert_eq!(c.resize_inputs(a, 16), Ok(()));
    assert_eq!(c.gate_of(a).unwrap().inputs, 16);
}

#[test]
fn resize_unknown_gate_is_invariant_violation() {
    let mut c = Circuit::new();
    assert_eq!(c.resize_inputs(0, 2), Err(EditError::InvariantViolation));
    assert_eq!(c.resize_outputs(0, 1), Err(EditError::InvariantViolation));
}

#[test]
fn resize_outputs_grows_and_shrinks() {
    let mut c = Circuit::new();
    let s = Gate::new(
        &mut c,
        "Splitter".to_string(),
        NodeRange { min: 1, max: 1 },
        NodeRange { min: 1, max: 3 },
        vec![Transition::Not],
    )
    .unwrap();
    let a = and_gate(&mut c);
    assert_eq!(c.resize_outputs(s, 3), Ok(()));
    assert_eq!(c.gate_of(s).unwrap().outputs, 3);
    assert_eq!(outputs(&c, s), vec![State::Unknown; 3]);
    assert_eq!(
        c.transitions_of(s).unwrap().0,
        vec![
            Transition::Not,
            Transition::Constant(State::Unknown),
            Transition::Constant(State::Unknown)
        ]
    );
    assert_eq!(c.targets_of(s).unwrap().0.len(), 3);
    let o0 = output_port(&c, s, 0);
    let o2 = output_port(&c, s, 2);
    assert_eq!(c.connector(o2).unwrap().ctype, ConnectorType::Out);
    assert_eq!(c.connector(o2).unwrap().index, 2);
    let w0 = c.connect(o0, input_port(&c, a, 0)).unwrap();
    let w2 = c.connect(o2, input_port(&c, a, 1)).unwrap();
    assert_eq!(c.resize_outputs(s, 1), Ok(()));
    assert_eq!(c.gate_of(s).unwrap().outputs, 1);
    assert_eq!(outputs(&c, s).len(), 1);
    assert_eq!(c.transitions_of(s).unwrap().0, vec![Transition::Not]);
    assert_eq!(c.targets_of(s).unwrap().0.len(), 1);
    assert!(c.connector(o2).is_none());
    assert!(c.line(w2).is_none());
    assert!(!c.is_occupied(input_port(&c, a, 1)));
    assert!(c.is_occupied(input_port(&c, a, 0)));
    assert_eq!(c.endpoints_of(w0), Some((o0, input_port(&c, a, 0))));
    assert_eq!(c.targets_of(s).unwrap().0[0].get(&a), Some(&vec![0]));
}

#[test]
fn dropped_output_loses_all_its_lines() {
    let mut c = Circuit::new();
    let s = Gate::new(
        &mut c,
        "Source".to_string(),
        NodeRange { min: 0, max: 0 },
        NodeRange { min: 0, max: 1 },
        vec![],
    )
    .unwrap();
    let a = and_gate(&mut c);
    assert_eq!(c.gate_of(s).unwrap().outputs, 0);
    c.resize_outputs(s, 1).unwrap();
    let o = output_port(&c, s, 0);
    let w0 = c.connect(o, input_port(&c, a, 0)).unwrap();
    let w1 = c.connect(o, input_port(&c, a, 1)).unwrap();
    c.resize_outputs(s, 0).unwrap();
    assert!(c.line(w0).is_none());
    assert!(c.line(w1).is_none());
    assert!(c.connector(o).is_none());
    assert!(!c.is_occupied(input_port(&c, a, 0)));
    assert!(!c.is_occupied(input_port(&c, a, 1)));
    assert_eq!(c.ports_of(s).unwrap(), Vec::<usize>::new());
    c.step();
    assert_eq!(inputs(&c, a), vec![State::Unknown, State::Unknown]);
}

#[test]
fn serve_answers_like_the_operations() {
    let mut c = Circuit::new();
    let k = Gate::constant(&mut c, "HIGH Const".to_string(), State::High);
    let a = and_gate(&mut c);
    let o = output_port(&c, k, 0);
    let i = input_port(&c, a, 1);
    assert_eq!(c.serve(Request::Connect { from: i, to: o }), Ok(Some(0)));
    assert_eq!(c.endpoints_of(0), Some((o, i)));
    assert_eq!(
        c.serve(Request::Connect { from: o, to: i }),
        Err(EditError::InvariantViolation)
    );
    assert_eq!(
        c.serve(Request::Connect { from: o, to: o }),
        Err(EditError::InvalidDirection)
    );
    assert_eq!(c.serve(Request::ResizeInputs { gate: a, count: 3 }), Ok(None));
    assert_eq!(c.gate_of(a).unwrap().inputs, 3);
    assert_eq!(
        c.serve(Request::ResizeInputs { gate: a, count: 40 }),
        Err(EditError::ArityOutOfRange)
    );
    assert_eq!(c.serve(Request::Disconnect { wire: 0 }), Ok(None));
    assert!(c.line(0).is_none());
    assert_eq!(
        c.serve(Request::Disconnect { wire: 0 }),
        Err(EditError::InvariantViolation)
    );
}

#[test]
fn gate_tells_which_input_counts_to_ask_for() {
    let fixed = Gate {
        inputs: 1,
        outputs: 1,
        in_range: NodeRange { min: 1, max: 1 },
        out_range: NodeRange { min: 1, max: 1 },
    };
    assert!(!fixed.is_resizable());
    assert_eq!(fixed.fewer_inputs(), None);
    assert_eq!(fixed.more_inputs(), None);
    let low = Gate {
        inputs: 2,
        outputs: 1,
        in_range: NodeRange { min: 2, max: 16 },
        out_range: NodeRange { min: 1, max: 1 },
    };
    assert!(low.is_resizable());
    assert_eq!(low.fewer_inputs(), None);
    assert_eq!(low.more_inputs(), Some(3));
    let high = Gate { inputs: 16, ..low };
    assert_eq!(high.fewer_inputs(), Some(15));
    assert_eq!(high.more_inputs(), None);
    let middle = Gate { inputs: 7, ..low };
    assert_eq!(middle.fewer_inputs(), Some(6));
    assert_eq!(middle.more_inputs(), Some(8));
}

#[test]
fn range_contains_its_bounds() {
    let r = NodeRange { min: 2, max: 16 };
    assert!(r.contains(2));
    assert!(r.contains(16));
    assert!(r.contains(9));
    assert!(!r.contains(1));
    assert!(!r.contains(17));
}
