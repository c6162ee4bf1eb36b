use nodus::circuit::Circuit;
use nodus::connector::ConnectorType;
use nodus::gate::Gate;
use nodus::gate::NodeRange;
use nodus::model::EditError;
use nodus::signal::State;
use nodus::signal::Transition;

/// Checks by hand what every edit is to keep: gates agree with their
/// connectors, connectors with their lines, lines with the fan-out tables.
fn assert_consistent(c: &Circuit, wires: usize) {
    let mut live = 0;
    let mut listed = 0;
    for g in 0..c.gate_count() {
        let gate = c.gate_of(g).unwrap();
        assert!(gate.in_range.min <= gate.inputs && gate.inputs <= gate.in_range.max);
        assert!(gate.out_range.min <= gate.outputs && gate.outputs <= gate.out_range.max);
        let inputs = gate.inputs as usize;
        let outputs = gate.outputs as usize;
        assert_eq!(c.inputs_of(g).unwrap().0.len(), inputs);
        assert_eq!(c.outputs_of(g).unwrap().0.len(), outputs);
        assert_eq!(c.transitions_of(g).unwrap().0.len(), outputs);
        assert_eq!(c.targets_of(g).unwrap().0.len(), outputs);
        let ports = c.ports_of(g).unwrap();
        assert_eq!(ports.len(), inputs + outputs);
        for (at, port) in ports.iter().enumerate() {
            let p = c.connector(*port).unwrap();
            assert_eq!(p.parent, g);
            if at < inputs {
                assert_eq!(p.ctype, ConnectorType::In);
                assert_eq!(p.index, at);
                assert!(p.connections.0.len() <= 1);
                assert_eq!(p.occupied, p.connections.0.len() == 1);
                assert_eq!(c.is_occupied(*port), p.occupied);
            } else {
                assert_eq!(p.ctype, ConnectorType::Out);
                assert_eq!(p.index, at - inputs);
                assert!(!p.occupied);
                assert!(!c.is_occupied(*port));
            }
            for w in &p.connections.0 {
                let (o, i) = c.endpoints_of(*w).unwrap();
                assert_eq!(if at < inputs { i } else { o }, *port);
            }
        }
        for (k, table) in c.targets_of(g).unwrap().0.iter().enumerate() {
            for (to, slots) in table {
                assert!(!slots.is_empty());
                for (n, j) in slots.iter().enumerate() {
                    assert!(!slots[..n].contains(j));
                    let input = c.ports_of(*to).unwrap()[*j];
                    let p = c.connector(input).unwrap();
                    assert_eq!(p.ctype, ConnectorType::In);
                    assert_eq!(p.connections.0.len(), 1);
                    let (o, i) = c.endpoints_of(p.connections.0[0]).unwrap();
                    assert_eq!(i, input);
                    assert_eq!(o, ports[inputs + k]);
                    listed += 1;
                }
            }
        }
    }
    for w in 0..wires {
        if let Some(line) = c.line(w) {
            live += 1;
            let o = c.connector(line.output.entity).unwrap();
            let i = c.connector(line.input.entity).unwrap();
            assert_eq!(o.ctype, ConnectorType::Out);
            assert_eq!(i.ctype, ConnectorType::In);
            assert_eq!(o.index, line.output.index);
            assert_eq!(i.index, line.input.index);
            assert!(o.connections.0.contains(&w));
            assert_eq!(i.connections.0, vec![w]);
            let table = &c.targets_of(o.parent).unwrap().0[o.index];
            assert!(table.get(&i.parent).unwrap().contains(&i.index));
            assert_eq!(c.state_of(w), Some(c.outputs_of(o.parent).unwrap().0[o.index]));
        }
    }
    assert!(c.line(wires).is_none());
    assert_eq!(live, listed);
}

struct Dice(u64);

impl Dice {
    fn roll(&mut self, sides: usize) -> usize {
        self.0 = self.0.wrapping_mul(6364136223846793005).wrapping_add(1442695040888963407);
        ((self.0 >> 33) as usize) % sides
    }
}

fn build(c: &mut Circuit) {
    Gate::constant(c, "high".to_string(), State::High);
    Gate::constant(c, "low".to_string(), State::Low);
    for n in 0..3 {
        Gate::new(
            c,
            format!("not {}", n),
            NodeRange { min: 1, max: 1 },
            NodeRange { min: 1, max: 3 },
            vec![Transition::Not],
        )
        .unwrap();
        Gate::new(
            c,
            format!("and {}", n),
            NodeRange { min: 2, max: 6 },
            NodeRange { min: 1, max: 1 },
            vec![Transition::And],
        )
        .unwrap();
        Gate::new(
            c,
            format!("or {}", n),
            NodeRange { min: 2, max: 6 },
            NodeRange { min: 1, max: 2 },
            vec![Transition::Or],
        )
        .unwrap();
    }
}

#[test]
fn edits_keep_the_records_in_agreement() {
    for seed in 0..8 {
        let mut dice = Dice(seed);
        let mut c = Circuit::new();
        build(&mut c);
        let mut wires = 0;
        let mut connectors = c.ports_of(c.gate_count() - 1).unwrap().last().unwrap() + 1;
        assert_consistent(&c, wires);
        for _ in 0..400 {
            match dice.roll(6) {
                0 | 1 => {
                    let a = dice.roll(connectors + 1);
                    let b = dice.roll(connectors + 1);
                    let free = !c.is_occupied(a) && !c.is_occupied(b);
                    match (c.connector(a).map(|p| p.ctype), c.connector(b).map(|p| p.ctype)) {
                        (Some(x), Some(y)) if x != y && free => {
                            assert_eq!(c.connect(a, b), Ok(wires));
                            wires += 1;
                        }
                        (Some(x), Some(y)) if x != y => {
                            assert_eq!(c.connect(a, b), Err(EditError::InvariantViolation));
                        }
                        (Some(_), Some(_)) => {
                            assert_eq!(c.connect(a, b), Err(EditError::InvalidDirection));
                        }
                        _ => {
                            assert_eq!(c.connect(a, b), Err(EditError::InvariantViolation));
                        }
                    }
                }
                2 => {
                    let w = dice.roll(wires + 1);
                    let there = c.line(w).is_some();
                    let r = c.disconnect(w);
                    assert_eq!(r.is_ok(), there);
                    assert!(c.line(w).is_none());
                }
                3 => {
                    let g = dice.roll(c.gate_count() + 1);
                    let count = dice.roll(8) as u32;
                    let before = c.gate_of(g);
                    let r = c.resize_inputs(g, count);
                    match before {
                        None => assert_eq!(r, Err(EditError::InvariantViolation)),
                        Some(gate) if gate.in_range.contains(count) => {
                            assert_eq!(r, Ok(()));
                            assert_eq!(c.gate_of(g).unwrap().inputs, count);
                            if count > gate.inputs {
                                connectors += (count - gate.inputs) as usize;
                            }
                        }
                        Some(gate) => {
                            assert_eq!(r, Err(EditError::ArityOutOfRange));
                            assert_eq!(c.gate_of(g), Some(gate));
                        }
                    }
                }
                4 => {
                    let g = dice.roll(c.gate_count() + 1);
                    let count = dice.roll(4) as u32;
                    let before = c.gate_of(g);
                    let r = c.resize_outputs(g, count);
                    match before {
                        None => assert_eq!(r, Err(EditError::InvariantViolation)),
                        Some(gate) if gate.out_range.contains(count) => {
                            assert_eq!(r, Ok(()));
                            assert_eq!(c.gate_of(g).unwrap().outputs, count);
                            if count > gate.outputs {
                                connectors += (count - gate.outputs) as usize;
                            }
                        }
                        Some(gate) => {
                            assert_eq!(r, Err(EditError::ArityOutOfRange));
                            assert_eq!(c.gate_of(g), Some(gate));
                        }
                    }
                }
                _ => c.step(),
            }
            assert_consistent(&c, wires);
        }
    }
}

#[test]
fn step_moves_each_value_over_one_line() {
    for seed in 20..24 {
        let mut dice = Dice(seed);
        let mut c = Circuit::new();
        build(&mut c);
        let connectors = c.ports_of(c.gate_count() - 1).unwrap().last().unwrap() + 1;
        let mut wires = 0;
        for _ in 0..60 {
            if c.connect(dice.roll(connectors), dice.roll(connectors)).is_ok() {
                wires += 1;
            }
        }
        for _ in 0..12 {
            let gates = c.gate_count();
            let inputs: Vec<Vec<State>> =
                (0..gates).map(|g| c.inputs_of(g).unwrap().0.clone()).collect();
            let rules: Vec<Vec<Transition>> =
                (0..gates).map(|g| c.transitions_of(g).unwrap().0.clone()).collect();
            c.step();
            for g in 0..gates {
                let expected: Vec<State> = rules[g].iter().map(|t| t.apply(&inputs[g])).collect();
                assert_eq!(c.outputs_of(g).unwrap().0, expected);
                let now = &c.inputs_of(g).unwrap().0;
                for (j, port) in c.ports_of(g).unwrap().iter().take(now.len()).enumerate() {
                    let p = c.connector(*port).unwrap();
                    match p.connections.0.first() {
                        Some(w) => assert_eq!(Some(now[j]), c.state_of(*w)),
                        None => assert_eq!(now[j], inputs[g][j]),
                    }
                }
            }
            assert_consistent(&c, wires);
        }
    }
}
