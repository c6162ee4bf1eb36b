//! The mathematical model of a circuit: what a circuit is as a value, when
//! it is consistent, and what each operation makes of it.

use vstd::prelude::*;

use crate::connector::ConnInfo;
use crate::connector::ConnectionLine;
use crate::connector::ConnectorType;
use crate::connector::PortView;
use crate::gate::Gate;
use crate::gate::NodeRange;
use crate::signal::State;
use crate::signal::Transition;

verus! {

/// Why an edit was refused.
#[derive(Debug, Copy, Clone, PartialEq, Eq, Structural)]
pub enum EditError {
    /// The two connectors to be connected have the same direction.
    InvalidDirection,
    /// The requested number of inputs or outputs lies outside that gate's
    /// range.
    ArityOutOfRange,
    /// A handle names nothing that exists, or the edit would break the
    /// rule that an input carries at most one line.
    InvariantViolation,
}

/// What the interaction layer may ask of a circuit.
#[derive(Debug, Copy, Clone, PartialEq, Eq, Structural)]
pub enum Request {
    /// Lay a line between two connectors.
    Connect { from: usize, to: usize },
    /// Take a line away.
    Disconnect { wire: usize },
    /// Give a gate another number of inputs.
    ResizeInputs { gate: usize, count: u32 },
}

/// The mathematical value of one gate.
pub struct GateView {
    pub name: Seq<char>,
    pub gate: Gate,
    pub inputs: Seq<State>,
    pub outputs: Seq<State>,
    pub transitions: Seq<Transition>,
    /// For each output slot, the gates fed by it with the input slots fed.
    pub targets: Seq<Map<usize, Seq<usize>>>,
    /// The input connector of each input slot.
    pub in_ports: Seq<usize>,
    /// The output connector of each output slot.
    pub out_ports: Seq<usize>,
}

/// The mathematical value of a circuit. Handles are positions: a gate's
/// handle in `gates`, a connector's in `ports`, a line's in `wires`. A
/// connector or line that was destroyed leaves `None` behind, so a handle
/// is never given out twice.
pub struct CircuitView {
    pub gates: Seq<GateView>,
    pub ports: Seq<Option<PortView>>,
    pub wires: Seq<Option<ConnectionLine>>,
}

/// The fan-out map `tm` after slot `j` of gate `to` was added to it.
pub open spec fn add_target(tm: Map<usize, Seq<usize>>, to: usize, j: usize) -> Map<
    usize,
    Seq<usize>,
> {
    let list = if tm.contains_key(to) {
        tm[to]
    } else {
        Seq::empty()
    };
    tm.insert(to, list.push(j))
}

/// The fan-out map `tm` after slot `j` of gate `to` was taken out of it.
/// A gate whose list becomes empty leaves the map.
pub open spec fn remove_target(tm: Map<usize, Seq<usize>>, to: usize, j: usize) -> Map<
    usize,
    Seq<usize>,
> {
    if tm.contains_key(to) {
        let list = tm[to].remove_value(j);
        if list.len() == 0 {
            tm.remove(to)
        } else {
            tm.insert(to, list)
        }
    } else {
        tm
    }
}

impl GateView {
    /// A gate with the given name, ranges and no input or output yet.
    pub open spec fn bare(name: Seq<char>, in_range: NodeRange, out_range: NodeRange) -> GateView {
        GateView {
            name,
            gate: Gate { inputs: 0, outputs: 0, in_range, out_range },
            inputs: Seq::empty(),
            outputs: Seq::empty(),
            transitions: Seq::empty(),
            targets: Seq::empty(),
            in_ports: Seq::empty(),
            out_ports: Seq::empty(),
        }
    }

    /// Whether the numbers of inputs and outputs lie within their ranges.
    pub open spec fn in_range(self) -> bool {
        &&& self.gate.in_range.holds(self.gate.inputs as int)
        &&& self.gate.out_range.holds(self.gate.outputs as int)
    }
}

impl CircuitView {
    /// The circuit without any gate.
    pub open spec fn empty() -> CircuitView {
        CircuitView { gates: Seq::empty(), ports: Seq::empty(), wires: Seq::empty() }
    }

    /// Whether `g` is the handle of a gate.
    pub open spec fn has_gate(self, g: usize) -> bool {
        (g as int) < self.gates.len()
    }

    /// The record of gate `g`.
    pub open spec fn gate(self, g: usize) -> GateView {
        self.gates[g as int]
    }

    /// Whether `h` is the handle of a connector that exists.
    pub open spec fn has_port(self, h: usize) -> bool {
        (h as int) < self.ports.len() && self.ports[h as int] is Some
    }

    /// The record of connector `h`.
    pub open spec fn port(self, h: usize) -> PortView {
        self.ports[h as int]->0
    }

    /// Whether `w` is the handle of a connection line that exists.
    pub open spec fn has_wire(self, w: usize) -> bool {
        (w as int) < self.wires.len() && self.wires[w as int] is Some
    }

    /// The record of connection line `w`.
    pub open spec fn wire(self, w: usize) -> ConnectionLine {
        self.wires[w as int]->0
    }

    /// Whether connector `h` is occupied; a handle that names no connector
    /// is not.
    pub open spec fn is_occupied(self, h: usize) -> bool {
        self.has_port(h) && self.port(h).occupied
    }

    /// The output that drives input slot `j` of gate `to`, as a gate and
    /// one of its output slots, if a line is attached to that input.
    pub open spec fn source(self, to: usize, j: usize) -> Option<(usize, usize)> {
        let p = self.port(self.gate(to).in_ports[j as int]);
        if p.connections.len() == 1 {
            let o = self.port(self.wire(p.connections[0]).output.entity);
            Some((o.parent, o.index))
        } else {
            None
        }
    }

    /// Whether a line leads from output slot `k` of gate `g` to input slot
    /// `j` of gate `to`.
    pub open spec fn feeds(self, g: usize, k: usize, to: usize, j: usize) -> bool {
        &&& self.has_gate(to)
        &&& (j as int) < self.gate(to).in_ports.len()
        &&& self.source(to, j) == Some((g, k))
    }

    /// Whether the fan-out table of output slot `k` of gate `g` lists input
    /// slot `j` of gate `to`.
    pub open spec fn listed(self, g: usize, k: usize, to: usize, j: usize) -> bool {
        let tm = self.gate(g).targets[k as int];
        tm.contains_key(to) && tm[to].contains(j)
    }

    // ----- consistency -----
    /// Whether `h` is the live connector of type `ctype` for slot `index`
    /// of gate `g`.
    pub open spec fn is_port_of(
        self,
        h: usize,
        ctype: ConnectorType,
        g: usize,
        index: int,
    ) -> bool {
        &&& self.has_port(h)
        &&& self.port(h).ctype == ctype
        &&& self.port(h).parent == g
        &&& self.port(h).index == index
    }

    /// Whether `w` is a live line that ends in connector `h`, on the side
    /// that `ctype` tells.
    pub open spec fn attached(self, w: usize, h: usize, ctype: ConnectorType) -> bool {
        &&& self.has_wire(w)
        &&& match ctype {
            ConnectorType::In => self.wire(w).input.entity == h,
            ConnectorType::Out => self.wire(w).output.entity == h,
        }
    }

    /// Gate `g` has one value, one rule, one fan-out map and one live
    /// connector per slot.
    pub open spec fn gate_ok(self, g: usize) -> bool {
        let n = self.gate(g);
        &&& n.inputs.len() == n.gate.inputs
        &&& n.in_ports.len() == n.gate.inputs
        &&& n.outputs.len() == n.gate.outputs
        &&& n.transitions.len() == n.gate.outputs
        &&& n.targets.len() == n.gate.outputs
        &&& n.out_ports.len() == n.gate.outputs
        &&& forall|j: int|
            0 <= j < n.in_ports.len() ==> self.is_port_of(
                #[trigger] n.in_ports[j],
                ConnectorType::In,
                g,
                j,
            )
        &&& forall|k: int|
            0 <= k < n.out_ports.len() ==> self.is_port_of(
                #[trigger] n.out_ports[k],
                ConnectorType::Out,
                g,
                k,
            )
    }

    /// Connector `h` belongs to a gate that knows it, carries at most one
    /// line if it is an input, and is occupied exactly when it is an input
    /// that carries a line; each line attached to it exists and ends in it.
    pub open spec fn port_ok(self, h: usize) -> bool {
        let p = self.port(h);
        &&& self.has_gate(p.parent)
        &&& match p.ctype {
            ConnectorType::In => {
                &&& (p.index as int) < self.gate(p.parent).in_ports.len()
                &&& self.gate(p.parent).in_ports[p.index as int] == h
                &&& p.connections.len() <= 1
                &&& (p.occupied <==> p.connections.len() == 1)
            },
            ConnectorType::Out => {
                &&& (p.index as int) < self.gate(p.parent).out_ports.len()
                &&& self.gate(p.parent).out_ports[p.index as int] == h
                &&& !p.occupied
                &&& p.connections.no_duplicates()
            },
        }
        &&& forall|x: int|
            0 <= x < p.connections.len() ==> self.attached(#[trigger] p.connections[x], h, p.ctype)
    }

    /// Line `w` leads from a live output connector to a live input
    /// connector, records their slots, and both connectors know it.
    pub open spec fn wire_ok(self, w: usize) -> bool {
        let l = self.wire(w);
        &&& self.has_port(l.output.entity)
        &&& self.port(l.output.entity).ctype == ConnectorType::Out
        &&& self.port(l.output.entity).index == l.output.index
        &&& self.port(l.output.entity).connections.contains(w)
        &&& self.has_port(l.input.entity)
        &&& self.port(l.input.entity).ctype == ConnectorType::In
        &&& self.port(l.input.entity).index == l.input.index
        &&& self.port(l.input.entity).connections.contains(w)
    }

    /// The fan-out table of output slot `k` of gate `g` lists an input slot
    /// exactly when a line leads from that output to that input; no list is
    /// empty and none names a slot twice.
    pub open spec fn fanout_ok(self, g: usize, k: usize) -> bool {
        let tm = self.gate(g).targets[k as int];
        &&& forall|to: usize|
            tm.contains_key(to) ==> (#[trigger] tm[to]).len() > 0 && tm[to].no_duplicates()
        &&& forall|to: usize, j: usize|
            #![trigger self.listed(g, k, to, j)]
            #![trigger self.feeds(g, k, to, j)]
            self.listed(g, k, to, j) <==> self.feeds(g, k, to, j)
    }

    /// The records of the circuit agree with each other: gates with their
    /// connectors, connectors with their lines, lines with the fan-out
    /// tables.
    pub open spec fn linked(self) -> bool {
        &&& self.gates.len() <= usize::MAX
        &&& self.ports.len() <= usize::MAX
        &&& self.wires.len() <= usize::MAX
        &&& forall|g: usize| self.has_gate(g) ==> #[trigger] self.gate_ok(g)
        &&& forall|h: usize| self.has_port(h) ==> #[trigger] self.port_ok(h)
        &&& forall|w: usize| self.has_wire(w) ==> #[trigger] self.wire_ok(w)
        &&& forall|g: usize, k: usize|
            self.has_gate(g) && (k as int) < self.gate(g).targets.len()
                ==> #[trigger] self.fanout_ok(g, k)
    }

    /// The circuit is well formed: its records agree with each other and
    /// every gate has a number of inputs and of outputs within its ranges.
    pub open spec fn wf(self) -> bool {
        &&& self.linked()
        &&& forall|g: usize| self.has_gate(g) ==> (#[trigger] self.gate(g)).in_range()
    }

    // ----- building -----
    /// The circuit with one more gate that has no input or output yet.
    pub open spec fn push_gate(
        self,
        name: Seq<char>,
        in_range: NodeRange,
        out_range: NodeRange,
    ) -> CircuitView {
        CircuitView { gates: self.gates.push(GateView::bare(name, in_range, out_range)), ..self }
    }

    /// The circuit after gate `g` got one more input slot with a new, free
    /// connector; the new input holds `Unknown`.
    pub open spec fn add_input(self, g: usize) -> CircuitView {
        let n = self.gate(g);
        let h = self.ports.len() as usize;
        CircuitView {
            gates: self.gates.update(
                g as int,
                GateView {
                    gate: Gate { inputs: (n.gate.inputs + 1) as u32, ..n.gate },
                    inputs: n.inputs.push(State::Unknown),
                    in_ports: n.in_ports.push(h),
                    ..n
                },
            ),
            ports: self.ports.push(
                Some(PortView::fresh(ConnectorType::In, n.in_ports.len() as usize, g)),
            ),
            wires: self.wires,
        }
    }

    /// The circuit after gate `g` got one more output slot, computed by
    /// rule `t`, with a new connector; the new output holds `Unknown` and
    /// feeds nothing.
    pub open spec fn add_output(self, g: usize, t: Transition) -> CircuitView {
        let n = self.gate(g);
        let h = self.ports.len() as usize;
        CircuitView {
            gates: self.gates.update(
                g as int,
                GateView {
                    gate: Gate { outputs: (n.gate.outputs + 1) as u32, ..n.gate },
                    outputs: n.outputs.push(State::Unknown),
                    transitions: n.transitions.push(t),
                    targets: n.targets.push(Map::empty()),
                    out_ports: n.out_ports.push(h),
                    ..n
                },
            ),
            ports: self.ports.push(
                Some(PortView::fresh(ConnectorType::Out, n.out_ports.len() as usize, g)),
            ),
            wires: self.wires,
        }
    }

    /// The circuit after `count` input slots were added to gate `g`.
    pub open spec fn add_inputs(self, g: usize, count: nat) -> CircuitView
        decreases count,
    {
        if count == 0 {
            self
        } else {
            self.add_input(g).add_inputs(g, (count - 1) as nat)
        }
    }

    /// The circuit after gate `g` got one output slot for each rule of
    /// `rules`, in their order.
    pub open spec fn add_outputs(self, g: usize, rules: Seq<Transition>) -> CircuitView
        decreases rules.len(),
    {
        if rules.len() == 0 {
            self
        } else {
            self.add_output(g, rules[0]).add_outputs(g, rules.drop_first())
        }
    }

    /// Whether a gate can be made with these ranges and rules: each range
    /// is in order and there is one rule per initial output.
    pub open spec fn gate_accepted(
        in_range: NodeRange,
        out_range: NodeRange,
        rules: Seq<Transition>,
    ) -> bool {
        &&& in_range.min <= in_range.max
        &&& out_range.min <= out_range.max
        &&& rules.len() == out_range.min
    }

    /// The connectors that come with `count` new input slots of gate `g`,
    /// the first of which is slot `first`: each is free and carries no
    /// line.
    pub open spec fn fresh_inputs(g: usize, first: nat, count: nat) -> Seq<Option<PortView>> {
        Seq::new(
            count,
            |t: int| Some(PortView::fresh(ConnectorType::In, (first + t) as usize, g)),
        )
    }

    /// The connectors that come with `count` new output slots of gate `g`,
    /// the first of which is slot `first`: each carries no line.
    pub open spec fn fresh_outputs(g: usize, first: nat, count: nat) -> Seq<Option<PortView>> {
        Seq::new(
            count,
            |t: int| Some(PortView::fresh(ConnectorType::Out, (first + t) as usize, g)),
        )
    }

    /// `count` handles in a row, the first of which is `first`.
    pub open spec fn handles(first: nat, count: nat) -> Seq<usize> {
        Seq::new(count, |t: int| (first + t) as usize)
    }

    /// `count` values that are all `Unknown`.
    pub open spec fn unknowns(count: nat) -> Seq<State> {
        Seq::new(count, |t: int| State::Unknown)
    }

    /// `count` fan-out maps that list nothing.
    pub open spec fn no_targets(count: nat) -> Seq<Map<usize, Seq<usize>>> {
        Seq::new(count, |t: int| Map::<usize, Seq<usize>>::empty())
    }

    /// The circuit after gate `g` got `count` more input slots: they come
    /// last on that gate, hold `Unknown` and have free connectors with the
    /// next handles. Nothing else changes.
    pub open spec fn grown_inputs(self, g: usize, count: nat) -> CircuitView {
        let n = self.gate(g);
        CircuitView {
            gates: self.gates.update(
                g as int,
                GateView {
                    gate: Gate { inputs: (n.gate.inputs + count) as u32, ..n.gate },
                    inputs: n.inputs + Self::unknowns(count),
                    in_ports: n.in_ports + Self::handles(self.ports.len(), count),
                    ..n
                },
            ),
            ports: self.ports + Self::fresh_inputs(g, n.in_ports.len(), count),
            wires: self.wires,
        }
    }

    /// The circuit after gate `g` got one more output slot for each rule
    /// of `rules`: they come last on that gate, hold `Unknown`, feed
    /// nothing and have connectors with the next handles. Nothing else
    /// changes.
    pub open spec fn grown_outputs(self, g: usize, rules: Seq<Transition>) -> CircuitView {
        let n = self.gate(g);
        CircuitView {
            gates: self.gates.update(
                g as int,
                GateView {
                    gate: Gate { outputs: (n.gate.outputs + rules.len()) as u32, ..n.gate },
                    outputs: n.outputs + Self::unknowns(rules.len()),
                    transitions: n.transitions + rules,
                    targets: n.targets + Self::no_targets(rules.len()),
                    out_ports: n.out_ports + Self::handles(self.ports.len(), rules.len()),
                    ..n
                },
            ),
            ports: self.ports + Self::fresh_outputs(g, n.out_ports.len(), rules.len()),
            wires: self.wires,
        }
    }

    /// The circuit with one more gate, put together slot by slot: first
    /// a gate without slots, then its inputs, then its outputs.
    pub open spec fn assembled(
        self,
        name: Seq<char>,
        in_range: NodeRange,
        out_range: NodeRange,
        rules: Seq<Transition>,
    ) -> CircuitView {
        let g = self.gates.len() as usize;
        self.push_gate(name, in_range, out_range).add_inputs(g, in_range.min as nat).add_outputs(
            g,
            rules,
        )
    }

    /// The circuit with one more gate. It comes last and has the
    /// least number of inputs and outputs that its ranges allow, every
    /// value `Unknown`, the given rules and fan-out tables that list
    /// nothing. Its input connectors and then its output connectors are
    /// new, free, and have the next handles. Nothing else changes.
    pub open spec fn add_gate(
        self,
        name: Seq<char>,
        in_range: NodeRange,
        out_range: NodeRange,
        rules: Seq<Transition>,
    ) -> CircuitView {
        let g = self.gates.len() as usize;
        CircuitView {
            gates: self.gates.push(
                GateView {
                    name,
                    gate: Gate {
                        inputs: in_range.min,
                        outputs: out_range.min,
                        in_range,
                        out_range,
                    },
                    inputs: Self::unknowns(in_range.min as nat),
                    outputs: Self::unknowns(out_range.min as nat),
                    transitions: rules,
                    targets: Self::no_targets(out_range.min as nat),
                    in_ports: Self::handles(self.ports.len(), in_range.min as nat),
                    out_ports: Self::handles(
                        (self.ports.len() + in_range.min) as nat,
                        out_range.min as nat,
                    ),
                },
            ),
            ports: self.ports + Self::fresh_inputs(g, 0, in_range.min as nat)
                + Self::fresh_outputs(g, 0, out_range.min as nat),
            wires: self.wires,
        }
    }

    // ----- connecting -----
    /// Of two connectors of opposite direction, the output.
    pub open spec fn output_of(self, a: usize, b: usize) -> usize {
        if self.port(a).ctype == ConnectorType::Out {
            a
        } else {
            b
        }
    }

    /// Of two connectors of opposite direction, the input.
    pub open spec fn input_of(self, a: usize, b: usize) -> usize {
        if self.port(a).ctype == ConnectorType::Out {
            b
        } else {
            a
        }
    }

    /// Why connectors `a` and `b` cannot be connected, if they cannot: one
    /// of them does not exist, they have the same direction, or the input
    /// among them already carries a line.
    pub open spec fn connect_error(self, a: usize, b: usize) -> Option<EditError> {
        if !self.has_port(a) || !self.has_port(b) {
            Some(EditError::InvariantViolation)
        } else if self.port(a).ctype == self.port(b).ctype {
            Some(EditError::InvalidDirection)
        } else if self.port(self.input_of(a, b)).occupied {
            Some(EditError::InvariantViolation)
        } else {
            None
        }
    }

    /// The line that leads from output connector `o` to input connector `i`.
    pub open spec fn line(self, o: usize, i: usize) -> ConnectionLine {
        ConnectionLine {
            output: ConnInfo { entity: o, index: self.port(o).index },
            input: ConnInfo { entity: i, index: self.port(i).index },
        }
    }

    /// The circuit after a line was laid from output connector `o` to input
    /// connector `i`. The line gets the next free handle; both connectors
    /// record it, the input becomes occupied, and the fan-out table of the
    /// output gains the input's slot. No value changes.
    pub open spec fn connect(self, o: usize, i: usize) -> CircuitView {
        let w = self.wires.len() as usize;
        let po = self.port(o);
        let pi = self.port(i);
        let n = self.gate(po.parent);
        CircuitView {
            gates: self.gates.update(
                po.parent as int,
                GateView {
                    targets: n.targets.update(
                        po.index as int,
                        add_target(n.targets[po.index as int], pi.parent, pi.index),
                    ),
                    ..n
                },
            ),
            ports: self.ports.update(
                i as int,
                Some(PortView { occupied: true, connections: pi.connections.push(w), ..pi }),
            ).update(o as int, Some(PortView { connections: po.connections.push(w), ..po })),
            wires: self.wires.push(Some(self.line(o, i))),
        }
    }

    /// The circuit after line `w` was taken away: its input connector is
    /// free and carries nothing, its output connector no longer records it,
    /// the fan-out table of the output no longer lists the input's slot,
    /// and the line's handle names nothing. No value changes.
    pub open spec fn disconnect(self, w: usize) -> CircuitView {
        let l = self.wire(w);
        let o = l.output.entity;
        let i = l.input.entity;
        let po = self.port(o);
        let pi = self.port(i);
        let n = self.gate(po.parent);
        CircuitView {
            gates: self.gates.update(
                po.parent as int,
                GateView {
                    targets: n.targets.update(
                        po.index as int,
                        remove_target(n.targets[po.index as int], pi.parent, pi.index),
                    ),
                    ..n
                },
            ),
            ports: self.ports.update(
                i as int,
                Some(PortView { occupied: false, connections: Seq::empty(), ..pi }),
            ).update(
                o as int,
                Some(PortView { connections: po.connections.remove_value(w), ..po }),
            ),
            wires: self.wires.update(w as int, None),
        }
    }

    /// The circuit after the first `count` lines attached to connector `h`
    /// were taken away, one after the other.
    pub open spec fn detach(self, h: usize, count: nat) -> CircuitView
        decreases count,
    {
        if count == 0 {
            self
        } else {
            self.disconnect(self.port(h).connections[0]).detach(h, (count - 1) as nat)
        }
    }

    /// The circuit after every line attached to connector `h` was taken
    /// away.
    pub open spec fn detach_all(self, h: usize) -> CircuitView {
        self.detach(h, self.port(h).connections.len())
    }

    // ----- resizing -----
    /// The circuit after gate `g` lost its last input slot: the line on its
    /// connector, if any, is taken away first, then the connector is
    /// destroyed.
    pub open spec fn drop_input(self, g: usize) -> CircuitView {
        let h = self.gate(g).in_ports.last();
        let c = self.detach_all(h);
        let n = c.gate(g);
        CircuitView {
            gates: c.gates.update(
                g as int,
                GateView {
                    gate: Gate { inputs: (n.gate.inputs - 1) as u32, ..n.gate },
                    inputs: n.inputs.drop_last(),
                    in_ports: n.in_ports.drop_last(),
                    ..n
                },
            ),
            ports: c.ports.update(h as int, None),
            wires: c.wires,
        }
    }

    /// The circuit after gate `g` lost its last output slot: the lines on
    /// its connector are taken away first, then the connector is destroyed.
    pub open spec fn drop_output(self, g: usize) -> CircuitView {
        let h = self.gate(g).out_ports.last();
        let c = self.detach_all(h);
        let n = c.gate(g);
        CircuitView {
            gates: c.gates.update(
                g as int,
                GateView {
                    gate: Gate { outputs: (n.gate.outputs - 1) as u32, ..n.gate },
                    outputs: n.outputs.drop_last(),
                    transitions: n.transitions.drop_last(),
                    targets: n.targets.drop_last(),
                    out_ports: n.out_ports.drop_last(),
                    ..n
                },
            ),
            ports: c.ports.update(h as int, None),
            wires: c.wires,
        }
    }

    /// The circuit after gate `g` lost its last `count` input slots.
    pub open spec fn drop_inputs(self, g: usize, count: nat) -> CircuitView
        decreases count,
    {
        if count == 0 {
            self
        } else {
            self.drop_input(g).drop_inputs(g, (count - 1) as nat)
        }
    }

    /// The circuit after gate `g` lost its last `count` output slots.
    pub open spec fn drop_outputs(self, g: usize, count: nat) -> CircuitView
        decreases count,
    {
        if count == 0 {
            self
        } else {
            self.drop_output(g).drop_outputs(g, (count - 1) as nat)
        }
    }

    /// The rules for `count` more output slots: each new output is
    /// constantly `Unknown`.
    pub open spec fn idle_rules(count: nat) -> Seq<Transition> {
        Seq::new(count, |k: int| Transition::Constant(State::Unknown))
    }

    /// Why gate `g` cannot be given `n` slots within `range`, if it cannot.
    pub open spec fn resize_error(self, g: usize, range: NodeRange, n: u32) -> Option<EditError> {
        if !self.has_gate(g) {
            Some(EditError::InvariantViolation)
        } else if !range.holds(n as int) {
            Some(EditError::ArityOutOfRange)
        } else {
            None
        }
    }

    /// The circuit after gate `g` was given `n` input slots: slots beyond
    /// `n` are dropped from the last one down, missing slots are added.
    pub open spec fn resize_inputs(self, g: usize, n: nat) -> CircuitView {
        let len = self.gate(g).in_ports.len();
        if len >= n {
            self.drop_inputs(g, (len - n) as nat)
        } else {
            self.grown_inputs(g, (n - len) as nat)
        }
    }

    /// The circuit after gate `g` was given `n` output slots: slots beyond
    /// `n` are dropped from the last one down, missing slots are added.
    pub open spec fn resize_outputs(self, g: usize, n: nat) -> CircuitView {
        let len = self.gate(g).out_ports.len();
        if len >= n {
            self.drop_outputs(g, (len - n) as nat)
        } else {
            self.grown_outputs(g, Self::idle_rules((n - len) as nat))
        }
    }

    /// The value that line `w` carries: the value of the output slot that
    /// it leads from.
    pub open spec fn carried(self, w: usize) -> State {
        let o = self.port(self.wire(w).output.entity);
        self.gate(o.parent).outputs[o.index as int]
    }

    /// The connectors of gate `g`: those of its inputs, then those of its
    /// outputs, each in the order of the slots.
    pub open spec fn ports_of(self, g: usize) -> Seq<usize> {
        self.gate(g).in_ports + self.gate(g).out_ports
    }

    /// Why `request` is refused, if it is.
    pub open spec fn request_error(self, request: Request) -> Option<EditError> {
        match request {
            Request::Connect { from, to } => self.connect_error(from, to),
            Request::Disconnect { wire } => if self.has_wire(wire) {
                None
            } else {
                Some(EditError::InvariantViolation)
            },
            Request::ResizeInputs { gate, count } => self.resize_error(
                gate,
                self.gate(gate).gate.in_range,
                count,
            ),
        }
    }

    /// The circuit after `request` was carried out.
    pub open spec fn served(self, request: Request) -> CircuitView {
        match request {
            Request::Connect { from, to } => self.connect(
                self.output_of(from, to),
                self.input_of(from, to),
            ),
            Request::Disconnect { wire } => self.disconnect(wire),
            Request::ResizeInputs { gate, count } => self.resize_inputs(gate, count as nat),
        }
    }

    // ----- simulating -----
    /// The circuit after every gate computed each of its outputs from its
    /// own inputs.
    pub open spec fn transitioned(self) -> CircuitView {
        CircuitView {
            gates: Seq::new(
                self.gates.len(),
                |g: int|
                    GateView {
                        outputs: Seq::new(
                            self.gates[g].outputs.len(),
                            |k: int| self.gates[g].transitions[k].eval(self.gates[g].inputs),
                        ),
                        ..self.gates[g]
                    },
            ),
            ..self
        }
    }

    /// The value that input slot `j` of gate `to` holds after propagation:
    /// the value of the output that drives it, or its old value if no line
    /// is attached to it.
    pub open spec fn arriving(self, to: usize, j: usize) -> State {
        match self.source(to, j) {
            Some((g, k)) => self.gate(g).outputs[k as int],
            None => self.gate(to).inputs[j as int],
        }
    }

    /// The circuit after every output was written to the inputs it feeds.
    pub open spec fn propagated(self) -> CircuitView {
        CircuitView {
            gates: Seq::new(
                self.gates.len(),
                |g: int|
                    GateView {
                        inputs: Seq::new(
                            self.gates[g].inputs.len(),
                            |j: int| self.arriving(g as usize, j as usize),
                        ),
                        ..self.gates[g]
                    },
            ),
            ..self
        }
    }

    /// The circuit one tick later: first every gate computes its outputs
    /// from the inputs it had before the tick, then the outputs travel
    /// along the lines.
    pub open spec fn step(self) -> CircuitView {
        self.transitioned().propagated()
    }
}

} // verus!
