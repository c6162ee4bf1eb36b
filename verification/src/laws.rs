//! Laws of the circuit: what holds of every well-formed circuit across
//! several operations.

use vstd::prelude::*;

use crate::connector::ConnectorType;
use crate::model::add_target;
use crate::model::remove_target;
use crate::gate::NodeRange;
use crate::model::CircuitView;
use crate::model::Request;
use crate::proofs::lemma_remove_value;
use crate::signal::State;
use crate::signal::Transition;

verus! {

/// Adding a slot to a fan-out map that does not list it and taking it out
/// again gives the map back.
pub proof fn lemma_target_round_trip(tm: Map<usize, Seq<usize>>, to: usize, j: usize)
    requires
        tm.contains_key(to) ==> tm[to].len() > 0 && tm[to].no_duplicates() && !tm[to].contains(j),
    ensures
        remove_target(add_target(tm, to, j), to, j) == tm,
{
    let list = if tm.contains_key(to) {
        tm[to]
    } else {
        Seq::empty()
    };
    let more = list.push(j);
    assert(more.last() == j);
    assert(more.contains(j));
    assert forall|x: int, y: int|
        0 <= x < more.len() && 0 <= y < more.len() && x != y implies more[x] != more[y] by {
        if x < list.len() {
            assert(list.contains(list[x]));
        }
        if y < list.len() {
            assert(list.contains(list[y]));
        }
    }
    lemma_remove_value(more, j);
    assert(more.drop_last() =~= list);
    assert(remove_target(add_target(tm, to, j), to, j) =~= tm);
}

impl CircuitView {
    /// The transition phase is local: what a gate's outputs become
    /// depends on that gate's rules and inputs alone, whatever else the
    /// circuit holds and in whatever order the gates are taken.
    pub proof fn lemma_transition_local(self, g: usize, other: CircuitView, h: usize)
        requires
            self.has_gate(g),
            other.has_gate(h),
            self.gate(g).transitions == other.gate(h).transitions,
            self.gate(g).inputs == other.gate(h).inputs,
            self.gate(g).outputs.len() == other.gate(h).outputs.len(),
        ensures
            self.transitioned().gate(g).outputs == other.transitioned().gate(h).outputs,
            self.step().gate(g).outputs == other.step().gate(h).outputs,
    {
        assert(self.transitioned().gate(g).outputs =~= other.transitioned().gate(h).outputs);
    }

    /// After a tick every output holds what its rule gives for the inputs
    /// that its gate had before the tick.
    pub proof fn lemma_step_outputs(self, g: usize, k: usize)
        requires
            self.has_gate(g),
            (k as int) < self.gate(g).outputs.len(),
        ensures
            self.step().gate(g).outputs.len() == self.gate(g).outputs.len(),
            self.step().gate(g).outputs[k as int] == self.gate(g).transitions[k as int].eval(
                self.gate(g).inputs,
            ),
    {
    }

    /// A tick carries a value over one line only: after it, an input that
    /// a line leads to holds what the rule of the driving output gives for
    /// the inputs that the driving gate had before the tick, and an input
    /// without a line holds what it held.
    pub proof fn lemma_step_inputs(self, to: usize, j: usize)
        requires
            self.wf(),
            self.has_gate(to),
            (j as int) < self.gate(to).inputs.len(),
        ensures
            self.step().gate(to).inputs.len() == self.gate(to).inputs.len(),
            self.step().gate(to).inputs[j as int] == (match self.source(to, j) {
                Some((g, k)) => self.gate(g).transitions[k as int].eval(self.gate(g).inputs),
                None => self.gate(to).inputs[j as int],
            }),
    {
        let t = self.transitioned();
        self.lemma_values_only(t);
        assert(t.source(to, j) == self.source(to, j));
        assert(self.gate_ok(to));
        self.lemma_source_listed(to, j);
    }

    /// Connecting and at once disconnecting restores the circuit: every
    /// gate with its fan-out tables and every connector is as before, the
    /// input is free again, the fan-out table of the output does not list
    /// the input's slot, and the line's handle names nothing. The same
    /// connectors can then be connected again, with the same effect on the
    /// gates.
    pub proof fn lemma_connect_disconnect(self, a: usize, b: usize)
        requires
            self.wf(),
            self.connect_error(a, b) is None,
            self.wires.len() + 1 < usize::MAX,
        ensures
            ({
                let o = self.output_of(a, b);
                let i = self.input_of(a, b);
                let w = self.wires.len() as usize;
                let joined = self.connect(o, i);
                let parted = joined.disconnect(w);
                &&& joined.wf()
                &&& joined.has_wire(w)
                &&& joined.is_occupied(i)
                &&& parted.wf()
                &&& parted.gates == self.gates
                &&& parted.ports == self.ports
                &&& parted.wires == self.wires.push(None)
                &&& !parted.is_occupied(i)
                &&& !parted.has_wire(w)
                &&& !parted.listed(
                    self.port(o).parent,
                    self.port(o).index,
                    self.port(i).parent,
                    self.port(i).index,
                )
                &&& parted.connect_error(a, b) is None
                &&& parted.connect(o, i).gates == joined.gates
                &&& parted.connect(o, i).is_occupied(i)
                &&& parted.connect(o, i).wire((w + 1) as usize) == joined.wire(w)
            }),
    {
        let o = self.output_of(a, b);
        let i = self.input_of(a, b);
        let w = self.wires.len() as usize;
        let po = self.port(o);
        let pi = self.port(i);
        assert(self.connectable(o, i));
        assert(self.port_ok(o));
        assert(self.port_ok(i));
        assert(self.gate_ok(po.parent));
        assert(self.gate_ok(pi.parent));
        assert(self.fanout_ok(po.parent, po.index));
        let joined = self.connect(o, i);
        self.lemma_connect_linked(o, i);
        self.lemma_connect_source(o, i, pi.parent, pi.index);
        assert(!self.feeds(po.parent, po.index, pi.parent, pi.index));
        assert(!self.listed(po.parent, po.index, pi.parent, pi.index));
        let parted = joined.disconnect(w);
        joined.lemma_disconnect_linked(w);
        // The connectors are as before.
        assert(pi.connections =~= Seq::empty());
        let more = po.connections.push(w);
        assert(more.last() == w);
        assert(more.contains(w));
        assert(!po.connections.contains(w)) by {
            if po.connections.contains(w) {
                let x = choose|x: int| 0 <= x < po.connections.len() && po.connections[x] == w;
                assert(self.attached(po.connections[x], o, ConnectorType::Out));
            }
        }
        assert forall|x: int, y: int|
            0 <= x < more.len() && 0 <= y < more.len() && x != y implies more[x] != more[y] by {
            if x < po.connections.len() {
                assert(po.connections.contains(po.connections[x]));
            }
            if y < po.connections.len() {
                assert(po.connections.contains(po.connections[y]));
            }
        }
        lemma_remove_value(more, w);
        assert(more.drop_last() =~= po.connections);
        assert(parted.ports =~= self.ports);
        // The fan-out tables are as before.
        let tm = self.gate(po.parent).targets[po.index as int];
        lemma_target_round_trip(tm, pi.parent, pi.index);
        assert(parted.gate(po.parent).targets =~= self.gate(po.parent).targets);
        assert(parted.gates =~= self.gates);
        assert(parted.wires =~= self.wires.push(None));
        assert forall|g: usize| joined.has_gate(g) implies (#[trigger] joined.gate(
            g,
        )).in_range() by {
            assert(self.gate(g).in_range());
        }
        assert forall|g: usize| parted.has_gate(g) implies (#[trigger] parted.gate(
            g,
        )).in_range() by {
            assert(self.gate(g).in_range());
        }
        assert(parted.connect(o, i).gates =~= joined.gates);
    }

    /// Connecting changes no value: every input and every output holds
    /// what it held.
    pub proof fn lemma_connect_keeps_values(self, a: usize, b: usize, g: usize)
        requires
            self.wf(),
            self.connect_error(a, b) is None,
            self.has_gate(g),
        ensures
            self.connect(self.output_of(a, b), self.input_of(a, b)).gate(g).inputs == self.gate(
                g,
            ).inputs,
            self.connect(self.output_of(a, b), self.input_of(a, b)).gate(g).outputs == self.gate(
                g,
            ).outputs,
    {
        let o = self.output_of(a, b);
        assert(self.port_ok(o));
    }

    /// A constant gate wired to a NOT gate shows the delay of one tick per
    /// line: the first tick brings the constant to the NOT gate's input,
    /// and only the second tick brings its inverse to the NOT gate's
    /// output.
    pub proof fn lemma_one_tick_per_line(self, source: usize, sink: usize, value: State)
        requires
            self.wf(),
            self.has_gate(source),
            self.has_gate(sink),
            self.gate(source).transitions == seq![crate::signal::Transition::Constant(value)],
            self.gate(sink).transitions == seq![crate::signal::Transition::Not],
            self.gate(sink).inputs.len() == 1,
            self.source(sink, 0) == Some((source, 0usize)),
        ensures
            self.step().gate(sink).inputs[0] == value,
            self.step().gate(sink).outputs[0] == crate::signal::inverse(self.gate(sink).inputs[0]),
            self.step().step().gate(sink).outputs[0] == crate::signal::inverse(value),
    {
        let once = self.step();
        self.lemma_step_wf();
        self.lemma_step_inputs(sink, 0);
        assert(self.gate_ok(sink));
        assert(self.gate_ok(source));
        self.lemma_step_outputs(sink, 0);
        assert(once.gate(sink).transitions == self.gate(sink).transitions);
        assert(once.gate_ok(sink));
        once.lemma_step_outputs(sink, 0);
    }

    /// Adding input slots keeps the records in agreement.
    pub proof fn lemma_add_inputs_linked(self, g: usize, count: nat)
        requires
            self.linked(),
            self.has_gate(g),
            self.gate(g).gate.inputs + count <= u32::MAX,
            self.ports.len() + count <= usize::MAX,
        ensures
            self.add_inputs(g, count).linked(),
        decreases count,
    {
        if count > 0 {
            self.lemma_add_input_linked(g);
            self.lemma_add_input_arity(g);
            self.add_input(g).lemma_add_inputs_linked(g, (count - 1) as nat);
        }
    }

    /// Adding output slots keeps the records in agreement.
    pub proof fn lemma_add_outputs_linked(self, g: usize, rules: Seq<Transition>)
        requires
            self.linked(),
            self.has_gate(g),
            self.gate(g).gate.outputs + rules.len() <= u32::MAX,
            self.ports.len() + rules.len() <= usize::MAX,
        ensures
            self.add_outputs(g, rules).linked(),
        decreases rules.len(),
    {
        if rules.len() > 0 {
            self.lemma_add_output_linked(g, rules[0]);
            self.lemma_add_output_arity(g, rules[0]);
            self.add_output(g, rules[0]).lemma_add_outputs_linked(g, rules.drop_first());
        }
    }

    /// A new gate leaves the circuit well formed.
    pub proof fn lemma_add_gate_wf(
        self,
        name: Seq<char>,
        in_range: NodeRange,
        out_range: NodeRange,
        rules: Seq<Transition>,
    )
        requires
            self.wf(),
            Self::gate_accepted(in_range, out_range, rules),
            self.gates.len() < usize::MAX,
            self.ports.len() + in_range.min + out_range.min <= usize::MAX,
        ensures
            self.add_gate(name, in_range, out_range, rules).wf(),
    {
        let g = self.gates.len() as usize;
        let bare = self.push_gate(name, in_range, out_range);
        self.lemma_push_gate_linked(name, in_range, out_range);
        bare.lemma_add_inputs_linked(g, in_range.min as nat);
        bare.lemma_add_inputs_shape(g, in_range.min as nat);
        let mid = bare.add_inputs(g, in_range.min as nat);
        mid.lemma_add_outputs_linked(g, rules);
        self.lemma_add_gate_shape(name, in_range, out_range, rules);
        let d = self.add_gate(name, in_range, out_range, rules);
        assert(d == mid.add_outputs(g, rules));
        assert forall|x: usize| d.has_gate(x) implies (#[trigger] d.gate(x)).in_range() by {
            if x != g {
                assert(d.gate(x) == self.gate(x));
                assert(self.gate(x).in_range());
            }
        }
    }

    /// Connecting what can be connected leaves the circuit well formed.
    pub proof fn lemma_connect_wf(self, a: usize, b: usize)
        requires
            self.wf(),
            self.connect_error(a, b) is None,
            self.wires.len() < usize::MAX,
        ensures
            self.connect(self.output_of(a, b), self.input_of(a, b)).wf(),
    {
        let o = self.output_of(a, b);
        let i = self.input_of(a, b);
        let d = self.connect(o, i);
        assert(self.port_ok(o));
        self.lemma_connect_linked(o, i);
        assert forall|x: usize| d.has_gate(x) implies (#[trigger] d.gate(x)).in_range() by {
            assert(self.gate(x).in_range());
        }
    }

    /// Taking a line away leaves the circuit well formed.
    pub proof fn lemma_disconnect_wf(self, w: usize)
        requires
            self.wf(),
            self.has_wire(w),
        ensures
            self.disconnect(w).wf(),
    {
        let d = self.disconnect(w);
        self.lemma_disconnect_linked(w);
        self.lemma_disconnect_frame(w);
        assert forall|x: usize| d.has_gate(x) implies (#[trigger] d.gate(x)).in_range() by {
            assert(self.gate(x).in_range());
        }
    }

    /// Giving a gate a number of inputs within its range leaves the
    /// circuit well formed, with exactly that many inputs on that gate.
    pub proof fn lemma_resize_inputs_wf(self, g: usize, n: u32)
        requires
            self.wf(),
            self.resize_error(g, self.gate(g).gate.in_range, n) is None,
            self.ports.len() + n <= usize::MAX,
        ensures
            self.resize_inputs(g, n as nat).wf(),
            self.resize_inputs(g, n as nat).gate(g).inputs.len() == n,
            self.resize_inputs(g, n as nat).gate(g).in_ports.len() == n,
    {
        let len = self.gate(g).in_ports.len();
        let d = self.resize_inputs(g, n as nat);
        assert(self.gate_ok(g));
        if len >= n {
            self.lemma_drop_inputs_shape(g, (len - n) as nat);
            assert forall|x: usize| d.has_gate(x) implies (#[trigger] d.gate(x)).in_range() by {
                assert(self.gate(x).in_range());
            }
        } else {
            let count = (n - len) as nat;
            self.lemma_add_inputs_linked(g, count);
            self.lemma_add_inputs_shape(g, count);
            assert forall|x: usize| d.has_gate(x) implies (#[trigger] d.gate(x)).in_range() by {
                assert(self.gate(x).in_range());
            }
        }
    }

    /// Giving a gate a number of outputs within its range leaves the
    /// circuit well formed, with exactly that many outputs on that gate.
    pub proof fn lemma_resize_outputs_wf(self, g: usize, n: u32)
        requires
            self.wf(),
            self.resize_error(g, self.gate(g).gate.out_range, n) is None,
            self.ports.len() + n <= usize::MAX,
        ensures
            self.resize_outputs(g, n as nat).wf(),
            self.resize_outputs(g, n as nat).gate(g).outputs.len() == n,
            self.resize_outputs(g, n as nat).gate(g).out_ports.len() == n,
    {
        let len = self.gate(g).out_ports.len();
        let d = self.resize_outputs(g, n as nat);
        assert(self.gate_ok(g));
        if len >= n {
            self.lemma_drop_outputs_shape(g, (len - n) as nat);
            assert forall|x: usize| d.has_gate(x) implies (#[trigger] d.gate(x)).in_range() by {
                assert(self.gate(x).in_range());
            }
        } else {
            let rules = Self::idle_rules((n - len) as nat);
            self.lemma_add_outputs_linked(g, rules);
            self.lemma_add_outputs_shape(g, rules);
            assert forall|x: usize| d.has_gate(x) implies (#[trigger] d.gate(x)).in_range() by {
                assert(self.gate(x).in_range());
            }
        }
    }

    /// Every request that is not refused leaves the circuit well formed.
    pub proof fn lemma_served_wf(self, request: Request)
        requires
            self.wf(),
            self.request_error(request) is None,
            self.wires.len() < usize::MAX,
            request matches Request::ResizeInputs { count, .. } ==> self.ports.len() + count
                <= usize::MAX,
        ensures
            self.served(request).wf(),
    {
        match request {
            Request::Connect { from, to } => self.lemma_connect_wf(from, to),
            Request::Disconnect { wire } => self.lemma_disconnect_wf(wire),
            Request::ResizeInputs { gate, count } => self.lemma_resize_inputs_wf(gate, count),
        }
    }

    /// The circuit without any gate is well formed.
    pub proof fn lemma_empty_wf()
        ensures
            Self::empty().wf(),
    {
    }

    /// Whether line `w` leads from output slot `k` of gate `g` to input
    /// slot `j` of gate `to`.
    pub open spec fn joins(self, w: usize, g: usize, k: usize, to: usize, j: usize) -> bool {
        &&& self.has_wire(w)
        &&& self.has_gate(g)
        &&& (k as int) < self.gate(g).out_ports.len()
        &&& self.wire(w).output.entity == self.gate(g).out_ports[k as int]
        &&& self.has_gate(to)
        &&& (j as int) < self.gate(to).in_ports.len()
        &&& self.wire(w).input.entity == self.gate(to).in_ports[j as int]
    }

    /// An input has a single driver: two lines that end in the same
    /// connector are one line.
    pub proof fn lemma_single_driver(self, v: usize, w: usize)
        requires
            self.wf(),
            self.has_wire(v),
            self.has_wire(w),
            self.wire(v).input.entity == self.wire(w).input.entity,
        ensures
            v == w,
    {
        let i = self.wire(v).input.entity;
        assert(self.wire_ok(v));
        assert(self.wire_ok(w));
        assert(self.port_ok(i));
        let c = self.port(i).connections;
        let x = choose|x: int| 0 <= x < c.len() && c[x] == v;
        let y = choose|y: int| 0 <= y < c.len() && c[y] == w;
        assert(x == y);
    }

    /// The fan-out tables and the lines tell the same: the table of an
    /// output lists an input slot exactly when a line leads from that
    /// output to that input.
    pub proof fn lemma_listed_iff_joined(self, g: usize, k: usize, to: usize, j: usize)
        requires
            self.wf(),
            self.has_gate(g),
            (k as int) < self.gate(g).targets.len(),
        ensures
            self.listed(g, k, to, j) <==> exists|w: usize| self.joins(w, g, k, to, j),
    {
        assert(self.gate_ok(g));
        assert(self.fanout_ok(g, k));
        assert(self.listed(g, k, to, j) == self.feeds(g, k, to, j));
        if self.feeds(g, k, to, j) {
            assert(self.gate_ok(to));
            let p = self.gate(to).in_ports[j as int];
            assert(self.is_port_of(p, ConnectorType::In, to, j as int));
            assert(self.port_ok(p));
            let w = self.port(p).connections[0];
            assert(self.attached(w, p, ConnectorType::In));
            assert(self.wire_ok(w));
            assert(self.port_ok(self.wire(w).output.entity));
            assert(self.joins(w, g, k, to, j));
        }
        if exists|w: usize| self.joins(w, g, k, to, j) {
            let w = choose|w: usize| self.joins(w, g, k, to, j);
            assert(self.gate_ok(to));
            let p = self.gate(to).in_ports[j as int];
            let o = self.gate(g).out_ports[k as int];
            assert(self.is_port_of(p, ConnectorType::In, to, j as int));
            assert(self.is_port_of(o, ConnectorType::Out, g, k as int));
            assert(self.wire_ok(w));
            assert(self.port_ok(p));
            let c = self.port(p).connections;
            let x = choose|x: int| 0 <= x < c.len() && c[x] == w;
            assert(c[0] == w);
            assert(self.feeds(g, k, to, j));
        }
    }
}

} // verus!
