//! The circuit itself: the registry of gates, connectors and connection
//! lines, the edit operations and the simulation step.

use vstd::prelude::*;
use vstd::std_specs::iter::IteratorSpec;

use crate::connector::ConnInfo;
use crate::connector::ConnectionLine;
use crate::connector::Connector;
use crate::connector::ConnectorType;
use crate::connector::PortView;
use crate::gate::Gate;
use crate::gate::Inputs;
use crate::gate::Name;
use crate::gate::NodeRange;
use crate::gate::Outputs;
use crate::gate::TargetMap;
use crate::gate::Targets;
use crate::gate::Transitions;
use crate::model::add_target;
use crate::model::remove_target;
use crate::model::CircuitView;
use crate::model::EditError;
use crate::model::GateView;
use crate::model::Request;
use crate::signal::State;
use crate::signal::Transition;

verus! {

/// A circuit of logic gates. Every record of a gate is kept in a column of
/// its own, at the position that is that gate's handle; connectors and
/// connection lines are kept at the positions that are their handles.
pub struct Circuit {
    gates: Vec<Gate>,
    names: Vec<Name>,
    inputs: Vec<Inputs>,
    outputs: Vec<Outputs>,
    transitions: Vec<Transitions>,
    targets: Vec<Targets>,
    in_ports: Vec<Vec<usize>>,
    out_ports: Vec<Vec<usize>>,
    connectors: Vec<Option<Connector>>,
    lines: Vec<Option<ConnectionLine>>,
}

/// The mathematical value of a fan-out map.
pub open spec fn fan_out(tm: TargetMap) -> Map<usize, Seq<usize>> {
    Map::new(|to: usize| tm@.contains_key(to), |to: usize| tm@[to]@)
}

/// The mathematical value of the fan-out maps of one gate.
pub open spec fn fan_outs(t: Targets) -> Seq<Map<usize, Seq<usize>>> {
    Seq::new(t.0.len() as nat, |k: int| fan_out(t.0[k]))
}

/// The mathematical value of a connector's place in the registry.
pub open spec fn port_view(c: Option<Connector>) -> Option<PortView> {
    match c {
        Some(c) => Some(c@),
        None => None,
    }
}

/// Takes the first occurrence of `x` out of `v` and tells whether there
/// was one.
fn remove_first(v: &mut Vec<usize>, x: usize) -> (found: bool)
    ensures
        final(v)@ == old(v)@.remove_value(x),
        found == old(v)@.contains(x),
{
    let mut p: usize = 0;
    while p < v.len()
        invariant
            p <= v.len(),
            v@ == old(v)@,
            forall|y: int| 0 <= y < p ==> v@[y] != x,
        decreases v.len() - p,
    {
        if v[p] == x {
            proof {
                v@.index_of_first_ensures(x);
            }
            v.remove(p);
            return true;
        }
        p += 1;
    }
    proof {
        v@.index_of_first_ensures(x);
    }
    false
}

/// Records in the fan-out map `tm` that slot `j` of gate `to` is fed.
fn insert_target(tm: &mut TargetMap, to: usize, j: usize)
    ensures
        fan_out(*final(tm)) == add_target(fan_out(*old(tm)), to, j),
{
    broadcast use vstd::std_specs::hash::group_hash_axioms;

    tm.entry(to).or_insert(Vec::new()).push(j);
    assert(fan_out(*tm) =~= add_target(fan_out(*old(tm)), to, j));
}

/// Strikes slot `j` of gate `to` from the fan-out map `tm` and tells
/// whether the map listed it. A gate whose list becomes empty leaves the
/// map.
fn take_target(tm: &mut TargetMap, to: usize, j: usize) -> (found: bool)
    ensures
        fan_out(*final(tm)) == remove_target(fan_out(*old(tm)), to, j),
        found == (fan_out(*old(tm)).contains_key(to) && fan_out(*old(tm))[to].contains(j)),
{
    broadcast use vstd::std_specs::hash::group_hash_axioms;

    match tm.remove(&to) {
        Some(list) => {
            let mut list = list;
            let found = remove_first(&mut list, j);
            if list.len() > 0 {
                tm.insert(to, list);
            }
            assert(fan_out(*tm) =~= remove_target(fan_out(*old(tm)), to, j));
            found
        },
        None => {
            assert(fan_out(*tm) =~= remove_target(fan_out(*old(tm)), to, j));
            false
        },
    }
}

/// How far the second phase of a tick has come: it is at output slot `k`
/// of gate `g`, has been through the entries of that slot's fan-out map
/// for the gates `visited`, and is at the entry for gate `current`, of
/// which it has written the slots `done`.
struct Stage {
    g: int,
    k: int,
    visited: Seq<usize>,
    current: usize,
    done: Seq<usize>,
}

impl Stage {
    /// The stage at which output slot `k` of gate `g` comes next.
    spec fn at(g: int, k: int) -> Stage {
        Stage { g, k, visited: Seq::empty(), current: 0, done: Seq::empty() }
    }

    /// The stage within output slot `k` of gate `g` after the entries for
    /// the gates `visited`.
    spec fn after(g: int, k: int, visited: Seq<usize>) -> Stage {
        Stage { g, k, visited, current: 0, done: Seq::empty() }
    }

    /// Whether the value for input slot `j` of gate `to` has been written
    /// at this stage: the slot is driven by an output that the phase is
    /// through with.
    spec fn reached(self, before: CircuitView, to: usize, j: usize) -> bool {
        match before.source(to, j) {
            Some((sg, sk)) => sg < self.g || (sg == self.g && (sk < self.k || (sk == self.k && (
            self.visited.contains(to) || (to == self.current && self.done.contains(j)))))),
            None => false,
        }
    }

    /// Whether `inputs` hold what they held in `before`, but for the
    /// slots whose value has been written, which hold the value of the
    /// output that drives them.
    spec fn settled(self, before: CircuitView, inputs: Seq<Inputs>) -> bool {
        &&& inputs.len() == before.gates.len()
        &&& forall|to: int|
            0 <= to < inputs.len() ==> (#[trigger] inputs[to]).0@.len()
                == before.gates[to].inputs.len()
        &&& forall|to: int, j: int|
            0 <= to < inputs.len() && 0 <= j < before.gates[to].inputs.len() ==> (
            #[trigger] inputs[to].0@[j]) == (if self.reached(before, to as usize, j as usize) {
                before.arriving(to as usize, j as usize)
            } else {
                before.gates[to].inputs[j]
            })
    }

    /// Two stages at which the same slots have been written are settled
    /// by the same inputs.
    proof fn lemma_same(self, other: Stage, before: CircuitView, inputs: Seq<Inputs>)
        requires
            before.linked(),
            self.settled(before, inputs),
            forall|to: usize, j: usize|
                before.has_gate(to) && (j as int) < before.gate(to).inputs.len() ==> self.reached(
                    before,
                    to,
                    j,
                ) == #[trigger] other.reached(before, to, j),
        ensures
            other.settled(before, inputs),
    {
        assert forall|to: int, j: int|
            0 <= to < inputs.len() && 0 <= j < before.gates[to].inputs.len() implies (
        #[trigger] inputs[to].0@[j]) == (if other.reached(before, to as usize, j as usize) {
            before.arriving(to as usize, j as usize)
        } else {
            before.gates[to].inputs[j]
        }) by {
            assert(before.has_gate(to as usize));
            assert(before.gate_ok(to as usize));
            assert(self.reached(before, to as usize, j as usize) == other.reached(
                before,
                to as usize,
                j as usize,
            ));
        }
    }

    /// Writing the value of the output at hand to the next slot that its
    /// fan-out map lists keeps the inputs settled, with that slot done.
    proof fn lemma_write(
        self,
        before: CircuitView,
        prior: Seq<Inputs>,
        now: Seq<Inputs>,
        j: usize,
    )
        requires
            before.linked(),
            self.settled(before, prior),
            0 <= self.g < before.gates.len(),
            0 <= self.k < before.gates[self.g].targets.len(),
            before.listed(self.g as usize, self.k as usize, self.current, j),
            now.len() == prior.len(),
            forall|to: int|
                0 <= to < now.len() ==> (#[trigger] now[to]).0@.len() == prior[to].0@.len(),
            forall|to: int, i: int|
                0 <= to < now.len() && 0 <= i < now[to].0@.len() && !(to == self.current && i == j)
                    ==> (#[trigger] now[to].0@[i]) == prior[to].0@[i],
            (self.current as int) < now.len() && (j as int) < now[self.current as int].0@.len()
                ==> now[self.current as int].0@[j as int] == before.gates[self.g].outputs[self.k],
        ensures
            (Stage { done: self.done.push(j), ..self }).settled(before, now),
    {
        let next = Stage { done: self.done.push(j), ..self };
        lemma_contains_push(self.done, j);
        assert(before.has_gate(self.g as usize));
        assert(before.gate_ok(self.g as usize));
        before.lemma_listed_source(self.g as usize, self.k as usize, self.current, j);
        assert(next.reached(before, self.current, j));
        assert forall|to: int, i: int|
            0 <= to < now.len() && 0 <= i < before.gates[to].inputs.len() implies (
        #[trigger] now[to].0@[i]) == (if next.reached(before, to as usize, i as usize) {
            before.arriving(to as usize, i as usize)
        } else {
            before.gates[to].inputs[i]
        }) by {
            assert(before.gate_ok(to as usize));
            assert(prior[to].0@.len() == before.gates[to].inputs.len());
            if to == self.current && i == j {
                assert(before.arriving(self.current, j) == before.gates[self.g].outputs[self.k]);
            } else {
                assert(now[to].0@[i] == prior[to].0@[i]);
                assert(next.reached(before, to as usize, i as usize) == self.reached(
                    before,
                    to as usize,
                    i as usize,
                ));
            }
        }
        assert forall|to: int| 0 <= to < now.len() implies (#[trigger] now[to]).0@.len()
            == before.gates[to].inputs.len() by {
            assert(prior[to].0@.len() == before.gates[to].inputs.len());
        }
    }
}

/// A sequence with one more value holds that value and what it held.
proof fn lemma_contains_push(s: Seq<usize>, v: usize)
    ensures
        forall|x: usize| #[trigger] s.push(v).contains(x) <==> (s.contains(x) || x == v),
{
    let more = s.push(v);
    assert forall|x: usize| #[trigger] more.contains(x) <==> (s.contains(x) || x == v) by {
        if more.contains(x) {
            let a = choose|a: int| 0 <= a < more.len() && more[a] == x;
            if a < s.len() {
                assert(s[a] == x);
            }
        }
        if s.contains(x) {
            let a = choose|a: int| 0 <= a < s.len() && s[a] == x;
            assert(more[a] == x);
        }
        assert(more[s.len() as int] == v);
    }
}

/// The gates named by the first `t` entries that a walk over a fan-out
/// map yields.
spec fn keys_of(s: Seq<(&usize, &Vec<usize>)>, t: int) -> Seq<usize> {
    Seq::new(t as nat, |x: int| *s[x].0)
}

impl View for Circuit {
    type V = CircuitView;

    closed spec fn view(&self) -> CircuitView {
        CircuitView {
            gates: Seq::new(self.gates.len() as nat, |g: int| self.gate_view(g)),
            ports: Seq::new(self.connectors.len() as nat, |h: int| port_view(self.connectors[h])),
            wires: self.lines@,
        }
    }
}

impl Circuit {
    spec fn gate_view(&self, g: int) -> GateView {
        GateView {
            name: self.names[g].0@,
            gate: self.gates[g],
            inputs: self.inputs[g].0@,
            outputs: self.outputs[g].0@,
            transitions: self.transitions[g].0@,
            targets: fan_outs(self.targets[g]),
            in_ports: self.in_ports[g]@,
            out_ports: self.out_ports[g]@,
        }
    }

    /// Every column holds one record per gate.
    spec fn aligned(&self) -> bool {
        &&& self.names.len() == self.gates.len()
        &&& self.inputs.len() == self.gates.len()
        &&& self.outputs.len() == self.gates.len()
        &&& self.transitions.len() == self.gates.len()
        &&& self.targets.len() == self.gates.len()
        &&& self.in_ports.len() == self.gates.len()
        &&& self.out_ports.len() == self.gates.len()
    }

    spec fn linked(&self) -> bool {
        self.aligned() && self@.linked()
    }

    /// The circuit is well formed: see [`CircuitView::wf`]. Every circuit
    /// made by [`Circuit::new`] and changed by the functions of this
    /// library is.
    pub closed spec fn wf(&self) -> bool {
        self.aligned() && self@.wf()
    }

    /// The registry holds no more records than there are handles.
    proof fn lemma_view_fits(&self)
        ensures
            self@.gates.len() <= usize::MAX,
            self@.ports.len() <= usize::MAX,
            self@.wires.len() <= usize::MAX,
    {
        assert(self.gates.len() == self@.gates.len());
        assert(self.connectors.len() == self@.ports.len());
        assert(self.lines.len() == self@.wires.len());
    }

    /// A well-formed circuit has a well-formed value.
    pub proof fn lemma_wf_view(&self)
        requires
            self.wf(),
        ensures
            self@.wf(),
    {
    }

    /// Creates a circuit without any gate.
    pub fn new() -> (r: Circuit)
        ensures
            r.wf(),
            r@ == CircuitView::empty(),
    {
        let r = Circuit {
            gates: Vec::new(),
            names: Vec::new(),
            inputs: Vec::new(),
            outputs: Vec::new(),
            transitions: Vec::new(),
            targets: Vec::new(),
            in_ports: Vec::new(),
            out_ports: Vec::new(),
            connectors: Vec::new(),
            lines: Vec::new(),
        };
        assert(r@.gates =~= Seq::empty());
        assert(r@.ports =~= Seq::empty());
        assert(r@.wires =~= Seq::empty());
        r
    }

    /// Lays a connection line between connectors `a` and `b`, which must
    /// be an output and a free input, in either order, and returns the
    /// line's handle. A refused request leaves the circuit as it is.
    pub fn connect(&mut self, a: usize, b: usize) -> (r: Result<usize, EditError>)
        requires
            old(self).wf(),
        ensures
            final(self).wf(),
            match r {
                Ok(w) => {
                    &&& old(self)@.connect_error(a, b) is None
                    &&& w == old(self)@.wires.len()
                    &&& final(self)@ == old(self)@.connect(
                        old(self)@.output_of(a, b),
                        old(self)@.input_of(a, b),
                    )
                },
                Err(e) => old(self)@.connect_error(a, b) == Some(e) && final(self)@ == old(self)@,
            },
    {
        broadcast use vstd::std_specs::hash::group_hash_axioms;

        if a >= self.connectors.len() || b >= self.connectors.len() {
            return Err(EditError::InvariantViolation);
        }
        let (ta, tb) = match (&self.connectors[a], &self.connectors[b]) {
            (Some(ca), Some(cb)) => (ca.ctype, cb.ctype),
            _ => {
                return Err(EditError::InvariantViolation);
            },
        };
        if ta == tb {
            return Err(EditError::InvalidDirection);
        }
        let (o, i) = if ta == ConnectorType::Out {
            (a, b)
        } else {
            (b, a)
        };
        let (occupied, gi, ji) = match &self.connectors[i] {
            Some(c) => (c.occupied, c.parent, c.index),
            None => {
                return Err(EditError::InvariantViolation);
            },
        };
        if occupied {
            return Err(EditError::InvariantViolation);
        }
        let (go, ko) = match &self.connectors[o] {
            Some(c) => (c.parent, c.index),
            None => {
                return Err(EditError::InvariantViolation);
            },
        };
        proof {
            assert(self@.has_port(o) && self@.has_port(i));
            assert(self@.port_ok(o));
            assert(self@.port_ok(i));
            assert(self@.gate_ok(go));
            assert(self@.gate_ok(gi));
        }
        let w = self.lines.len();
        let line = ConnectionLine::new(
            ConnInfo { entity: o, index: ko },
            ConnInfo { entity: i, index: ji },
        );
        self.lines.push(Some(line));
        match &mut self.connectors[i] {
            Some(c) => {
                c.connections.0.push(w);
                c.occupied = true;
            },
            None => {},
        }
        match &mut self.connectors[o] {
            Some(c) => {
                c.connections.0.push(w);
            },
            None => {},
        }
        insert_target(&mut self.targets[go].0[ko], gi, ji);
        proof {
            let before = old(self)@;
            let after = before.connect(o, i);
            assert(self@.wires =~= after.wires);
            assert(self@.ports =~= after.ports);
            assert(self@.gates =~= after.gates) by {
                assert forall|g: int| 0 <= g < self.gates.len() implies self.gate_view(g)
                    == after.gates[g] by {
                    if g == go {
                        assert(fan_outs(self.targets[g]) =~= after.gates[g].targets) by {
                            assert(fan_out(self.targets[g].0[ko as int])
                                =~= after.gates[g].targets[ko as int]);
                        }
                    } else {
                        assert(self.targets[g] == old(self).targets[g]);
                    }
                }
            }
            assert(before.wires.len() < usize::MAX) by {
                assert(self.lines.len() == before.wires.len() + 1);
            }
            assert(before.connectable(o, i));
            before.lemma_connect_linked(o, i);
            assert forall|g: usize| after.has_gate(g) implies (#[trigger] after.gate(
                g,
            )).in_range() by {
                assert(before.gate(g).in_range());
            }
        }
        Ok(w)
    }

    /// Takes the live line `wire` away and tells whether the fan-out table
    /// listed it, which it always does.
    fn unlink(&mut self, wire: usize) -> (found: bool)
        requires
            old(self).linked(),
            old(self)@.has_wire(wire),
        ensures
            final(self).linked(),
            final(self)@ == old(self)@.disconnect(wire),
            found,
    {
        let line = match self.lines[wire] {
            Some(l) => l,
            None => {
                assert(false);
                return false;
            },
        };
        let o = line.output.entity;
        let i = line.input.entity;
        proof {
            assert(self@.wire_ok(wire));
            assert(self@.port_ok(o));
            assert(self@.port_ok(i));
            assert(self@.gate_ok(self@.port(o).parent));
            assert(self@.gate_ok(self@.port(i).parent));
        }
        let (gi, ji) = match &mut self.connectors[i] {
            Some(c) => {
                c.connections.0.clear();
                c.occupied = false;
                (c.parent, c.index)
            },
            None => {
                assert(false);
                return false;
            },
        };
        let (go, ko) = match &mut self.connectors[o] {
            Some(c) => {
                remove_first(&mut c.connections.0, wire);
                (c.parent, c.index)
            },
            None => {
                assert(false);
                return false;
            },
        };
        let found = take_target(&mut self.targets[go].0[ko], gi, ji);
        self.lines[wire] = None;
        proof {
            let before = old(self)@;
            let after = before.disconnect(wire);
            assert(self@.wires =~= after.wires);
            assert(self@.ports =~= after.ports);
            assert(self@.gates =~= after.gates) by {
                assert forall|g: int| 0 <= g < self.gates.len() implies self.gate_view(g)
                    == after.gates[g] by {
                    if g == go {
                        assert(fan_outs(self.targets[g]) =~= after.gates[g].targets) by {
                            assert(fan_out(self.targets[g].0[ko as int])
                                =~= after.gates[g].targets[ko as int]);
                        }
                    } else {
                        assert(self.targets[g] == old(self).targets[g]);
                    }
                }
            }
            before.lemma_disconnect_linked(wire);
            before.lemma_disconnect_source(wire, gi, ji);
            assert(before.fanout_ok(go, ko));
            assert(before.feeds(go, ko, gi, ji));
            assert(before.listed(go, ko, gi, ji));
        }
        found
    }

    /// Takes connection line `wire` away. The handle of a line that does
    /// not exist is refused, and the circuit stays as it is.
    pub fn disconnect(&mut self, wire: usize) -> (r: Result<(), EditError>)
        requires
            old(self).wf(),
        ensures
            final(self).wf(),
            match r {
                Ok(_) => old(self)@.has_wire(wire) && final(self)@ == old(self)@.disconnect(wire),
                Err(e) => !old(self)@.has_wire(wire) && e == EditError::InvariantViolation
                    && final(self)@ == old(self)@,
            },
    {
        if wire >= self.lines.len() {
            return Err(EditError::InvariantViolation);
        }
        if self.lines[wire].is_none() {
            return Err(EditError::InvariantViolation);
        }
        let found = self.unlink(wire);
        proof {
            let before = old(self)@;
            before.lemma_disconnect_frame(wire);
            assert forall|g: usize| self@.has_gate(g) implies (#[trigger] self@.gate(
                g,
            )).in_range() by {
                assert(before.gate(g).in_range());
            }
        }
        // Never taken: the fan-out table of a well-formed circuit lists every
        // line, so the search for this one has succeeded.
        if !found {
            return Err(EditError::InvariantViolation);
        }
        Ok(())
    }

    /// Adds a gate without inputs and outputs and returns its handle.
    fn push_gate(&mut self, name: String, in_range: NodeRange, out_range: NodeRange) -> (g: usize)
        requires
            old(self).linked(),
        ensures
            final(self).linked(),
            g == old(self)@.gates.len(),
            final(self)@ == old(self)@.push_gate(name@, in_range, out_range),
    {
        let g = self.gates.len();
        self.gates.push(Gate { inputs: 0, outputs: 0, in_range, out_range });
        self.names.push(Name(name));
        self.inputs.push(Inputs(Vec::new()));
        self.outputs.push(Outputs(Vec::new()));
        self.transitions.push(Transitions(Vec::new()));
        self.targets.push(Targets(Vec::new()));
        self.in_ports.push(Vec::new());
        self.out_ports.push(Vec::new());
        proof {
            let before = old(self)@;
            let after = before.push_gate(name@, in_range, out_range);
            assert(self@.ports =~= after.ports);
            assert(self@.gates =~= after.gates) by {
                assert forall|x: int| 0 <= x < self.gates.len() implies self.gate_view(x)
                    == after.gates[x] by {
                    if x == g {
                        assert(fan_outs(self.targets[x]) =~= Seq::empty());
                    } else {
                        assert(self.gate_view(x) == old(self).gate_view(x));
                    }
                }
            }
            assert(before.gates.len() < usize::MAX) by {
                assert(self.gates.len() == before.gates.len() + 1);
            }
            before.lemma_push_gate_linked(name@, in_range, out_range);
        }
        g
    }

    /// Gives gate `g` one more input slot with a new connector.
    fn push_input(&mut self, g: usize)
        requires
            old(self).linked(),
            old(self)@.has_gate(g),
            old(self)@.gate(g).gate.inputs < u32::MAX,
        ensures
            final(self).linked(),
            final(self)@ == old(self)@.add_input(g),
    {
        let index = self.in_ports[g].len();
        let h = self.connectors.len();
        self.connectors.push(Some(Connector::new(ConnectorType::In, index, g)));
        self.in_ports[g].push(h);
        self.inputs[g].0.push(State::Unknown);
        self.gates[g].inputs = self.gates[g].inputs + 1;
        proof {
            let before = old(self)@;
            let after = before.add_input(g);
            assert(self@.ports =~= after.ports);
            assert(self@.gates =~= after.gates) by {
                assert forall|x: int| 0 <= x < self.gates.len() implies self.gate_view(x)
                    == after.gates[x] by {
                    if x != g {
                        assert(self.gate_view(x) == old(self).gate_view(x));
                    }
                }
            }
            assert(before.ports.len() < usize::MAX) by {
                assert(self.connectors.len() == before.ports.len() + 1);
            }
            before.lemma_add_input_linked(g);
        }
    }

    /// Gives gate `g` one more output slot, computed by `t`, with a new
    /// connector.
    fn push_output(&mut self, g: usize, t: Transition)
        requires
            old(self).linked(),
            old(self)@.has_gate(g),
            old(self)@.gate(g).gate.outputs < u32::MAX,
        ensures
            final(self).linked(),
            final(self)@ == old(self)@.add_output(g, t),
    {
        broadcast use vstd::std_specs::hash::group_hash_axioms;

        proof {
            assert(self@.gate_ok(g));
        }
        let index = self.out_ports[g].len();
        let h = self.connectors.len();
        self.connectors.push(Some(Connector::new(ConnectorType::Out, index, g)));
        self.out_ports[g].push(h);
        self.outputs[g].0.push(State::Unknown);
        self.transitions[g].0.push(t);
        self.targets[g].0.push(TargetMap::new());
        self.gates[g].outputs = self.gates[g].outputs + 1;
        proof {
            let before = old(self)@;
            let after = before.add_output(g, t);
            assert(self@.ports =~= after.ports);
            assert(self@.gates =~= after.gates) by {
                assert forall|x: int| 0 <= x < self.gates.len() implies self.gate_view(x)
                    == after.gates[x] by {
                    if x != g {
                        assert(self.gate_view(x) == old(self).gate_view(x));
                    } else {
                        assert(fan_outs(self.targets[x]) =~= after.gates[x].targets) by {
                            assert(fan_out(self.targets[x].0[index as int]) =~= Map::empty());
                        }
                    }
                }
            }
            assert(before.ports.len() < usize::MAX) by {
                assert(self.connectors.len() == before.ports.len() + 1);
            }
            before.lemma_add_output_linked(g, t);
        }
    }

    /// Takes every line attached to connector `h` away.
    fn detach_all(&mut self, h: usize)
        requires
            old(self).linked(),
            old(self)@.has_port(h),
        ensures
            final(self).linked(),
            final(self)@ == old(self)@.detach_all(h),
    {
        let ghost before = self@;
        let ghost total = before.port(h).connections.len();
        let ghost mut done: nat = 0;
        loop
            invariant
                self.linked(),
                before == old(self)@,
                before.linked(),
                before.has_port(h),
                total == before.port(h).connections.len(),
                done <= total,
                self@ == before.detach(h, done),
                self@.has_port(h),
                self@.port(h).connections == before.port(h).connections.skip(done as int),
            ensures
                self.linked(),
                self@ == before.detach(h, total),
            decreases total - done,
        {
            let wire = match &self.connectors[h] {
                Some(c) => {
                    if c.connections.0.len() == 0 {
                        break ;
                    }
                    c.connections.0[0]
                },
                None => {
                    assert(false);
                    break ;
                },
            };
            proof {
                assert(self@.port_ok(h));
                assert(self@.attached(wire, h, self@.port(h).ctype));
                before.lemma_detach_next(h, done);
                before.lemma_detach(h, done + 1);
            }
            self.unlink(wire);
            proof {
                done = done + 1;
            }
        }
    }

    /// Takes the last input slot of gate `g` away, with its connector and
    /// the line on it.
    fn pop_input(&mut self, g: usize)
        requires
            old(self).linked(),
            old(self)@.has_gate(g),
            old(self)@.gate(g).in_ports.len() > 0,
        ensures
            final(self).linked(),
            final(self)@ == old(self)@.drop_input(g),
    {
        let last = self.in_ports[g].len() - 1;
        let h = self.in_ports[g][last];
        proof {
            assert(self@.gate_ok(g));
            assert(self@.is_port_of(h, ConnectorType::In, g, last as int));
            self@.lemma_detach(h, self@.port(h).connections.len());
        }
        self.detach_all(h);
        let ghost mid = self@;
        proof {
            assert(mid.gate_ok(g));
        }
        self.connectors[h] = None;
        self.in_ports[g].pop();
        self.inputs[g].0.pop();
        self.gates[g].inputs = self.gates[g].inputs - 1;
        proof {
            let before = old(self)@;
            let after = before.drop_input(g);
            assert(self@.ports =~= after.ports);
            assert(self@.gates =~= after.gates) by {
                assert forall|x: int| 0 <= x < self.gates.len() implies self.gate_view(x)
                    == after.gates[x] by {
                    if x != g {
                        assert(self.gate_view(x) == mid.gates[x]);
                    } else {
                        assert(self.gate_view(x).inputs =~= after.gates[x].inputs);
                        assert(self.gate_view(x).in_ports =~= after.gates[x].in_ports);
                    }
                }
            }
            before.lemma_drop_input_linked(g);
        }
    }

    /// Takes the last output slot of gate `g` away, with its connector and
    /// the lines on it.
    fn pop_output(&mut self, g: usize)
        requires
            old(self).linked(),
            old(self)@.has_gate(g),
            old(self)@.gate(g).out_ports.len() > 0,
        ensures
            final(self).linked(),
            final(self)@ == old(self)@.drop_output(g),
    {
        let last = self.out_ports[g].len() - 1;
        let h = self.out_ports[g][last];
        proof {
            assert(self@.gate_ok(g));
            assert(self@.is_port_of(h, ConnectorType::Out, g, last as int));
            self@.lemma_detach(h, self@.port(h).connections.len());
        }
        self.detach_all(h);
        let ghost mid = self@;
        let ghost mid_targets = self.targets[g as int];
        proof {
            assert(mid.gate_ok(g));
        }
        self.connectors[h] = None;
        self.out_ports[g].pop();
        self.outputs[g].0.pop();
        self.transitions[g].0.pop();
        self.targets[g].0.pop();
        self.gates[g].outputs = self.gates[g].outputs - 1;
        proof {
            let before = old(self)@;
            let after = before.drop_output(g);
            assert(self@.ports =~= after.ports);
            assert(self@.gates =~= after.gates) by {
                assert forall|x: int| 0 <= x < self.gates.len() implies self.gate_view(x)
                    == after.gates[x] by {
                    if x != g {
                        assert(self.gate_view(x) == mid.gates[x]);
                    } else {
                        assert(self.gate_view(x).outputs =~= after.gates[x].outputs);
                        assert(self.gate_view(x).transitions =~= after.gates[x].transitions);
                        assert(self.gate_view(x).out_ports =~= after.gates[x].out_ports);
                        assert(mid.gates[x].targets == fan_outs(mid_targets));
                        assert(self.gate_view(x).targets =~= after.gates[x].targets);
                    }
                }
            }
            before.lemma_drop_output_linked(g);
        }
    }

    /// Gives gate `gate` `count` input slots. Slots beyond `count` go, from
    /// the last one down, each with its connector and the line on it;
    /// missing slots come with a free connector and the value `Unknown`.
    /// A gate that does not exist or a count outside its input
    /// range is refused, and the circuit stays as it is.
    pub fn resize_inputs(&mut self, gate: usize, count: u32) -> (r: Result<(), EditError>)
        requires
            old(self).wf(),
        ensures
            final(self).wf(),
            match r {
                Ok(_) => {
                    &&& old(self)@.resize_error(gate, old(self)@.gate(gate).gate.in_range, count)
                        is None
                    &&& final(self)@ == old(self)@.resize_inputs(gate, count as nat)
                    &&& count <= old(self)@.gate(gate).in_ports.len()
                        ==> final(self)@.cut_inputs_of(old(self)@, gate, count as nat)
                },
                Err(e) => {
                    &&& old(self)@.resize_error(gate, old(self)@.gate(gate).gate.in_range, count)
                        == Some(e)
                    &&& final(self)@ == old(self)@
                },
            },
    {
        if gate >= self.gates.len() {
            return Err(EditError::InvariantViolation);
        }
        if !self.gates[gate].in_range.contains(count) {
            return Err(EditError::ArityOutOfRange);
        }
        let ghost before = self@;
        let ghost len = before.gate(gate).in_ports.len();
        let ghost mut done: nat = 0;
        proof {
            assert(before.gate_ok(gate));
        }
        if self.in_ports[gate].len() >= count as usize {
            while self.in_ports[gate].len() > count as usize
                invariant
                    self.linked(),
                    before.has_gate(gate),
                    len == before.gate(gate).in_ports.len(),
                    len >= count,
                    done <= len - count,
                    self@ == before.drop_inputs(gate, done),
                    self@.same_arity_but(before, gate),
                    self@.gate(gate).gate.outputs == before.gate(gate).gate.outputs,
                    self.in_ports[gate as int].len() == len - done,
                decreases len - done,
            {
                proof {
                    before.lemma_drop_inputs_next(gate, done);
                    self@.lemma_drop_input_arity(gate);
                }
                self.pop_input(gate);
                proof {
                    done = done + 1;
                }
            }
            proof {
                before.lemma_drop_inputs_shape(gate, done);
            }
        } else {
            while self.in_ports[gate].len() < count as usize
                invariant
                    self.linked(),
                    before.has_gate(gate),
                    len == before.gate(gate).in_ports.len(),
                    len < count,
                    done <= count - len,
                    self@ == before.add_inputs(gate, done),
                    self@.same_arity_but(before, gate),
                    self@.gate(gate).gate.outputs == before.gate(gate).gate.outputs,
                    self.in_ports[gate as int].len() == len + done,
                    self.connectors.len() == before.ports.len() + done,
                decreases count - len - done,
            {
                proof {
                    assert(self@.gate_ok(gate));
                    before.lemma_add_inputs_next(gate, done);
                    self@.lemma_add_input_arity(gate);
                }
                self.push_input(gate);
                proof {
                    done = done + 1;
                }
            }
            proof {
                before.lemma_add_inputs_shape(gate, done);
            }
        }
        proof {
            assert(self@.gate_ok(gate));
            assert forall|g: usize| self@.has_gate(g) implies (#[trigger] self@.gate(
                g,
            )).in_range() by {
                assert(before.gate(g).in_range());
            }
        }
        Ok(())
    }

    /// Gives gate `gate` `count` output slots. Slots beyond `count` go,
    /// from the last one down, each with its connector and the lines on
    /// it; missing slots come with a connector, the value `Unknown` and a
    /// rule that is constantly `Unknown`. A gate that does not exist or a
    /// count outside its output range is refused, and the circuit
    /// stays as it is.
    pub fn resize_outputs(&mut self, gate: usize, count: u32) -> (r: Result<(), EditError>)
        requires
            old(self).wf(),
        ensures
            final(self).wf(),
            match r {
                Ok(_) => {
                    &&& old(self)@.resize_error(gate, old(self)@.gate(gate).gate.out_range, count)
                        is None
                    &&& final(self)@ == old(self)@.resize_outputs(gate, count as nat)
                    &&& count <= old(self)@.gate(gate).out_ports.len()
                        ==> final(self)@.cut_outputs_of(old(self)@, gate, count as nat)
                },
                Err(e) => {
                    &&& old(self)@.resize_error(gate, old(self)@.gate(gate).gate.out_range, count)
                        == Some(e)
                    &&& final(self)@ == old(self)@
                },
            },
    {
        if gate >= self.gates.len() {
            return Err(EditError::InvariantViolation);
        }
        if !self.gates[gate].out_range.contains(count) {
            return Err(EditError::ArityOutOfRange);
        }
        let ghost before = self@;
        let ghost len = before.gate(gate).out_ports.len();
        let ghost mut done: nat = 0;
        proof {
            assert(before.gate_ok(gate));
        }
        if self.out_ports[gate].len() >= count as usize {
            while self.out_ports[gate].len() > count as usize
                invariant
                    self.linked(),
                    before.has_gate(gate),
                    len == before.gate(gate).out_ports.len(),
                    len >= count,
                    done <= len - count,
                    self@ == before.drop_outputs(gate, done),
                    self@.same_arity_but(before, gate),
                    self@.gate(gate).gate.inputs == before.gate(gate).gate.inputs,
                    self.out_ports[gate as int].len() == len - done,
                decreases len - done,
            {
                proof {
                    before.lemma_drop_outputs_next(gate, done);
                    self@.lemma_drop_output_arity(gate);
                }
                self.pop_output(gate);
                proof {
                    done = done + 1;
                }
            }
            proof {
                before.lemma_drop_outputs_shape(gate, done);
            }
        } else {
            while self.out_ports[gate].len() < count as usize
                invariant
                    self.linked(),
                    before.has_gate(gate),
                    len == before.gate(gate).out_ports.len(),
                    len < count,
                    done <= count - len,
                    self@ == before.add_outputs(gate, CircuitView::idle_rules(done)),
                    self@.same_arity_but(before, gate),
                    self@.gate(gate).gate.inputs == before.gate(gate).gate.inputs,
                    self.out_ports[gate as int].len() == len + done,
                    self.connectors.len() == before.ports.len() + done,
                decreases count - len - done,
            {
                let t = Transition::Constant(State::Unknown);
                proof {
                    assert(self@.gate_ok(gate));
                    before.lemma_add_outputs_next(gate, CircuitView::idle_rules(done), t);
                    assert(CircuitView::idle_rules(done + 1) =~= CircuitView::idle_rules(done).push(
                        t,
                    ));
                    self@.lemma_add_output_arity(gate, t);
                }
                self.push_output(gate, t);
                proof {
                    done = done + 1;
                }
            }
            proof {
                before.lemma_add_outputs_shape(gate, CircuitView::idle_rules(done));
            }
        }
        proof {
            assert(self@.gate_ok(gate));
            assert forall|g: usize| self@.has_gate(g) implies (#[trigger] self@.gate(
                g,
            )).in_range() by {
                assert(before.gate(g).in_range());
            }
        }
        Ok(())
    }

    /// First phase of a tick: every gate computes each of its outputs
    /// from its own inputs.
    fn transition(&mut self)
        requires
            old(self).wf(),
        ensures
            final(self).wf(),
            final(self)@ == old(self)@.transitioned(),
    {
        let ghost before = self@;
        let ghost after = before.transitioned();
        let n = self.gates.len();
        for g in 0..n
            invariant
                n == self.gates.len(),
                before == old(self)@,
                after == before.transitioned(),
                old(self).wf(),
                self.same_but_outputs(old(self)),
                self.outputs.len() == n,
                forall|x: int| g <= x < n ==> self.outputs[x] == old(self).outputs[x],
                forall|x: int|
                    0 <= x < g ==> (#[trigger] self.outputs[x]).0@ == after.gates[x].outputs,
        {
            proof {
                assert(before.gate_ok(g));
            }
            let m = self.transitions[g].0.len();
            for k in 0..m
                invariant
                    g < n == self.gates.len(),
                    before == old(self)@,
                    after == before.transitioned(),
                    old(self).wf(),
                    self.same_but_outputs(old(self)),
                    self.outputs.len() == n,
                    m == self.transitions[g as int].0.len(),
                    m == before.gates[g as int].outputs.len(),
                    self.outputs[g as int].0.len() == m,
                    forall|x: int| g < x < n ==> self.outputs[x] == old(self).outputs[x],
                    forall|x: int|
                        0 <= x < g ==> (#[trigger] self.outputs[x]).0@ == after.gates[x].outputs,
                    forall|y: int|
                        0 <= y < k ==> self.outputs[g as int].0@[y] == after.gates[g as int].outputs[
                            y
                        ],
            {
                let v = self.transitions[g].0[k].apply(self.inputs[g].0.as_slice());
                self.outputs[g].0[k] = v;
            }
            proof {
                assert(self.outputs[g as int].0@ =~= after.gates[g as int].outputs);
            }
        }
        proof {
            assert(self@.ports =~= after.ports);
            assert(self@.gates =~= after.gates) by {
                assert forall|x: int| 0 <= x < self.gates.len() implies self.gate_view(x)
                    == after.gates[x] by {
                    assert(self.outputs[x].0@ == after.gates[x].outputs);
                    assert(old(self).gate_view(x) == before.gates[x]);
                }
            }
            before.lemma_step_wf();
        }
    }

    /// Whether this circuit differs from `other` in the values of the
    /// outputs at most.
    spec fn same_but_outputs(&self, other: &Circuit) -> bool {
        &&& self.gates@ == other.gates@
        &&& self.names@ == other.names@
        &&& self.inputs@ == other.inputs@
        &&& self.transitions@ == other.transitions@
        &&& self.targets@ == other.targets@
        &&& self.in_ports@ == other.in_ports@
        &&& self.out_ports@ == other.out_ports@
        &&& self.connectors@ == other.connectors@
        &&& self.lines@ == other.lines@
    }

    /// Whether this circuit differs from `other` in the values of the
    /// inputs at most.
    spec fn same_but_inputs(&self, other: &Circuit) -> bool {
        &&& self.gates@ == other.gates@
        &&& self.names@ == other.names@
        &&& self.outputs@ == other.outputs@
        &&& self.transitions@ == other.transitions@
        &&& self.targets@ == other.targets@
        &&& self.in_ports@ == other.in_ports@
        &&& self.out_ports@ == other.out_ports@
        &&& self.connectors@ == other.connectors@
        &&& self.lines@ == other.lines@
    }

    /// Second phase of a tick: every output is written to the inputs that
    /// its fan-out table lists. A listed gate or slot that does not exist
    /// is passed over.
    fn propagate(&mut self)
        requires
            old(self).wf(),
        ensures
            final(self).wf(),
            final(self)@ == old(self)@.propagated(),
    {
        broadcast use vstd::std_specs::hash::group_hash_axioms;

        let ghost before = self@;
        let n = self.gates.len();
        for g in 0..n
            invariant
                n == self.gates.len(),
                before == old(self)@,
                old(self).wf(),
                self.same_but_inputs(old(self)),
                Stage::at(g as int, 0).settled(before, self.inputs@),
        {
            proof {
                assert(before.gate_ok(g));
            }
            let m = self.outputs[g].0.len();
            for k in 0..m
                invariant
                    g < n == self.gates.len(),
                    before == old(self)@,
                    old(self).wf(),
                    self.same_but_inputs(old(self)),
                    m == before.gate(g).targets.len(),
                    m == self.outputs[g as int].0.len(),
                    m == self.targets[g as int].0.len(),
                    Stage::at(g as int, k as int).settled(before, self.inputs@),
            {
                let v = self.outputs[g].0[k];
                let tm = &self.targets[g].0[k];
                proof {
                    assert(before.gate(g).outputs[k as int] == v);
                    assert(before.gate(g).targets[k as int] == fan_out(*tm));
                    assert(keys_of(vstd::std_specs::hash::spec_hash_map_iter(tm).remaining(), 0)
                        =~= Seq::<usize>::empty());
                }
                for kv in it: tm.iter()
                    invariant
                        g < n == self.gates.len(),
                        k < m,
                        before == old(self)@,
                        old(self).wf(),
                        self.same_but_inputs(old(self)),
                        m == before.gate(g).targets.len(),
                        before.gate(g).outputs[k as int] == v,
                        before.gate(g).targets[k as int] == fan_out(*tm),
                        it.seq() == vstd::std_specs::hash::spec_hash_map_iter(tm).remaining(),
                        Stage::after(g as int, k as int, keys_of(it.seq(), it.index())).settled(
                            before,
                            self.inputs@,
                        ),
                {
                    let (to, list) = kv;
                    let ghost visited = keys_of(it.seq(), it.index());
                    let ghost entry = Stage {
                        g: g as int,
                        k: k as int,
                        visited,
                        current: *to,
                        done: Seq::empty(),
                    };
                    proof {
                        assert(it.seq()[it.index()] == kv);
                        assert(tm@.contains_key(*to) && tm@[*to] == *list);
                        Stage::after(g as int, k as int, visited).lemma_same(
                            entry,
                            before,
                            self.inputs@,
                        );
                        assert(list@.take(0) =~= Seq::<usize>::empty());
                    }
                    if *to < self.inputs.len() {
                        let len = list.len();
                        for p in 0..len
                            invariant
                                g < n == self.gates.len(),
                                k < m,
                                *to < self.inputs.len(),
                                len == list.len(),
                                before == old(self)@,
                                old(self).wf(),
                                self.same_but_inputs(old(self)),
                                m == before.gate(g).targets.len(),
                                before.gate(g).outputs[k as int] == v,
                                before.gate(g).targets[k as int] == fan_out(*tm),
                                tm@.contains_key(*to) && tm@[*to] == *list,
                                entry == (Stage {
                                    g: g as int,
                                    k: k as int,
                                    visited,
                                    current: *to,
                                    done: Seq::empty(),
                                }),
                                (Stage { done: list@.take(p as int), ..entry }).settled(
                                    before,
                                    self.inputs@,
                                ),
                        {
                            let j = list[p];
                            let ghost prior = self.inputs@;
                            if j < self.inputs[*to].0.len() {
                                self.inputs[*to].0[j] = v;
                            }
                            proof {
                                assert(list@.take(p + 1) =~= list@.take(p as int).push(j));
                                assert(list@[p as int] == j);
                                assert(before.listed(g, k, *to, j));
                                (Stage { done: list@.take(p as int), ..entry }).lemma_write(
                                    before,
                                    prior,
                                    self.inputs@,
                                    j,
                                );
                            }
                        }
                        proof {
                            assert(list@.take(len as int) =~= list@);
                        }
                    } else {
                        proof {
                            entry.lemma_same(
                                Stage { done: list@, ..entry },
                                before,
                                self.inputs@,
                            );
                        }
                    }
                    proof {
                        let next = keys_of(it.seq(), it.index() + 1);
                        assert(next =~= visited.push(*to));
                        lemma_contains_push(visited, *to);
                        let through = Stage::after(g as int, k as int, next);
                        assert forall|t2: usize, j2: usize|
                            before.has_gate(t2) && (j2 as int) < before.gate(
                                t2,
                            ).inputs.len() implies (Stage { done: list@, ..entry }).reached(
                            before,
                            t2,
                            j2,
                        ) == #[trigger] through.reached(before, t2, j2) by {
                            assert(before.gate_ok(t2));
                            before.lemma_source_listed(t2, j2);
                        }
                        (Stage { done: list@, ..entry }).lemma_same(through, before, self.inputs@);
                    }
                }
                proof {
                    let walk = vstd::std_specs::hash::spec_hash_map_iter(tm).remaining();
                    let all = Stage::after(g as int, k as int, keys_of(walk, walk.len() as int));
                    assert(all.settled(before, self.inputs@));
                    assert forall|t2: usize, j2: usize|
                        before.has_gate(t2) && (j2 as int) < before.gate(
                            t2,
                        ).inputs.len() implies all.reached(before, t2, j2) == #[trigger] Stage::at(
                        g as int,
                        k + 1,
                    ).reached(before, t2, j2) by {
                        assert(before.gate_ok(t2));
                        before.lemma_source_listed(t2, j2);
                        if before.source(t2, j2) == Some((g, k)) {
                            assert(before.listed(g, k, t2, j2));
                            assert(tm@.contains_key(t2));
                            assert(walk.contains((&t2, &tm@[t2])));
                            let a = choose|a: int|
                                0 <= a < walk.len() && walk[a] == (&t2, &tm@[t2]);
                            assert(all.visited[a] == t2);
                        }
                    }
                    all.lemma_same(Stage::at(g as int, k + 1), before, self.inputs@);
                }
            }
            proof {
                assert forall|t2: usize, j2: usize|
                    before.has_gate(t2) && (j2 as int) < before.gate(
                        t2,
                    ).inputs.len() implies Stage::at(g as int, m as int).reached(before, t2, j2)
                    == #[trigger] Stage::at(g + 1, 0).reached(before, t2, j2) by {
                    assert(before.gate_ok(t2));
                    before.lemma_source_listed(t2, j2);
                }
                Stage::at(g as int, m as int).lemma_same(
                    Stage::at(g + 1, 0),
                    before,
                    self.inputs@,
                );
            }
        }
        proof {
            let after = before.propagated();
            assert(self@.ports =~= after.ports);
            assert(self@.gates =~= after.gates) by {
                assert forall|x: int| 0 <= x < self.gates.len() implies self.gate_view(x)
                    == after.gates[x] by {
                    assert(old(self).gate_view(x) == before.gates[x]);
                    assert(self.inputs[x].0@ =~= after.gates[x].inputs) by {
                        assert forall|j: int|
                            0 <= j < self.inputs[x].0@.len() implies self.inputs@[x].0@[j]
                            == after.gates[x].inputs[j] by {
                            assert(before.gate_ok(x as usize));
                            before.lemma_source_listed(x as usize, j as usize);
                        }
                    }
                }
            }
            before.lemma_values_only(after);
        }
    }

    /// Advances the simulation by one tick. First every gate computes each
    /// of its outputs from the inputs it had before the tick; then every
    /// output is written to the inputs that it feeds. An input without a
    /// line keeps its value.
    pub fn step(&mut self)
        requires
            old(self).wf(),
        ensures
            final(self).wf(),
            final(self)@ == old(self)@.step(),
    {
        self.transition();
        self.propagate();
    }

    /// Carries out one request of the interaction layer. A request to
    /// connect answers with the handle of the new line, the others with
    /// `None`. A refused request leaves the circuit as it is.
    pub fn serve(&mut self, request: Request) -> (r: Result<Option<usize>, EditError>)
        requires
            old(self).wf(),
        ensures
            final(self).wf(),
            match r {
                Ok(w) => {
                    &&& old(self)@.request_error(request) is None
                    &&& final(self)@ == old(self)@.served(request)
                    &&& w == (match request {
                        Request::Connect { from, to } => Some(old(self)@.wires.len() as usize),
                        _ => None,
                    })
                },
                Err(e) => old(self)@.request_error(request) == Some(e) && final(self)@ == old(
                    self,
                )@,
            },
    {
        match request {
            Request::Connect { from, to } => match self.connect(from, to) {
                Ok(w) => Ok(Some(w)),
                Err(e) => Err(e),
            },
            Request::Disconnect { wire } => match self.disconnect(wire) {
                Ok(_) => Ok(None),
                Err(e) => Err(e),
            },
            Request::ResizeInputs { gate, count } => match self.resize_inputs(gate, count) {
                Ok(_) => Ok(None),
                Err(e) => Err(e),
            },
        }
    }

    /// The number of gates, which is also the handle of the next gate.
    pub fn gate_count(&self) -> (r: usize)
        ensures
            r == self@.gates.len(),
    {
        self.gates.len()
    }

    /// The arity of gate `gate`, if there is such a gate.
    pub fn gate_of(&self, gate: usize) -> (r: Option<Gate>)
        ensures
            r == (if self@.has_gate(gate) {
                Some(self@.gate(gate).gate)
            } else {
                None
            }),
    {
        if gate < self.gates.len() {
            Some(self.gates[gate])
        } else {
            None
        }
    }

    /// The name of gate `gate`, if there is such a gate.
    pub fn name_of(&self, gate: usize) -> (r: Option<&Name>)
        requires
            self.wf(),
        ensures
            r is Some == self@.has_gate(gate),
            r matches Some(n) ==> n.0@ == self@.gate(gate).name,
    {
        if gate < self.gates.len() {
            Some(&self.names[gate])
        } else {
            None
        }
    }

    /// The input values of gate `gate`, if there is such a gate.
    pub fn inputs_of(&self, gate: usize) -> (r: Option<&Inputs>)
        requires
            self.wf(),
        ensures
            r is Some == self@.has_gate(gate),
            r matches Some(v) ==> v.0@ == self@.gate(gate).inputs,
    {
        if gate < self.gates.len() {
            Some(&self.inputs[gate])
        } else {
            None
        }
    }

    /// The output values of gate `gate`, if there is such a gate.
    pub fn outputs_of(&self, gate: usize) -> (r: Option<&Outputs>)
        requires
            self.wf(),
        ensures
            r is Some == self@.has_gate(gate),
            r matches Some(v) ==> v.0@ == self@.gate(gate).outputs,
    {
        if gate < self.gates.len() {
            Some(&self.outputs[gate])
        } else {
            None
        }
    }

    /// The rules of gate `gate`, if there is such a gate.
    pub fn transitions_of(&self, gate: usize) -> (r: Option<&Transitions>)
        requires
            self.wf(),
        ensures
            r is Some == self@.has_gate(gate),
            r matches Some(v) ==> v.0@ == self@.gate(gate).transitions,
    {
        if gate < self.gates.len() {
            Some(&self.transitions[gate])
        } else {
            None
        }
    }

    /// The fan-out tables of gate `gate`, if there is such a gate.
    pub fn targets_of(&self, gate: usize) -> (r: Option<&Targets>)
        requires
            self.wf(),
        ensures
            r is Some == self@.has_gate(gate),
            r matches Some(v) ==> fan_outs(*v) == self@.gate(gate).targets,
    {
        if gate < self.gates.len() {
            Some(&self.targets[gate])
        } else {
            None
        }
    }

    /// The connectors of gate `gate`, if there is such a gate: those of its
    /// inputs, then those of its outputs.
    pub fn ports_of(&self, gate: usize) -> (r: Option<Vec<usize>>)
        requires
            self.wf(),
        ensures
            r is Some == self@.has_gate(gate),
            r matches Some(v) ==> v@ == self@.ports_of(gate),
    {
        if gate >= self.gates.len() {
            return None;
        }
        let mut v: Vec<usize> = Vec::new();
        let ins = &self.in_ports[gate];
        let outs = &self.out_ports[gate];
        for j in 0..ins.len()
            invariant
                v@ == ins@.take(j as int),
        {
            v.push(ins[j]);
            assert(ins@.take(j + 1) =~= ins@.take(j as int).push(ins@[j as int]));
        }
        assert(ins@.take(ins@.len() as int) =~= ins@);
        for k in 0..outs.len()
            invariant
                v@ == ins@ + outs@.take(k as int),
        {
            v.push(outs[k]);
            assert(ins@ + outs@.take(k + 1) =~= (ins@ + outs@.take(k as int)).push(
                outs@[k as int],
            ));
        }
        assert(outs@.take(outs@.len() as int) =~= outs@);
        Some(v)
    }

    /// The connector with handle `port`, if it exists.
    pub fn connector(&self, port: usize) -> (r: Option<&Connector>)
        requires
            self.wf(),
        ensures
            r is Some == self@.has_port(port),
            r matches Some(c) ==> c@ == self@.port(port),
    {
        if port < self.connectors.len() {
            self.connectors[port].as_ref()
        } else {
            None
        }
    }

    /// Tells whether connector `port` exists and carries the one line it
    /// may carry. An output connector is never occupied.
    pub fn is_occupied(&self, port: usize) -> (r: bool)
        requires
            self.wf(),
        ensures
            r == self@.is_occupied(port),
    {
        if port < self.connectors.len() {
            match &self.connectors[port] {
                Some(c) => c.occupied,
                None => false,
            }
        } else {
            false
        }
    }

    /// The connection line with handle `wire`, if it exists.
    pub fn line(&self, wire: usize) -> (r: Option<ConnectionLine>)
        requires
            self.wf(),
        ensures
            r == (if self@.has_wire(wire) {
                Some(self@.wire(wire))
            } else {
                None
            }),
    {
        if wire < self.lines.len() {
            self.lines[wire]
        } else {
            None
        }
    }

    /// The two connectors that line `wire` joins, the output first, if
    /// the line exists.
    pub fn endpoints_of(&self, wire: usize) -> (r: Option<(usize, usize)>)
        requires
            self.wf(),
        ensures
            r == (if self@.has_wire(wire) {
                Some((self@.wire(wire).output.entity, self@.wire(wire).input.entity))
            } else {
                None
            }),
    {
        match self.line(wire) {
            Some(l) => Some((l.output.entity, l.input.entity)),
            None => None,
        }
    }

    /// The value that line `wire` carries, which is the value of the
    /// output it leads from, if the line exists.
    pub fn state_of(&self, wire: usize) -> (r: Option<State>)
        requires
            self.wf(),
        ensures
            r == (if self@.has_wire(wire) {
                Some(self@.carried(wire))
            } else {
                None
            }),
    {
        let line = match self.line(wire) {
            Some(l) => l,
            None => {
                return None;
            },
        };
        proof {
            assert(self@.wire_ok(wire));
            assert(self@.port_ok(line.output.entity));
            assert(self@.gate_ok(self@.port(line.output.entity).parent));
        }
        match &self.connectors[line.output.entity] {
            Some(c) => Some(self.outputs[c.parent].0[c.index]),
            None => {
                assert(false);
                None
            },
        }
    }
}

impl Gate {
    /// Adds a gate to `circuit` and returns its handle. It has
    /// `in_range.min` inputs and `out_range.min` outputs, each with a free
    /// connector; `functions` holds the rule of each output. Every value
    /// starts as `Unknown`. The request is refused, and the circuit stays
    /// as it is, unless both ranges are in order and there is exactly one
    /// rule per output.
    pub fn new(
        circuit: &mut Circuit,
        name: String,
        in_range: NodeRange,
        out_range: NodeRange,
        functions: Vec<Transition>,
    ) -> (r: Result<usize, EditError>)
        requires
            old(circuit).wf(),
        ensures
            final(circuit).wf(),
            match r {
                Ok(g) => {
                    &&& CircuitView::gate_accepted(in_range, out_range, functions@)
                    &&& g == old(circuit)@.gates.len()
                    &&& final(circuit)@ == old(circuit)@.add_gate(
                        name@,
                        in_range,
                        out_range,
                        functions@,
                    )
                },
                Err(e) => {
                    &&& !CircuitView::gate_accepted(in_range, out_range, functions@)
                    &&& e == EditError::ArityOutOfRange
                    &&& final(circuit)@ == old(circuit)@
                },
            },
    {
        if in_range.min > in_range.max || out_range.min > out_range.max || functions.len()
            != out_range.min as usize {
            return Err(EditError::ArityOutOfRange);
        }
        let ghost before = circuit@;
        let ghost name_view = name@;
        let g = circuit.push_gate(name, in_range, out_range);
        let ghost bare = circuit@;
        let mut i: u32 = 0;
        while i < in_range.min
            invariant
                circuit.linked(),
                i <= in_range.min,
                bare.has_gate(g),
                circuit@ == bare.add_inputs(g, i as nat),
                circuit@.same_arity_but(bare, g),
                circuit@.gate(g).gate.inputs == i,
                circuit@.gate(g).gate.outputs == 0,
                circuit@.ports.len() == bare.ports.len() + i,
            decreases in_range.min - i,
        {
            proof {
                bare.lemma_add_inputs_next(g, i as nat);
                circuit@.lemma_add_input_arity(g);
            }
            circuit.push_input(g);
            i += 1;
        }
        let ghost mid = circuit@;
        let mut k: usize = 0;
        while k < functions.len()
            invariant
                circuit.linked(),
                k <= functions.len() == out_range.min,
                bare.has_gate(g),
                circuit@ == mid.add_outputs(g, functions@.take(k as int)),
                circuit@.same_arity_but(bare, g),
                circuit@.gate(g).gate.inputs == in_range.min,
                circuit@.gate(g).gate.outputs == k,
                circuit@.ports.len() == mid.ports.len() + k,
                mid.ports.len() == before.ports.len() + in_range.min,
            decreases functions.len() - k,
        {
            let t = functions[k];
            proof {
                mid.lemma_add_outputs_next(g, functions@.take(k as int), t);
                assert(functions@.take(k + 1) =~= functions@.take(k as int).push(t));
                circuit@.lemma_add_output_arity(g, t);
            }
            circuit.push_output(g, t);
            k += 1;
        }
        proof {
            assert(functions@.take(k as int) =~= functions@);
            assert(circuit@ == before.assembled(name_view, in_range, out_range, functions@));
            circuit.lemma_view_fits();
            before.lemma_add_gate_shape(name_view, in_range, out_range, functions@);
            assert forall|x: usize| circuit@.has_gate(x) implies (#[trigger] circuit@.gate(
                x,
            )).in_range() by {
                if x != g {
                    assert(bare.gate(x) == before.gate(x));
                    assert(before.gate(x).in_range());
                }
            }
        }
        Ok(g)
    }

    /// Adds a gate to `circuit` that has no input and one output, which
    /// is constantly `state`, and returns its handle.
    pub fn constant(circuit: &mut Circuit, name: String, state: State) -> (g: usize)
        requires
            old(circuit).wf(),
        ensures
            final(circuit).wf(),
            g == old(circuit)@.gates.len(),
            final(circuit)@ == old(circuit)@.add_gate(
                name@,
                NodeRange { min: 0, max: 0 },
                NodeRange { min: 1, max: 1 },
                seq![Transition::Constant(state)],
            ),
    {
        let mut functions: Vec<Transition> = Vec::new();
        functions.push(Transition::Constant(state));
        assert(functions@ =~= seq![Transition::Constant(state)]);
        match Gate::new(
            circuit,
            name,
            NodeRange { min: 0, max: 0 },
            NodeRange { min: 1, max: 1 },
            functions,
        ) {
            Ok(g) => g,
            Err(_) => {
                assert(false);
                0
            },
        }
    }
}

} // verus!
