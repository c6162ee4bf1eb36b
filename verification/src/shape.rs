//! What adding and dropping slots leaves of a circuit, stated slot by
//! slot, connector by connector and line by line.

use vstd::prelude::*;

use crate::connector::ConnectorType;
use crate::gate::Gate;
use crate::gate::NodeRange;
use crate::model::CircuitView;
use crate::model::GateView;
use crate::proofs::lemma_remove_value;
use crate::signal::Transition;

verus! {

impl CircuitView {
    /// Adding input slots one by one gives what [`CircuitView::grown_inputs`]
    /// tells at once.
    pub proof fn lemma_add_inputs_shape(self, g: usize, count: nat)
        requires
            self.has_gate(g),
            self.gate(g).gate.inputs + count <= u32::MAX,
            self.gate(g).in_ports.len() + count <= usize::MAX,
            self.ports.len() + count <= usize::MAX,
        ensures
            self.add_inputs(g, count) == self.grown_inputs(g, count),
        decreases count,
    {
        let n = self.gate(g);
        let d = self.add_inputs(g, count);
        let goal = self.grown_inputs(g, count);
        if count == 0 {
            assert(goal.ports =~= self.ports);
            assert(n.inputs + Self::unknowns(0) =~= n.inputs);
            assert(n.in_ports + Self::handles(self.ports.len(), 0) =~= n.in_ports);
            assert(goal.gates =~= self.gates);
        } else {
            let c = self.add_input(g);
            let rest = (count - 1) as nat;
            c.lemma_add_inputs_shape(g, rest);
            let m = c.gate(g);
            assert(d == c.grown_inputs(g, rest));
            assert(d.ports =~= goal.ports);
            assert(m.inputs + Self::unknowns(rest) =~= n.inputs + Self::unknowns(count));
            assert(m.in_ports + Self::handles(c.ports.len(), rest) =~= n.in_ports + Self::handles(
                self.ports.len(),
                count,
            ));
            assert(d.gates =~= goal.gates);
        }
    }

    /// Adding output slots one by one gives what
    /// [`CircuitView::grown_outputs`] tells at once.
    pub proof fn lemma_add_outputs_shape(self, g: usize, rules: Seq<Transition>)
        requires
            self.has_gate(g),
            self.gate(g).gate.outputs + rules.len() <= u32::MAX,
            self.gate(g).out_ports.len() + rules.len() <= usize::MAX,
            self.ports.len() + rules.len() <= usize::MAX,
        ensures
            self.add_outputs(g, rules) == self.grown_outputs(g, rules),
        decreases rules.len(),
    {
        let n = self.gate(g);
        let d = self.add_outputs(g, rules);
        let count = rules.len();
        let goal = self.grown_outputs(g, rules);
        if count == 0 {
            assert(goal.ports =~= self.ports);
            assert(n.outputs + Self::unknowns(0) =~= n.outputs);
            assert(n.transitions + rules =~= n.transitions);
            assert(n.targets + Self::no_targets(0) =~= n.targets);
            assert(n.out_ports + Self::handles(self.ports.len(), 0) =~= n.out_ports);
            assert(goal.gates =~= self.gates);
        } else {
            let c = self.add_output(g, rules[0]);
            let rest = rules.drop_first();
            c.lemma_add_outputs_shape(g, rest);
            let m = c.gate(g);
            assert(d == c.grown_outputs(g, rest));
            assert(d.ports =~= goal.ports);
            assert(m.outputs + Self::unknowns(rest.len()) =~= n.outputs + Self::unknowns(count));
            assert(m.transitions + rest =~= n.transitions + rules);
            assert(m.targets + Self::no_targets(rest.len()) =~= n.targets + Self::no_targets(
                count,
            ));
            assert(m.out_ports + Self::handles(c.ports.len(), rest.len()) =~= n.out_ports
                + Self::handles(self.ports.len(), count));
            assert(d.gates =~= goal.gates);
        }
    }

    /// Putting a gate together slot by slot gives what
    /// [`CircuitView::add_gate`] tells at once.
    pub proof fn lemma_add_gate_shape(
        self,
        name: Seq<char>,
        in_range: NodeRange,
        out_range: NodeRange,
        rules: Seq<Transition>,
    )
        requires
            Self::gate_accepted(in_range, out_range, rules),
            self.gates.len() <= usize::MAX,
            self.ports.len() + in_range.min + out_range.min <= usize::MAX,
        ensures
            self.assembled(name, in_range, out_range, rules) == self.add_gate(
                name,
                in_range,
                out_range,
                rules,
            ),
    {
        let g = self.gates.len() as usize;
        let bare = self.push_gate(name, in_range, out_range);
        let mid = bare.add_inputs(g, in_range.min as nat);
        let d = mid.add_outputs(g, rules);
        let goal = self.add_gate(name, in_range, out_range, rules);
        assert(d == self.assembled(name, in_range, out_range, rules));
        bare.lemma_add_inputs_shape(g, in_range.min as nat);
        mid.lemma_add_outputs_shape(g, rules);
        let n = bare.gate(g);
        let m = mid.gate(g);
        assert(n.inputs + Self::unknowns(in_range.min as nat) =~= Self::unknowns(
            in_range.min as nat,
        ));
        assert(n.in_ports + Self::handles(bare.ports.len(), in_range.min as nat) =~= Self::handles(
            self.ports.len(),
            in_range.min as nat,
        ));
        assert(m.outputs + Self::unknowns(rules.len()) =~= Self::unknowns(out_range.min as nat));
        assert(m.transitions + rules =~= rules);
        assert(m.targets + Self::no_targets(rules.len()) =~= Self::no_targets(
            out_range.min as nat,
        ));
        assert(m.out_ports + Self::handles(mid.ports.len(), rules.len()) =~= Self::handles(
            (self.ports.len() + in_range.min) as nat,
            out_range.min as nat,
        ));
        assert(d.gates =~= goal.gates);
        assert(d.ports =~= goal.ports);
    }

    /// Whether line `w` ends in an input slot of gate `g` at or beyond slot
    /// `n`.
    pub open spec fn ends_beyond(self, w: usize, g: usize, n: nat) -> bool {
        let p = self.port(self.wire(w).input.entity);
        p.parent == g && p.index >= n
    }

    /// Whether connector `p` belongs to an input slot of gate `g` at or
    /// beyond slot `n`.
    pub open spec fn input_beyond(self, p: usize, g: usize, n: nat) -> bool {
        self.port(p).ctype == ConnectorType::In && self.port(p).parent == g && self.port(p).index
            >= n
    }

    /// Whether this circuit is `before` with the input slots of gate `g`
    /// cut down to the first `n`: that gate keeps its first `n` inputs with
    /// their values and connectors; the connectors of the slots beyond are
    /// gone, and so is every line that ended in one of them, from the
    /// registry and from the fan-out tables; every other connector of an
    /// input, every other line and every other entry of a fan-out table is
    /// as it was.
    pub open spec fn cut_inputs_of(self, before: CircuitView, g: usize, n: nat) -> bool {
        &&& self.gates.len() == before.gates.len()
        &&& self.ports.len() == before.ports.len()
        &&& self.wires.len() == before.wires.len()
        &&& self.gate(g).in_ports == before.gate(g).in_ports.take(n as int)
        &&& self.gate(g).inputs == before.gate(g).inputs.take(n as int)
        &&& self.gate(g).gate.inputs == n
        &&& forall|x: usize|
            before.has_gate(x) ==> {
                let a = #[trigger] self.gate(x);
                let b = before.gate(x);
                &&& a.name == b.name
                &&& a.outputs == b.outputs
                &&& a.transitions == b.transitions
                &&& a.out_ports == b.out_ports
                &&& a.targets.len() == b.targets.len()
                &&& a.gate.outputs == b.gate.outputs
                &&& a.gate.in_range == b.gate.in_range
                &&& a.gate.out_range == b.gate.out_range
                &&& x != g ==> a.inputs == b.inputs && a.in_ports == b.in_ports && a.gate.inputs
                    == b.gate.inputs
            }
        &&& forall|p: usize|
            #[trigger] self.has_port(p) <==> before.has_port(p) && !before.input_beyond(p, g, n)
        &&& forall|p: usize|
            self.has_port(p) ==> {
                let a = #[trigger] self.port(p);
                let b = before.port(p);
                &&& a.ctype == b.ctype
                &&& a.index == b.index
                &&& a.parent == b.parent
                &&& a.ctype == ConnectorType::In ==> a == b
            }
        &&& forall|w: usize|
            #[trigger] self.has_wire(w) <==> before.has_wire(w) && !before.ends_beyond(w, g, n)
        &&& forall|w: usize| self.has_wire(w) ==> #[trigger] self.wire(w) == before.wire(w)
        &&& forall|x: usize, k: usize, to: usize, j: usize|
            before.has_gate(x) && (k as int) < before.gate(x).targets.len() ==> (
            #[trigger] self.listed(x, k, to, j) <==> before.listed(x, k, to, j) && !(to == g && j
                >= n))
    }

    /// Dropping the last input slot of a gate changes no driver of an
    /// input slot that stays.
    pub proof fn lemma_drop_input_source(self, g: usize, to: usize, j: usize)
        requires
            self.linked(),
            self.has_gate(g),
            self.gate(g).in_ports.len() > 0,
            self.has_gate(to),
            (j as int) < self.drop_input(g).gate(to).in_ports.len(),
        ensures
            (j as int) < self.gate(to).in_ports.len(),
            to == g ==> (j as int) < self.gate(g).in_ports.len() - 1,
            self.drop_input(g).source(to, j) == self.source(to, j),
    {
        let len = self.gate(g).in_ports.len();
        let h = self.gate(g).in_ports.last();
        assert(self.gate_ok(g));
        assert(self.gate_ok(to));
        assert(self.is_port_of(h, ConnectorType::In, g, len - 1));
        assert(self.port_ok(h));
        let c = self.detach_all(h);
        let e = self.drop_input(g);
        self.lemma_detach(h, self.port(h).connections.len());
        assert(c.gate(to).in_ports == self.gate(to).in_ports);
        assert(c.gate(g).in_ports == self.gate(g).in_ports);
        let x = self.gate(to).in_ports[j as int];
        assert(self.is_port_of(x, ConnectorType::In, to, j as int));
        assert(x != h);
        if self.port(h).connections.len() == 1 {
            let w = self.port(h).connections[0];
            assert(self.attached(w, h, ConnectorType::In));
            assert(self.wire_ok(w));
            assert(self.detach(h, 1) == self.disconnect(w).detach(h, 0));
            assert(c == self.disconnect(w));
            self.lemma_disconnect_source(w, to, j);
            assert(c.source(to, j) == self.source(to, j));
        } else {
            assert(c == self);
        }
        c.lemma_drop_slot_source(e, h, to, j);
    }

    /// Dropping the last input slot of a gate cuts that gate's inputs down
    /// by one and leaves the rest of the circuit as it was.
    pub proof fn lemma_drop_input_shape(self, g: usize)
        requires
            self.linked(),
            self.has_gate(g),
            self.gate(g).in_ports.len() > 0,
        ensures
            self.drop_input(g).linked(),
            self.drop_input(g).cut_inputs_of(self, g, (self.gate(g).in_ports.len() - 1) as nat),
    {
        let len = self.gate(g).in_ports.len();
        let n = (len - 1) as nat;
        let h = self.gate(g).in_ports.last();
        assert(self.gate_ok(g));
        assert(self.is_port_of(h, ConnectorType::In, g, len - 1));
        assert(self.port_ok(h));
        let c = self.detach_all(h);
        let e = self.drop_input(g);
        self.lemma_detach(h, self.port(h).connections.len());
        self.lemma_drop_input_linked(g);
        self.lemma_drop_input_arity(g);
        let single = self.port(h).connections.len() == 1;
        let w = self.port(h).connections[0];
        if single {
            assert(self.attached(w, h, ConnectorType::In));
            assert(self.wire_ok(w));
            assert(self.detach(h, 1) == self.disconnect(w).detach(h, 0));
            assert(c == self.disconnect(w));
            self.lemma_disconnect_frame(w);
            assert(self.port_ok(self.wire(w).output.entity));
        } else {
            assert(c == self);
        }
        assert(e.gate(g).inputs =~= self.gate(g).inputs.take(n as int));
        assert(e.gate(g).in_ports =~= self.gate(g).in_ports.take(n as int));
        assert forall|x: usize| self.has_gate(x) implies ({
            let a = #[trigger] e.gate(x);
            let b = self.gate(x);
            &&& a.name == b.name
            &&& a.outputs == b.outputs
            &&& a.transitions == b.transitions
            &&& a.out_ports == b.out_ports
            &&& a.targets.len() == b.targets.len()
            &&& a.gate.outputs == b.gate.outputs
            &&& a.gate.in_range == b.gate.in_range
            &&& a.gate.out_range == b.gate.out_range
            &&& x != g ==> a.inputs == b.inputs && a.in_ports == b.in_ports && a.gate.inputs
                == b.gate.inputs
        }) by {
            assert(c.gate(x) == (GateView { targets: c.gate(x).targets, ..self.gate(x) }));
        }
        assert forall|p: usize|
            #[trigger] e.has_port(p) <==> self.has_port(p) && !self.input_beyond(p, g, n) by {
            if self.has_port(p) {
                assert(self.port_ok(p));
                assert(c.has_port(p));
            }
        }
        assert forall|p: usize| e.has_port(p) implies ({
            let a = #[trigger] e.port(p);
            let b = self.port(p);
            &&& a.ctype == b.ctype
            &&& a.index == b.index
            &&& a.parent == b.parent
            &&& a.ctype == ConnectorType::In ==> a == b
        }) by {
            assert(c.has_port(p));
            assert(e.port(p) == c.port(p));
        }
        assert forall|x: usize| #[trigger] e.has_wire(x) <==> self.has_wire(x) && !self.ends_beyond(
            x,
            g,
            n,
        ) by {
            if self.has_wire(x) {
                assert(self.wire_ok(x));
                let i = self.wire(x).input.entity;
                assert(self.port_ok(i));
                if self.ends_beyond(x, g, n) {
                    assert(i == h);
                    let y = choose|y: int|
                        0 <= y < self.port(h).connections.len() && self.port(h).connections[y] == x;
                    assert(x == w);
                } else {
                    assert(i != h);
                }
            }
        }
        assert forall|x: usize| e.has_wire(x) implies #[trigger] e.wire(x) == self.wire(x) by {}
        assert forall|x: usize, k: usize, to: usize, j: usize|
            self.has_gate(x) && (k as int) < self.gate(x).targets.len() implies (
        #[trigger] e.listed(x, k, to, j) <==> self.listed(x, k, to, j) && !(to == g && j >= n)) by {
            assert(self.fanout_ok(x, k));
            assert(c.gate(x).targets.len() == self.gate(x).targets.len());
            assert(e.gate(x).targets == c.gate(x).targets);
            assert(e.fanout_ok(x, k));
            assert(e.listed(x, k, to, j) == e.feeds(x, k, to, j));
            assert(self.listed(x, k, to, j) == self.feeds(x, k, to, j));
            if e.has_gate(to) && (j as int) < e.gate(to).in_ports.len() {
                self.lemma_drop_input_source(g, to, j);
            }
            if self.has_gate(to) && to != g {
                assert(e.gate(to).in_ports == self.gate(to).in_ports);
            }
        }
    }

    /// Dropping the last `count` input slots of a gate cuts that gate's
    /// inputs down to the others and leaves the rest of the circuit as it
    /// was: a line on an input that stays is untouched, a line on an input
    /// that goes is taken away at both ends.
    pub proof fn lemma_drop_inputs_shape(self, g: usize, count: nat)
        requires
            self.linked(),
            self.has_gate(g),
            count <= self.gate(g).in_ports.len(),
        ensures
            self.drop_inputs(g, count).linked(),
            self.drop_inputs(g, count).cut_inputs_of(
                self,
                g,
                (self.gate(g).in_ports.len() - count) as nat,
            ),
        decreases count,
    {
        let len = self.gate(g).in_ports.len();
        let n = (len - count) as nat;
        assert(self.gate_ok(g));
        if count == 0 {
            let d = self.drop_inputs(g, 0);
            assert(d == self);
            assert(self.gate(g).in_ports.take(len as int) =~= self.gate(g).in_ports);
            assert(self.gate(g).inputs.take(len as int) =~= self.gate(g).inputs);
            assert forall|p: usize| self.has_port(p) implies !self.input_beyond(p, g, n) by {
                assert(self.port_ok(p));
            }
            assert forall|w: usize| self.has_wire(w) implies !self.ends_beyond(w, g, n) by {
                assert(self.wire_ok(w));
                assert(self.port_ok(self.wire(w).input.entity));
            }
            assert forall|x: usize, k: usize, to: usize, j: usize|
                self.has_gate(x) && (k as int) < self.gate(x).targets.len() implies (
            #[trigger] self.listed(x, k, to, j) <==> self.listed(x, k, to, j) && !(to == g && j
                >= n)) by {
                assert(self.fanout_ok(x, k));
                assert(self.listed(x, k, to, j) == self.feeds(x, k, to, j));
            }
        } else {
            let e = self.drop_input(g);
            let d = e.drop_inputs(g, (count - 1) as nat);
            let m = (len - 1) as nat;
            self.lemma_drop_input_shape(g);
            e.lemma_drop_inputs_shape(g, (count - 1) as nat);
            assert(e.gate(g).in_ports.len() == m);
            assert(d.cut_inputs_of(e, g, n));
            assert(e.cut_inputs_of(self, g, m));
            assert(d.gate(g).in_ports =~= self.gate(g).in_ports.take(n as int));
            assert(d.gate(g).inputs =~= self.gate(g).inputs.take(n as int));
            assert forall|x: usize| self.has_gate(x) implies ({
                let a = #[trigger] d.gate(x);
                let b = self.gate(x);
                &&& a.name == b.name
                &&& a.outputs == b.outputs
                &&& a.transitions == b.transitions
                &&& a.out_ports == b.out_ports
                &&& a.targets.len() == b.targets.len()
                &&& a.gate.outputs == b.gate.outputs
                &&& a.gate.in_range == b.gate.in_range
                &&& a.gate.out_range == b.gate.out_range
                &&& x != g ==> a.inputs == b.inputs && a.in_ports == b.in_ports && a.gate.inputs
                    == b.gate.inputs
            }) by {
                let mid = e.gate(x);
            }
            assert forall|p: usize| #[trigger] d.has_port(p) <==> self.has_port(p)
                && !self.input_beyond(p, g, n) by {
                assert(d.has_port(p) <==> e.has_port(p) && !e.input_beyond(p, g, n));
                assert(e.has_port(p) <==> self.has_port(p) && !self.input_beyond(p, g, m));
                if e.has_port(p) {
                    let a = e.port(p);
                }
            }
            assert forall|p: usize| d.has_port(p) implies ({
                let a = #[trigger] d.port(p);
                let b = self.port(p);
                &&& a.ctype == b.ctype
                &&& a.index == b.index
                &&& a.parent == b.parent
                &&& a.ctype == ConnectorType::In ==> a == b
            }) by {
                assert(e.has_port(p));
                let mid = e.port(p);
            }
            assert forall|w: usize| #[trigger] d.has_wire(w) <==> self.has_wire(w)
                && !self.ends_beyond(w, g, n) by {
                assert(d.has_wire(w) <==> e.has_wire(w) && !e.ends_beyond(w, g, n));
                assert(e.has_wire(w) <==> self.has_wire(w) && !self.ends_beyond(w, g, m));
                if e.has_wire(w) {
                    assert(e.wire(w) == self.wire(w));
                    assert(e.wire_ok(w));
                    let i = e.wire(w).input.entity;
                    assert(e.has_port(i));
                    let a = e.port(i);
                }
            }
            assert forall|w: usize| d.has_wire(w) implies #[trigger] d.wire(w) == self.wire(w) by {
                assert(e.has_wire(w));
                assert(e.wire(w) == self.wire(w));
            }
            assert forall|x: usize, k: usize, to: usize, j: usize|
                self.has_gate(x) && (k as int) < self.gate(x).targets.len() implies (
            #[trigger] d.listed(x, k, to, j) <==> self.listed(x, k, to, j) && !(to == g && j
                >= n)) by {
                let mid = e.gate(x);
                assert(d.listed(x, k, to, j) <==> e.listed(x, k, to, j) && !(to == g && j >= n));
                assert(e.listed(x, k, to, j) <==> self.listed(x, k, to, j) && !(to == g && j >= m));
            }
        }
    }

    /// Giving a gate fewer inputs leaves it exactly that many, keeps every
    /// line on an input that stays and takes every line on an input that
    /// goes away at both ends.
    pub proof fn lemma_resize_inputs_cuts(self, g: usize, n: nat)
        requires
            self.wf(),
            self.has_gate(g),
            n <= self.gate(g).in_ports.len(),
        ensures
            self.resize_inputs(g, n).linked(),
            self.resize_inputs(g, n).cut_inputs_of(self, g, n),
    {
        self.lemma_drop_inputs_shape(g, (self.gate(g).in_ports.len() - n) as nat);
    }

    /// Whether line `w` starts at an output slot of gate `g` at or beyond
    /// slot `n`.
    pub open spec fn starts_beyond(self, w: usize, g: usize, n: nat) -> bool {
        let p = self.port(self.wire(w).output.entity);
        p.parent == g && p.index >= n
    }

    /// Whether connector `p` belongs to an output slot of gate `g` at or
    /// beyond slot `n`.
    pub open spec fn output_beyond(self, p: usize, g: usize, n: nat) -> bool {
        self.port(p).ctype == ConnectorType::Out && self.port(p).parent == g && self.port(
            p,
        ).index >= n
    }

    /// Whether connector `p` is an input that carries a line which starts
    /// at an output slot of gate `g` at or beyond slot `n`.
    pub open spec fn fed_beyond(self, p: usize, g: usize, n: nat) -> bool {
        &&& self.port(p).ctype == ConnectorType::In
        &&& self.port(p).connections.len() == 1
        &&& self.starts_beyond(self.port(p).connections[0], g, n)
    }

    /// Whether connector `p` is an input that carries one of the lines
    /// `removed`.
    pub open spec fn carries_one_of(self, p: usize, removed: Seq<usize>) -> bool {
        &&& self.port(p).ctype == ConnectorType::In
        &&& self.port(p).connections.len() == 1
        &&& removed.contains(self.port(p).connections[0])
    }

    /// Whether this circuit is `before` with the lines `removed` taken
    /// away from output connector `h`: these lines are gone, the inputs
    /// they led to are free, and everything else but the list of lines of
    /// `h` and the fan-out table of its slot is as it was.
    pub open spec fn detached_of(self, before: CircuitView, h: usize, removed: Seq<usize>) -> bool {
        let gh = before.port(h).parent;
        let kh = before.port(h).index;
        &&& self.gates.len() == before.gates.len()
        &&& self.ports.len() == before.ports.len()
        &&& self.wires.len() == before.wires.len()
        &&& forall|x: usize|
            before.has_gate(x) && x != gh ==> #[trigger] self.gate(x) == before.gate(x)
        &&& self.gate(gh) == (GateView { targets: self.gate(gh).targets, ..before.gate(gh) })
        &&& self.gate(gh).targets.len() == before.gate(gh).targets.len()
        &&& forall|k: int|
            0 <= k < before.gate(gh).targets.len() && k != kh ==> #[trigger] self.gate(
                gh,
            ).targets[k] == before.gate(gh).targets[k]
        &&& forall|p: usize| #[trigger] self.has_port(p) == before.has_port(p)
        &&& forall|p: usize|
            before.has_port(p) && p != h ==> #[trigger] self.port(p) == (if before.carries_one_of(
                p,
                removed,
            ) {
                before.port(p).freed()
            } else {
                before.port(p)
            })
        &&& forall|w: usize|
            #[trigger] self.has_wire(w) <==> before.has_wire(w) && !removed.contains(w)
        &&& forall|w: usize| self.has_wire(w) ==> #[trigger] self.wire(w) == before.wire(w)
    }

    /// Taking the first `count` lines of an output connector away leaves
    /// the circuit as [`CircuitView::detached_of`] tells.
    pub proof fn lemma_detach_shape(self, h: usize, count: nat)
        requires
            self.linked(),
            self.has_port(h),
            self.port(h).ctype == ConnectorType::Out,
            count <= self.port(h).connections.len(),
        ensures
            self.detach(h, count).detached_of(
                self,
                h,
                self.port(h).connections.take(count as int),
            ),
        decreases count,
    {
        let all = self.port(h).connections;
        let removed = all.take(count as int);
        let d = self.detach(h, count);
        assert(self.port_ok(h));
        if count == 0 {
            assert(d == self);
            assert forall|p: usize| self.has_port(p) && p != h implies !self.carries_one_of(
                p,
                removed,
            ) by {}
        } else {
            let w0 = all[0];
            let c = self.disconnect(w0);
            assert(self.attached(w0, h, ConnectorType::Out));
            assert(self.wire_ok(w0));
            let i0 = self.wire(w0).input.entity;
            assert(self.port_ok(i0));
            assert(self.port(i0).connections[0] == w0);
            self.lemma_disconnect_linked(w0);
            self.lemma_disconnect_frame(w0);
            lemma_remove_value(all, w0);
            assert(c.port(h).connections == all.drop_first());
            let rest = c.port(h).connections.take(count - 1);
            c.lemma_detach_shape(h, (count - 1) as nat);
            assert(d == c.detach(h, (count - 1) as nat));
            assert(d.detached_of(c, h, rest));
            assert forall|w: usize| removed.contains(w) <==> (w == w0 || rest.contains(w)) by {
                if removed.contains(w) {
                    let a = choose|a: int| 0 <= a < removed.len() && removed[a] == w;
                    if a > 0 {
                        assert(rest[a - 1] == w);
                    }
                }
                if rest.contains(w) {
                    let a = choose|a: int| 0 <= a < rest.len() && rest[a] == w;
                    assert(removed[a + 1] == w);
                }
                assert(removed[0] == w0);
            }
            let gh = self.port(h).parent;
            let kh = self.port(h).index;
            assert(self.gate_ok(gh));
            assert(c.port(h).parent == gh && c.port(h).index == kh);
            assert forall|x: usize| self.has_gate(x) && x != gh implies #[trigger] d.gate(x)
                == self.gate(x) by {
                assert(c.gate(x) == self.gate(x));
            }
            assert(c.gate(gh) == (GateView { targets: c.gate(gh).targets, ..self.gate(gh) }));
            assert forall|k: int|
                0 <= k < self.gate(gh).targets.len() && k != kh implies #[trigger] d.gate(
                gh,
            ).targets[k] == self.gate(gh).targets[k] by {
                assert(c.gate(gh).targets[k] == self.gate(gh).targets[k]);
            }
            assert forall|p: usize| self.has_port(p) && p != h implies #[trigger] d.port(p) == (
            if self.carries_one_of(p, removed) {
                self.port(p).freed()
            } else {
                self.port(p)
            }) by {
                assert(c.has_port(p));
                assert(self.port_ok(p));
                if p == i0 {
                    assert(c.port(p) == self.port(p).freed());
                    assert(!c.carries_one_of(p, rest));
                } else {
                    assert(c.port(p) == self.port(p));
                    if self.port(p).ctype == ConnectorType::In && self.port(p).connections.len()
                        == 1 {
                        let x = self.port(p).connections[0];
                        assert(self.attached(x, p, ConnectorType::In));
                        assert(x != w0);
                    }
                }
            }
            assert forall|w: usize| #[trigger] d.has_wire(w) <==> self.has_wire(w)
                && !removed.contains(w) by {
                assert(d.has_wire(w) <==> c.has_wire(w) && !rest.contains(w));
            }
            assert forall|w: usize| d.has_wire(w) implies #[trigger] d.wire(w) == self.wire(w) by {
                assert(c.has_wire(w));
                assert(d.wire(w) == c.wire(w));
            }
        }
    }

    /// Whether this circuit is `before` with the output slots of gate `g`
    /// cut down to the first `n`: that gate keeps its first `n` outputs with
    /// their values, rules, fan-out tables and connectors; the connectors
    /// of the slots beyond are gone, and so is every line that started at
    /// one of them, which leaves its input free; everything else is as it
    /// was.
    pub open spec fn cut_outputs_of(self, before: CircuitView, g: usize, n: nat) -> bool {
        let a = self.gate(g);
        let b = before.gate(g);
        &&& self.gates.len() == before.gates.len()
        &&& self.ports.len() == before.ports.len()
        &&& self.wires.len() == before.wires.len()
        &&& a == (GateView {
            gate: Gate { outputs: n as u32, ..b.gate },
            outputs: b.outputs.take(n as int),
            transitions: b.transitions.take(n as int),
            targets: b.targets.take(n as int),
            out_ports: b.out_ports.take(n as int),
            ..b
        })
        &&& forall|x: usize|
            before.has_gate(x) && x != g ==> #[trigger] self.gate(x) == before.gate(x)
        &&& forall|p: usize|
            #[trigger] self.has_port(p) <==> before.has_port(p) && !before.output_beyond(p, g, n)
        &&& forall|p: usize|
            self.has_port(p) ==> #[trigger] self.port(p) == (if before.fed_beyond(p, g, n) {
                before.port(p).freed()
            } else {
                before.port(p)
            })
        &&& forall|w: usize|
            #[trigger] self.has_wire(w) <==> before.has_wire(w) && !before.starts_beyond(w, g, n)
        &&& forall|w: usize| self.has_wire(w) ==> #[trigger] self.wire(w) == before.wire(w)
    }

    /// Dropping the last output slot of a gate cuts that gate's outputs
    /// down by one and leaves the rest of the circuit as it was.
    pub proof fn lemma_drop_output_shape(self, g: usize)
        requires
            self.linked(),
            self.has_gate(g),
            self.gate(g).out_ports.len() > 0,
        ensures
            self.drop_output(g).linked(),
            self.drop_output(g).cut_outputs_of(
                self,
                g,
                (self.gate(g).out_ports.len() - 1) as nat,
            ),
    {
        let len = self.gate(g).out_ports.len();
        let n = (len - 1) as nat;
        let h = self.gate(g).out_ports.last();
        assert(self.gate_ok(g));
        assert(self.is_port_of(h, ConnectorType::Out, g, len - 1));
        assert(self.port_ok(h));
        let all = self.port(h).connections;
        let c = self.detach_all(h);
        let e = self.drop_output(g);
        self.lemma_detach(h, all.len());
        self.lemma_detach_shape(h, all.len());
        self.lemma_drop_output_linked(g);
        assert(all.take(all.len() as int) =~= all);
        assert(c.detached_of(self, h, all));
        let a = e.gate(g);
        let b = self.gate(g);
        assert(a.outputs =~= b.outputs.take(n as int));
        assert(a.transitions =~= b.transitions.take(n as int));
        assert(a.out_ports =~= b.out_ports.take(n as int));
        assert(a.targets =~= b.targets.take(n as int)) by {
            assert forall|k: int| 0 <= k < n implies a.targets[k] == b.targets[k] by {
                assert(c.gate(g).targets[k] == b.targets[k]);
            }
        }
        assert forall|w: usize| self.has_wire(w) implies (all.contains(w) <==> self.starts_beyond(
            w,
            g,
            n,
        )) by {
            assert(self.wire_ok(w));
            let o = self.wire(w).output.entity;
            assert(self.port_ok(o));
            if all.contains(w) {
                let y = choose|y: int| 0 <= y < all.len() && all[y] == w;
                assert(self.attached(all[y], h, ConnectorType::Out));
            }
        }
        assert forall|p: usize| #[trigger] e.has_port(p) <==> self.has_port(p)
            && !self.output_beyond(p, g, n) by {
            assert(c.has_port(p) == self.has_port(p));
            assert(e.has_port(p) <==> c.has_port(p) && p != h);
            if self.has_port(p) {
                assert(self.port_ok(p));
                assert(self.gate_ok(self.port(p).parent));
                if self.output_beyond(p, g, n) {
                    assert(self.port(p).index == len - 1);
                    assert(p == h);
                }
            }
        }
        assert forall|p: usize| e.has_port(p) implies #[trigger] e.port(p) == (if self.fed_beyond(
            p,
            g,
            n,
        ) {
            self.port(p).freed()
        } else {
            self.port(p)
        }) by {
            assert(c.has_port(p));
            assert(e.port(p) == c.port(p));
            assert(self.port_ok(p));
            if self.port(p).ctype == ConnectorType::In && self.port(p).connections.len() == 1 {
                let x = self.port(p).connections[0];
                assert(self.attached(x, p, ConnectorType::In));
            }
        }
        assert forall|w: usize| #[trigger] e.has_wire(w) <==> self.has_wire(w)
            && !self.starts_beyond(w, g, n) by {
            assert(c.has_wire(w) <==> self.has_wire(w) && !all.contains(w));
        }
        assert forall|w: usize| e.has_wire(w) implies #[trigger] e.wire(w) == self.wire(w) by {
            assert(c.has_wire(w));
            assert(c.wire(w) == self.wire(w));
        }
        assert forall|x: usize| self.has_gate(x) && x != g implies #[trigger] e.gate(x)
            == self.gate(x) by {
            assert(c.gate(x) == self.gate(x));
        }
    }

    /// Dropping the last `count` output slots of a gate cuts that gate's
    /// outputs down to the others and leaves the rest of the circuit as it
    /// was: a line from an output that stays is untouched, a line from an
    /// output that goes is taken away at both ends.
    pub proof fn lemma_drop_outputs_shape(self, g: usize, count: nat)
        requires
            self.linked(),
            self.has_gate(g),
            count <= self.gate(g).out_ports.len(),
        ensures
            self.drop_outputs(g, count).linked(),
            self.drop_outputs(g, count).cut_outputs_of(
                self,
                g,
                (self.gate(g).out_ports.len() - count) as nat,
            ),
        decreases count,
    {
        let len = self.gate(g).out_ports.len();
        let n = (len - count) as nat;
        let b = self.gate(g);
        assert(self.gate_ok(g));
        if count == 0 {
            assert(self.drop_outputs(g, 0) == self);
            assert(b.outputs.take(len as int) =~= b.outputs);
            assert(b.transitions.take(len as int) =~= b.transitions);
            assert(b.targets.take(len as int) =~= b.targets);
            assert(b.out_ports.take(len as int) =~= b.out_ports);
            assert forall|p: usize| self.has_port(p) implies !self.output_beyond(p, g, n)
                && !self.fed_beyond(p, g, n) by {
                assert(self.port_ok(p));
                if self.port(p).ctype == ConnectorType::In && self.port(p).connections.len() == 1 {
                    let x = self.port(p).connections[0];
                    assert(self.attached(x, p, ConnectorType::In));
                    assert(self.wire_ok(x));
                    assert(self.port_ok(self.wire(x).output.entity));
                }
            }
            assert forall|w: usize| self.has_wire(w) implies !self.starts_beyond(w, g, n) by {
                assert(self.wire_ok(w));
                assert(self.port_ok(self.wire(w).output.entity));
            }
        } else {
            let e = self.drop_output(g);
            let d = e.drop_outputs(g, (count - 1) as nat);
            let m = (len - 1) as nat;
            self.lemma_drop_output_shape(g);
            e.lemma_drop_outputs_shape(g, (count - 1) as nat);
            assert(e.gate(g).out_ports.len() == m);
            assert(d.cut_outputs_of(e, g, n));
            assert(e.cut_outputs_of(self, g, m));
            let a = d.gate(g);
            let mid = e.gate(g);
            assert(a.outputs =~= b.outputs.take(n as int));
            assert(a.transitions =~= b.transitions.take(n as int));
            assert(a.targets =~= b.targets.take(n as int));
            assert(a.out_ports =~= b.out_ports.take(n as int));
            assert forall|x: usize| self.has_gate(x) && x != g implies #[trigger] d.gate(x)
                == self.gate(x) by {
                assert(e.gate(x) == self.gate(x));
            }
            assert forall|p: usize| #[trigger] d.has_port(p) <==> self.has_port(p)
                && !self.output_beyond(p, g, n) by {
                assert(d.has_port(p) <==> e.has_port(p) && !e.output_beyond(p, g, n));
                assert(e.has_port(p) <==> self.has_port(p) && !self.output_beyond(p, g, m));
                if e.has_port(p) {
                    let v = e.port(p);
                }
            }
            assert forall|w: usize| #[trigger] d.has_wire(w) <==> self.has_wire(w)
                && !self.starts_beyond(w, g, n) by {
                assert(d.has_wire(w) <==> e.has_wire(w) && !e.starts_beyond(w, g, n));
                assert(e.has_wire(w) <==> self.has_wire(w) && !self.starts_beyond(w, g, m));
                if e.has_wire(w) {
                    assert(e.wire(w) == self.wire(w));
                    assert(e.wire_ok(w));
                    let o = e.wire(w).output.entity;
                    assert(e.has_port(o));
                    let v = e.port(o);
                }
            }
            assert forall|w: usize| d.has_wire(w) implies #[trigger] d.wire(w) == self.wire(w) by {
                assert(e.has_wire(w));
                assert(e.wire(w) == self.wire(w));
            }
            assert forall|p: usize| d.has_port(p) implies #[trigger] d.port(p) == (
            if self.fed_beyond(p, g, n) {
                self.port(p).freed()
            } else {
                self.port(p)
            }) by {
                assert(e.has_port(p));
                let v = e.port(p);
                assert(self.port_ok(p));
                if self.fed_beyond(p, g, m) {
                    assert(!e.fed_beyond(p, g, n));
                } else {
                    assert(e.port(p) == self.port(p));
                    if self.port(p).ctype == ConnectorType::In && self.port(p).connections.len()
                        == 1 {
                        let x = self.port(p).connections[0];
                        assert(self.attached(x, p, ConnectorType::In));
                        assert(e.has_wire(x));
                        assert(e.wire(x) == self.wire(x));
                        assert(e.wire_ok(x));
                        let o = e.wire(x).output.entity;
                        assert(e.has_port(o));
                        let u = e.port(o);
                        assert(self.port_ok(o));
                    }
                }
            }
        }
    }
}

} // verus!
