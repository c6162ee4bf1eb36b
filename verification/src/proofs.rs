//! Proofs that the edit operations keep a circuit's records in agreement.

use vstd::prelude::*;

use crate::connector::ConnectorType;
use crate::model::add_target;
use crate::model::remove_target;
use crate::connector::PortView;
use crate::model::CircuitView;
use crate::gate::NodeRange;
use crate::model::GateView;
use crate::signal::Transition;

verus! {

impl CircuitView {
    /// Whether `o` and `i` are a live output connector and a live, free
    /// input connector, and there is room for one more line.
    pub open spec fn connectable(self, o: usize, i: usize) -> bool {
        &&& self.has_port(o)
        &&& self.has_port(i)
        &&& self.port(o).ctype == ConnectorType::Out
        &&& self.port(i).ctype == ConnectorType::In
        &&& !self.port(i).occupied
        &&& self.wires.len() < usize::MAX
    }

    /// After a line was laid from `o` to `i`, the input slot of `i` is
    /// driven by the output slot of `o`, and every other input slot is
    /// driven as before.
    pub proof fn lemma_connect_source(self, o: usize, i: usize, to: usize, j: usize)
        requires
            self.linked(),
            self.connectable(o, i),
            self.has_gate(to),
            (j as int) < self.gate(to).in_ports.len(),
        ensures
            self.connect(o, i).source(to, j) == (if to == self.port(i).parent && j == self.port(
                i,
            ).index {
                Some((self.port(o).parent, self.port(o).index))
            } else {
                self.source(to, j)
            }),
            to == self.port(i).parent && j == self.port(i).index ==> self.source(to, j) is None,
    {
        let d = self.connect(o, i);
        let h = self.gate(to).in_ports[j as int];
        assert(self.gate_ok(to));
        assert(self.port_ok(o));
        assert(self.port_ok(i));
        assert(self.port_ok(h));
        assert(self.gate_ok(self.port(o).parent));
        assert(d.gate(to).in_ports == self.gate(to).in_ports);
        if h == i {
        } else {
            assert(d.port(h) == self.port(h));
            if self.port(h).connections.len() == 1 {
                let w0 = self.port(h).connections[0];
                assert(self.attached(w0, h, ConnectorType::In));
                assert(self.wire_ok(w0));
                assert(d.wire(w0) == self.wire(w0));
            }
        }
    }

    /// Laying a line between a live output connector and a live, free input
    /// connector keeps the records in agreement.
    pub proof fn lemma_connect_linked(self, o: usize, i: usize)
        requires
            self.linked(),
            self.connectable(o, i),
        ensures
            self.connect(o, i).linked(),
    {
        let d = self.connect(o, i);
        let w = self.wires.len() as usize;
        let po = self.port(o);
        let pi = self.port(i);
        assert(self.port_ok(o));
        assert(self.port_ok(i));
        assert(self.gate_ok(po.parent));
        assert(self.gate_ok(pi.parent));
        assert(pi.connections =~= Seq::empty());
        assert forall|g: usize| d.has_gate(g) implies #[trigger] d.gate_ok(g) by {
            assert(self.gate_ok(g));
            let n = self.gate(g);
            assert forall|j: int| 0 <= j < n.in_ports.len() implies d.is_port_of(
                #[trigger] d.gate(g).in_ports[j],
                ConnectorType::In,
                g,
                j,
            ) by {
                assert(self.is_port_of(n.in_ports[j], ConnectorType::In, g, j));
            }
            assert forall|k: int| 0 <= k < n.out_ports.len() implies d.is_port_of(
                #[trigger] d.gate(g).out_ports[k],
                ConnectorType::Out,
                g,
                k,
            ) by {
                assert(self.is_port_of(n.out_ports[k], ConnectorType::Out, g, k));
            }
        }
        assert forall|h: usize| d.has_port(h) implies #[trigger] d.port_ok(h) by {
            assert(self.port_ok(h));
            let p = d.port(h);
            assert forall|x: int| 0 <= x < p.connections.len() implies d.attached(
                #[trigger] p.connections[x],
                h,
                p.ctype,
            ) by {
                if (h == o || h == i) && x == p.connections.len() - 1 {
                } else {
                    assert(self.attached(self.port(h).connections[x], h, p.ctype));
                }
            }
            if h == o {
                assert forall|x: int, y: int|
                    0 <= x < p.connections.len() && 0 <= y < p.connections.len() && x
                        != y implies p.connections[x] != p.connections[y] by {
                    if x < po.connections.len() {
                        assert(self.attached(po.connections[x], o, ConnectorType::Out));
                    }
                    if y < po.connections.len() {
                        assert(self.attached(po.connections[y], o, ConnectorType::Out));
                    }
                }
            }
        }
        assert forall|x: usize| d.has_wire(x) implies #[trigger] d.wire_ok(x) by {
            if x == w {
                assert(d.port(o).connections[po.connections.len() as int] == w);
                assert(d.port(i).connections[0] == w);
            } else {
                assert(self.wire_ok(x));
                let l = self.wire(x);
                let a = choose|a: int|
                    0 <= a < self.port(l.output.entity).connections.len() && self.port(
                        l.output.entity,
                    ).connections[a] == x;
                assert(d.port(l.output.entity).connections[a] == x);
                let b = choose|b: int|
                    0 <= b < self.port(l.input.entity).connections.len() && self.port(
                        l.input.entity,
                    ).connections[b] == x;
                assert(d.port(l.input.entity).connections[b] == x);
            }
        }
        assert forall|g: usize, k: usize|
            d.has_gate(g) && (k as int) < d.gate(g).targets.len() implies #[trigger] d.fanout_ok(
            g,
            k,
        ) by {
            self.lemma_connect_fanout(o, i, g, k);
        }
    }

    /// Laying a line keeps each fan-out table in agreement with the lines.
    proof fn lemma_connect_fanout(self, o: usize, i: usize, g: usize, k: usize)
        requires
            self.linked(),
            self.connectable(o, i),
            self.has_gate(g),
            (k as int) < self.gate(g).targets.len(),
        ensures
            self.connect(o, i).fanout_ok(g, k),
    {
        let d = self.connect(o, i);
        let po = self.port(o);
        let pi = self.port(i);
        assert(self.port_ok(o));
        assert(self.port_ok(i));
        assert(self.gate_ok(po.parent));
        assert(self.gate_ok(pi.parent));
        assert(self.fanout_ok(g, k));
        let tm = self.gate(g).targets[k as int];
        let tm2 = d.gate(g).targets[k as int];
        let hit = g == po.parent && k == po.index;
        assert(tm2 == if hit {
            add_target(tm, pi.parent, pi.index)
        } else {
            tm
        });
        self.lemma_connect_source(o, i, pi.parent, pi.index);
        assert(!self.feeds(g, k, pi.parent, pi.index));
        assert(!self.listed(g, k, pi.parent, pi.index));
        assert forall|to: usize, j: usize|
            #![trigger d.listed(g, k, to, j)]
            #![trigger d.feeds(g, k, to, j)]
            d.listed(g, k, to, j) <==> d.feeds(g, k, to, j) by {
            assert(self.listed(g, k, to, j) <==> self.feeds(g, k, to, j));
            if d.has_gate(to) && (j as int) < d.gate(to).in_ports.len() {
                self.lemma_connect_source(o, i, to, j);
            }
            if hit && to == pi.parent {
                let old_list = if tm.contains_key(to) {
                    tm[to]
                } else {
                    Seq::empty()
                };
                assert(tm2[to] == old_list.push(pi.index));
                if j == pi.index {
                    assert(tm2[to][old_list.len() as int] == j);
                } else {
                    if tm2[to].contains(j) {
                        let x = choose|x: int| 0 <= x < tm2[to].len() && tm2[to][x] == j;
                        assert(old_list[x] == j);
                    }
                    if old_list.contains(j) {
                        let x = choose|x: int| 0 <= x < old_list.len() && old_list[x] == j;
                        assert(tm2[to][x] == j);
                    }
                }
            }
        }
        assert forall|to: usize| tm2.contains_key(to) implies (#[trigger] tm2[to]).len() > 0
            && tm2[to].no_duplicates() by {
            if hit && to == pi.parent {
                let old_list = if tm.contains_key(to) {
                    tm[to]
                } else {
                    Seq::empty()
                };
                assert(!old_list.contains(pi.index));
                assert(tm2[to] == old_list.push(pi.index));
                assert(old_list.no_duplicates());
                assert forall|x: int, y: int|
                    0 <= x < tm2[to].len() && 0 <= y < tm2[to].len() && x != y implies tm2[to][x]
                    != tm2[to][y] by {
                    if x < old_list.len() {
                        assert(old_list.contains(old_list[x]));
                    }
                    if y < old_list.len() {
                        assert(old_list.contains(old_list[y]));
                    }
                }
            } else {
                assert(tm.contains_key(to));
                assert(tm2[to] == tm[to]);
            }
        }
    }

    /// After line `w` was taken away, the input slot it led to is driven
    /// by nothing, and every other input slot is driven as before.
    pub proof fn lemma_disconnect_source(self, w: usize, to: usize, j: usize)
        requires
            self.linked(),
            self.has_wire(w),
            self.has_gate(to),
            (j as int) < self.gate(to).in_ports.len(),
        ensures
            self.disconnect(w).source(to, j) == (if to == self.port(
                self.wire(w).input.entity,
            ).parent && j == self.wire(w).input.index {
                None
            } else {
                self.source(to, j)
            }),
            to == self.port(self.wire(w).input.entity).parent && j == self.wire(w).input.index
                ==> self.source(to, j) == Some(
                (
                    self.port(self.wire(w).output.entity).parent,
                    self.port(self.wire(w).output.entity).index,
                ),
            ),
    {
        let d = self.disconnect(w);
        let l = self.wire(w);
        let o = l.output.entity;
        let i = l.input.entity;
        let h = self.gate(to).in_ports[j as int];
        assert(self.wire_ok(w));
        assert(self.gate_ok(to));
        assert(self.port_ok(o));
        assert(self.port_ok(i));
        assert(self.port_ok(h));
        assert(self.gate_ok(self.port(o).parent));
        assert(self.gate_ok(self.port(i).parent));
        assert(d.gate(to).in_ports == self.gate(to).in_ports);
        if h == i {
            assert(self.port(i).connections[0] == w);
        } else {
            assert(d.port(h) == self.port(h));
            if self.port(h).connections.len() == 1 {
                let w0 = self.port(h).connections[0];
                assert(self.attached(w0, h, ConnectorType::In));
                assert(self.wire_ok(w0));
                assert(d.wire(w0) == self.wire(w0));
            }
        }
    }

    /// What taking line `w` away leaves of each record: the gates keep
    /// everything but one fan-out map, the connectors keep everything but
    /// the line, and the other lines stay as they are.
    pub proof fn lemma_disconnect_frame(self, w: usize)
        requires
            self.linked(),
            self.has_wire(w),
        ensures
            self.disconnect(w).gates.len() == self.gates.len(),
            self.disconnect(w).ports.len() == self.ports.len(),
            self.disconnect(w).wires.len() == self.wires.len(),
            !self.disconnect(w).has_wire(w),
            forall|x: usize|
                x != w ==> #[trigger] self.disconnect(w).has_wire(x) == self.has_wire(x),
            forall|x: usize|
                x != w && self.has_wire(x) ==> #[trigger] self.disconnect(w).wire(x) == self.wire(
                    x,
                ),
            forall|g: usize|
                self.has_gate(g) ==> (#[trigger] self.disconnect(w).gate(g)) == (GateView {
                    targets: self.disconnect(w).gate(g).targets,
                    ..self.gate(g)
                }) && self.disconnect(w).gate(g).targets.len() == self.gate(g).targets.len(),
            forall|h: usize| #[trigger] self.disconnect(w).has_port(h) == self.has_port(h),
            forall|h: usize|
                self.has_port(h) ==> (#[trigger] self.disconnect(w).port(h)) == (PortView {
                    occupied: self.disconnect(w).port(h).occupied,
                    connections: self.disconnect(w).port(h).connections,
                    ..self.port(h)
                }),
            forall|h: usize|
                self.has_port(h) && h != self.wire(w).input.entity && h != self.wire(
                    w,
                ).output.entity ==> (#[trigger] self.disconnect(w).port(h)) == self.port(h),
            self.disconnect(w).port(self.wire(w).input.entity).connections == Seq::<usize>::empty(),
            self.disconnect(w).port(self.wire(w).output.entity).connections == self.port(
                self.wire(w).output.entity,
            ).connections.remove_value(w),
    {
        let d = self.disconnect(w);
        let l = self.wire(w);
        assert(self.wire_ok(w));
        assert(self.port_ok(l.output.entity));
        assert(self.port_ok(l.input.entity));
        let go = self.port(l.output.entity).parent;
        assert(self.gate_ok(go));
        assert forall|g: usize| self.has_gate(g) implies (#[trigger] d.gate(g)) == (GateView {
            targets: d.gate(g).targets,
            ..self.gate(g)
        }) && d.gate(g).targets.len() == self.gate(g).targets.len() by {
            if g == go {
            } else {
                assert(d.gate(g) == self.gate(g));
            }
        }
    }

    /// Taking a live line away keeps the records in agreement.
    pub proof fn lemma_disconnect_linked(self, w: usize)
        requires
            self.linked(),
            self.has_wire(w),
        ensures
            self.disconnect(w).linked(),
    {
        let d = self.disconnect(w);
        let l = self.wire(w);
        let o = l.output.entity;
        let i = l.input.entity;
        let po = self.port(o);
        let pi = self.port(i);
        assert(self.wire_ok(w));
        assert(self.port_ok(o));
        assert(self.port_ok(i));
        assert(self.gate_ok(po.parent));
        assert(self.gate_ok(pi.parent));
        assert(pi.connections[0] == w);
        lemma_remove_value(po.connections, w);
        assert forall|g: usize| d.has_gate(g) implies #[trigger] d.gate_ok(g) by {
            assert(self.gate_ok(g));
            let n = self.gate(g);
            assert forall|j: int| 0 <= j < n.in_ports.len() implies d.is_port_of(
                #[trigger] d.gate(g).in_ports[j],
                ConnectorType::In,
                g,
                j,
            ) by {
                assert(self.is_port_of(n.in_ports[j], ConnectorType::In, g, j));
            }
            assert forall|k: int| 0 <= k < n.out_ports.len() implies d.is_port_of(
                #[trigger] d.gate(g).out_ports[k],
                ConnectorType::Out,
                g,
                k,
            ) by {
                assert(self.is_port_of(n.out_ports[k], ConnectorType::Out, g, k));
            }
        }
        assert forall|h: usize| d.has_port(h) implies #[trigger] d.port_ok(h) by {
            assert(self.port_ok(h));
            let p = d.port(h);
            assert forall|x: int| 0 <= x < p.connections.len() implies d.attached(
                #[trigger] p.connections[x],
                h,
                p.ctype,
            ) by {
                let v = p.connections[x];
                assert(p.connections.contains(v));
                assert(self.port(h).connections.contains(v));
                let y = choose|y: int|
                    0 <= y < self.port(h).connections.len() && self.port(h).connections[y] == v;
                assert(self.attached(self.port(h).connections[y], h, p.ctype));
                if v == w {
                    assert(h != o);
                    assert(h != i);
                }
            }
        }
        assert forall|x: usize| d.has_wire(x) implies #[trigger] d.wire_ok(x) by {
            assert(self.wire_ok(x));
            let lx = self.wire(x);
            assert(self.port_ok(lx.input.entity));
            if lx.input.entity == i {
                let b = choose|b: int|
                    0 <= b < pi.connections.len() && pi.connections[b] == x;
                assert(false);
            }
        }
        assert forall|g: usize, k: usize|
            d.has_gate(g) && (k as int) < d.gate(g).targets.len() implies #[trigger] d.fanout_ok(
            g,
            k,
        ) by {
            self.lemma_disconnect_fanout(w, g, k);
        }
    }

    /// Taking a line away keeps each fan-out table in agreement with the
    /// lines.
    proof fn lemma_disconnect_fanout(self, w: usize, g: usize, k: usize)
        requires
            self.linked(),
            self.has_wire(w),
            self.has_gate(g),
            (k as int) < self.gate(g).targets.len(),
        ensures
            self.disconnect(w).fanout_ok(g, k),
    {
        let d = self.disconnect(w);
        let l = self.wire(w);
        let o = l.output.entity;
        let i = l.input.entity;
        let po = self.port(o);
        let pi = self.port(i);
        assert(self.wire_ok(w));
        assert(self.port_ok(o));
        assert(self.port_ok(i));
        assert(self.gate_ok(po.parent));
        assert(self.gate_ok(pi.parent));
        assert(self.fanout_ok(g, k));
        let tm = self.gate(g).targets[k as int];
        let tm2 = d.gate(g).targets[k as int];
        let hit = g == po.parent && k == po.index;
        assert(tm2 == if hit {
            remove_target(tm, pi.parent, pi.index)
        } else {
            tm
        });
        self.lemma_disconnect_source(w, pi.parent, pi.index);
        if hit {
            assert(self.feeds(g, k, pi.parent, pi.index));
            assert(self.listed(g, k, pi.parent, pi.index));
            lemma_remove_value(tm[pi.parent], pi.index);
        }
        assert forall|to: usize, j: usize|
            #![trigger d.listed(g, k, to, j)]
            #![trigger d.feeds(g, k, to, j)]
            d.listed(g, k, to, j) <==> d.feeds(g, k, to, j) by {
            assert(self.listed(g, k, to, j) <==> self.feeds(g, k, to, j));
            if d.has_gate(to) && (j as int) < d.gate(to).in_ports.len() {
                self.lemma_disconnect_source(w, to, j);
            }
        }
        assert forall|to: usize| tm2.contains_key(to) implies (#[trigger] tm2[to]).len() > 0
            && tm2[to].no_duplicates() by {
            if hit && to == pi.parent {
            } else {
                assert(tm.contains_key(to));
                assert(tm2[to] == tm[to]);
            }
        }
    }

    /// Adding a gate without inputs and outputs keeps the records in
    /// agreement.
    pub proof fn lemma_push_gate_linked(
        self,
        name: Seq<char>,
        in_range: NodeRange,
        out_range: NodeRange,
    )
        requires
            self.linked(),
            self.gates.len() < usize::MAX,
        ensures
            self.push_gate(name, in_range, out_range).linked(),
    {
        let d = self.push_gate(name, in_range, out_range);
        assert forall|g: usize| d.has_gate(g) implies #[trigger] d.gate_ok(g) by {
            if self.has_gate(g) {
                assert(self.gate_ok(g));
                assert(d.gate(g) == self.gate(g));
            }
        }
        assert forall|h: usize| d.has_port(h) implies #[trigger] d.port_ok(h) by {
            assert(self.port_ok(h));
            assert(d.gate(self.port(h).parent) == self.gate(self.port(h).parent));
        }
        assert forall|w: usize| d.has_wire(w) implies #[trigger] d.wire_ok(w) by {
            assert(self.wire_ok(w));
        }
        assert forall|g: usize, k: usize|
            d.has_gate(g) && (k as int) < d.gate(g).targets.len() implies #[trigger] d.fanout_ok(
            g,
            k,
        ) by {
            assert(self.has_gate(g));
            assert(d.gate(g) == self.gate(g));
            assert(self.fanout_ok(g, k));
            assert forall|to: usize, j: usize|
                #![trigger d.listed(g, k, to, j)]
                #![trigger d.feeds(g, k, to, j)]
                d.listed(g, k, to, j) <==> d.feeds(g, k, to, j) by {
                assert(self.listed(g, k, to, j) <==> self.feeds(g, k, to, j));
                if self.has_gate(to) {
                    assert(d.gate(to) == self.gate(to));
                }
            }
        }
    }

    /// Whether gate `g` exists and there is room for one more connector
    /// and one more input on it.
    pub open spec fn can_add_input(self, g: usize) -> bool {
        &&& self.has_gate(g)
        &&& self.ports.len() < usize::MAX
        &&& self.gate(g).gate.inputs < u32::MAX
    }

    /// Whether gate `g` exists and there is room for one more connector
    /// and one more output on it.
    pub open spec fn can_add_output(self, g: usize) -> bool {
        &&& self.has_gate(g)
        &&& self.ports.len() < usize::MAX
        &&& self.gate(g).gate.outputs < u32::MAX
    }

    /// An added slot changes no driver of an input slot that was there
    /// before, whether the slot is an input or an output slot.
    proof fn lemma_add_slot_source(self, d: CircuitView, g: usize, to: usize, j: usize)
        requires
            self.linked(),
            self.has_gate(g),
            d == self.add_input(g) || exists|t: Transition| d == self.add_output(g, t),
            self.ports.len() < usize::MAX,
            self.has_gate(to),
            (j as int) < self.gate(to).in_ports.len(),
        ensures
            d.source(to, j) == self.source(to, j),
            match self.source(to, j) {
                Some((sg, sk)) => self.has_gate(sg) && (sk as int) < self.gate(sg).out_ports.len(),
                None => true,
            },
    {
        let h = self.gate(to).in_ports[j as int];
        assert(self.gate_ok(to));
        assert(self.is_port_of(h, ConnectorType::In, to, j as int));
        assert(self.port_ok(h));
        assert(d.gate(to).in_ports[j as int] == h);
        assert(d.port(h) == self.port(h));
        if self.port(h).connections.len() == 1 {
            let w0 = self.port(h).connections[0];
            assert(self.attached(w0, h, ConnectorType::In));
            assert(self.wire_ok(w0));
            assert(d.wire(w0) == self.wire(w0));
            let o = self.wire(w0).output.entity;
            assert(self.port_ok(o));
            assert(d.port(o) == self.port(o));
        }
    }

    /// Adding an input slot to a gate keeps the records in agreement.
    pub proof fn lemma_add_input_linked(self, g: usize)
        requires
            self.linked(),
            self.can_add_input(g),
        ensures
            self.add_input(g).linked(),
    {
        let d = self.add_input(g);
        let h = self.ports.len() as usize;
        assert(self.gate_ok(g));
        assert forall|x: usize| d.has_gate(x) implies #[trigger] d.gate_ok(x) by {
            assert(self.gate_ok(x));
            let n = self.gate(x);
            assert forall|j: int| 0 <= j < d.gate(x).in_ports.len() implies d.is_port_of(
                #[trigger] d.gate(x).in_ports[j],
                ConnectorType::In,
                x,
                j,
            ) by {
                if j < n.in_ports.len() {
                    assert(self.is_port_of(n.in_ports[j], ConnectorType::In, x, j));
                }
            }
            assert forall|k: int| 0 <= k < d.gate(x).out_ports.len() implies d.is_port_of(
                #[trigger] d.gate(x).out_ports[k],
                ConnectorType::Out,
                x,
                k,
            ) by {
                assert(self.is_port_of(n.out_ports[k], ConnectorType::Out, x, k));
            }
        }
        assert forall|x: usize| d.has_port(x) implies #[trigger] d.port_ok(x) by {
            if x != h {
                assert(self.port_ok(x));
                let p = d.port(x);
                assert forall|y: int| 0 <= y < p.connections.len() implies d.attached(
                    #[trigger] p.connections[y],
                    x,
                    p.ctype,
                ) by {
                    assert(self.attached(self.port(x).connections[y], x, p.ctype));
                }
            }
        }
        assert forall|w: usize| d.has_wire(w) implies #[trigger] d.wire_ok(w) by {
            assert(self.wire_ok(w));
        }
        assert forall|x: usize, k: usize|
            d.has_gate(x) && (k as int) < d.gate(x).targets.len() implies #[trigger] d.fanout_ok(
            x,
            k,
        ) by {
            assert(self.fanout_ok(x, k));
            assert(d.gate(x).targets == self.gate(x).targets);
            assert forall|to: usize, j: usize|
                #![trigger d.listed(x, k, to, j)]
                #![trigger d.feeds(x, k, to, j)]
                d.listed(x, k, to, j) <==> d.feeds(x, k, to, j) by {
                assert(self.listed(x, k, to, j) <==> self.feeds(x, k, to, j));
                if self.has_gate(to) && (j as int) < self.gate(to).in_ports.len() {
                    self.lemma_add_slot_source(d, g, to, j);
                }
            }
        }
    }

    /// Adding an output slot to a gate keeps the records in agreement.
    pub proof fn lemma_add_output_linked(self, g: usize, t: Transition)
        requires
            self.linked(),
            self.can_add_output(g),
        ensures
            self.add_output(g, t).linked(),
    {
        let d = self.add_output(g, t);
        let h = self.ports.len() as usize;
        assert(self.gate_ok(g));
        assert forall|x: usize| d.has_gate(x) implies #[trigger] d.gate_ok(x) by {
            assert(self.gate_ok(x));
            let n = self.gate(x);
            assert forall|j: int| 0 <= j < d.gate(x).in_ports.len() implies d.is_port_of(
                #[trigger] d.gate(x).in_ports[j],
                ConnectorType::In,
                x,
                j,
            ) by {
                assert(self.is_port_of(n.in_ports[j], ConnectorType::In, x, j));
            }
            assert forall|k: int| 0 <= k < d.gate(x).out_ports.len() implies d.is_port_of(
                #[trigger] d.gate(x).out_ports[k],
                ConnectorType::Out,
                x,
                k,
            ) by {
                if k < n.out_ports.len() {
                    assert(self.is_port_of(n.out_ports[k], ConnectorType::Out, x, k));
                }
            }
        }
        assert forall|x: usize| d.has_port(x) implies #[trigger] d.port_ok(x) by {
            if x != h {
                assert(self.port_ok(x));
                let p = d.port(x);
                assert forall|y: int| 0 <= y < p.connections.len() implies d.attached(
                    #[trigger] p.connections[y],
                    x,
                    p.ctype,
                ) by {
                    assert(self.attached(self.port(x).connections[y], x, p.ctype));
                }
            }
        }
        assert forall|w: usize| d.has_wire(w) implies #[trigger] d.wire_ok(w) by {
            assert(self.wire_ok(w));
        }
        assert forall|x: usize, k: usize|
            d.has_gate(x) && (k as int) < d.gate(x).targets.len() implies #[trigger] d.fanout_ok(
            x,
            k,
        ) by {
            let fresh = x == g && k == self.gate(g).targets.len();
            if !fresh {
                assert(self.fanout_ok(x, k));
                assert(d.gate(x).targets[k as int] == self.gate(x).targets[k as int]);
            }
            assert forall|to: usize, j: usize|
                #![trigger d.listed(x, k, to, j)]
                #![trigger d.feeds(x, k, to, j)]
                d.listed(x, k, to, j) <==> d.feeds(x, k, to, j) by {
                if !fresh {
                    assert(self.listed(x, k, to, j) <==> self.feeds(x, k, to, j));
                }
                if self.has_gate(to) && (j as int) < self.gate(to).in_ports.len() {
                    self.lemma_add_slot_source(d, g, to, j);
                }
            }
        }
    }

    /// Taking away the first `count` lines of a connector keeps the records
    /// in agreement; the connector keeps its other lines, and nothing but
    /// lines, the connectors' lists of lines and the fan-out maps changes.
    pub proof fn lemma_detach(self, h: usize, count: nat)
        requires
            self.linked(),
            self.has_port(h),
            count <= self.port(h).connections.len(),
        ensures
            self.detach(h, count).linked(),
            self.detach(h, count).same_frame(self),
            self.detach(h, count).port(h).connections == self.port(h).connections.skip(
                count as int,
            ),
        decreases count,
    {
        if count == 0 {
            assert(self.port(h).connections.skip(0) =~= self.port(h).connections);
        } else {
            let w = self.port(h).connections[0];
            let d = self.disconnect(w);
            assert(self.port_ok(h));
            assert(self.attached(w, h, self.port(h).ctype));
            assert(self.wire_ok(w));
            self.lemma_disconnect_linked(w);
            self.lemma_disconnect_frame(w);
            assert(self.port_ok(self.wire(w).input.entity));
            assert(self.port_ok(self.wire(w).output.entity));
            if self.port(h).ctype == ConnectorType::Out {
                lemma_remove_value(self.port(h).connections, w);
            }
            assert(d.port(h).connections =~= self.port(h).connections.drop_first());
            d.lemma_detach(h, (count - 1) as nat);
            assert(self.port(h).connections.drop_first().skip(count - 1)
                =~= self.port(h).connections.skip(count as int));
            let e = d.detach(h, (count - 1) as nat);
            assert(e.same_frame(self)) by {
                assert(d.same_frame(self));
                assert(e.same_frame(d));
                assert forall|g: usize| self.has_gate(g) implies (#[trigger] e.gate(g))
                    == (GateView {
                    targets: e.gate(g).targets,
                    ..self.gate(g)
                }) && e.gate(g).targets.len() == self.gate(g).targets.len() by {
                    assert(d.gate(g) == (GateView { targets: d.gate(g).targets, ..self.gate(g) }));
                }
                assert forall|x: usize| self.has_port(x) implies (#[trigger] e.port(x))
                    == (PortView {
                    occupied: e.port(x).occupied,
                    connections: e.port(x).connections,
                    ..self.port(x)
                }) by {
                    assert(d.port(x) == (PortView {
                        occupied: d.port(x).occupied,
                        connections: d.port(x).connections,
                        ..self.port(x)
                    }));
                }
            }
        }
    }

    /// Whether this circuit differs from `before` at most in which lines
    /// exist, in the connectors' lists of lines and in the fan-out maps.
    pub open spec fn same_frame(self, before: CircuitView) -> bool {
        &&& self.gates.len() == before.gates.len()
        &&& self.ports.len() == before.ports.len()
        &&& self.wires.len() == before.wires.len()
        &&& forall|g: usize|
            before.has_gate(g) ==> (#[trigger] self.gate(g)) == (GateView {
                targets: self.gate(g).targets,
                ..before.gate(g)
            }) && self.gate(g).targets.len() == before.gate(g).targets.len()
        &&& forall|h: usize| #[trigger] self.has_port(h) == before.has_port(h)
        &&& forall|h: usize|
            before.has_port(h) ==> (#[trigger] self.port(h)) == (PortView {
                occupied: self.port(h).occupied,
                connections: self.port(h).connections,
                ..before.port(h)
            })
    }

    /// Destroying a connector that carries no line changes no driver of an
    /// input slot that stays.
    pub proof fn lemma_drop_slot_source(self, d: CircuitView, h: usize, to: usize, j: usize)
        requires
            self.linked(),
            self.has_port(h),
            self.port(h).connections.len() == 0,
            d.ports == self.ports.update(h as int, None),
            d.wires == self.wires,
            d.gates.len() == self.gates.len(),
            self.has_gate(to),
            (j as int) < d.gate(to).in_ports.len() <= self.gate(to).in_ports.len(),
            d.gate(to).in_ports[j as int] == self.gate(to).in_ports[j as int],
            self.gate(to).in_ports[j as int] != h,
        ensures
            d.source(to, j) == self.source(to, j),
            match self.source(to, j) {
                Some((sg, sk)) => self.has_gate(sg) && (sk as int) < self.gate(sg).out_ports.len()
                    && self.gate(sg).out_ports[sk as int] != h,
                None => true,
            },
    {
        let x = self.gate(to).in_ports[j as int];
        assert(self.gate_ok(to));
        assert(self.is_port_of(x, ConnectorType::In, to, j as int));
        assert(self.port_ok(x));
        assert(d.port(x) == self.port(x));
        if self.port(x).connections.len() == 1 {
            let w0 = self.port(x).connections[0];
            assert(self.attached(w0, x, ConnectorType::In));
            assert(self.wire_ok(w0));
            let o = self.wire(w0).output.entity;
            assert(self.port_ok(o));
            assert(o != h);
            assert(d.port(o) == self.port(o));
        }
    }

    /// Dropping the last input slot of a gate keeps the records in
    /// agreement.
    pub proof fn lemma_drop_input_linked(self, g: usize)
        requires
            self.linked(),
            self.has_gate(g),
            self.gate(g).in_ports.len() > 0,
        ensures
            self.drop_input(g).linked(),
    {
        let h = self.gate(g).in_ports.last();
        assert(self.gate_ok(g));
        assert(self.is_port_of(h, ConnectorType::In, g, self.gate(g).in_ports.len() - 1));
        let c = self.detach_all(h);
        self.lemma_detach(h, self.port(h).connections.len());
        let d = self.drop_input(g);
        let last = (self.gate(g).in_ports.len() - 1) as usize;
        assert(c.gate_ok(g));
        assert(c.gate(g).in_ports == self.gate(g).in_ports);
        assert(c.port(h).connections.len() == 0);
        assert forall|x: usize| d.has_gate(x) implies #[trigger] d.gate_ok(x) by {
            assert(c.gate_ok(x));
            let n = c.gate(x);
            assert forall|j: int| 0 <= j < d.gate(x).in_ports.len() implies d.is_port_of(
                #[trigger] d.gate(x).in_ports[j],
                ConnectorType::In,
                x,
                j,
            ) by {
                assert(c.is_port_of(n.in_ports[j], ConnectorType::In, x, j));
            }
            assert forall|k: int| 0 <= k < d.gate(x).out_ports.len() implies d.is_port_of(
                #[trigger] d.gate(x).out_ports[k],
                ConnectorType::Out,
                x,
                k,
            ) by {
                assert(c.is_port_of(n.out_ports[k], ConnectorType::Out, x, k));
            }
        }
        assert forall|x: usize| d.has_port(x) implies #[trigger] d.port_ok(x) by {
            assert(c.port_ok(x));
            let p = d.port(x);
            assert(c.gate_ok(p.parent));
            assert forall|y: int| 0 <= y < p.connections.len() implies d.attached(
                #[trigger] p.connections[y],
                x,
                p.ctype,
            ) by {
                assert(c.attached(c.port(x).connections[y], x, p.ctype));
            }
        }
        assert forall|w: usize| d.has_wire(w) implies #[trigger] d.wire_ok(w) by {
            assert(c.wire_ok(w));
        }
        assert forall|x: usize, k: usize|
            d.has_gate(x) && (k as int) < d.gate(x).targets.len() implies #[trigger] d.fanout_ok(
            x,
            k,
        ) by {
            assert(c.fanout_ok(x, k));
            assert(d.gate(x).targets == c.gate(x).targets);
            assert forall|to: usize, j: usize|
                #![trigger d.listed(x, k, to, j)]
                #![trigger d.feeds(x, k, to, j)]
                d.listed(x, k, to, j) <==> d.feeds(x, k, to, j) by {
                assert(c.listed(x, k, to, j) <==> c.feeds(x, k, to, j));
                if c.has_gate(to) && (j as int) < d.gate(to).in_ports.len() {
                    assert(c.gate_ok(to));
                    assert(c.is_port_of(
                        c.gate(to).in_ports[j as int],
                        ConnectorType::In,
                        to,
                        j as int,
                    ));
                    c.lemma_drop_slot_source(d, h, to, j);
                }
            }
        }
    }

    /// Dropping the last output slot of a gate keeps the records in
    /// agreement.
    pub proof fn lemma_drop_output_linked(self, g: usize)
        requires
            self.linked(),
            self.has_gate(g),
            self.gate(g).out_ports.len() > 0,
        ensures
            self.drop_output(g).linked(),
    {
        let h = self.gate(g).out_ports.last();
        assert(self.gate_ok(g));
        assert(self.is_port_of(h, ConnectorType::Out, g, self.gate(g).out_ports.len() - 1));
        let c = self.detach_all(h);
        self.lemma_detach(h, self.port(h).connections.len());
        let d = self.drop_output(g);
        assert(c.gate_ok(g));
        assert(c.gate(g).out_ports == self.gate(g).out_ports);
        assert(c.port(h).connections.len() == 0);
        assert forall|x: usize| d.has_gate(x) implies #[trigger] d.gate_ok(x) by {
            assert(c.gate_ok(x));
            let n = c.gate(x);
            assert forall|j: int| 0 <= j < d.gate(x).in_ports.len() implies d.is_port_of(
                #[trigger] d.gate(x).in_ports[j],
                ConnectorType::In,
                x,
                j,
            ) by {
                assert(c.is_port_of(n.in_ports[j], ConnectorType::In, x, j));
            }
            assert forall|k: int| 0 <= k < d.gate(x).out_ports.len() implies d.is_port_of(
                #[trigger] d.gate(x).out_ports[k],
                ConnectorType::Out,
                x,
                k,
            ) by {
                assert(c.is_port_of(n.out_ports[k], ConnectorType::Out, x, k));
            }
        }
        assert forall|x: usize| d.has_port(x) implies #[trigger] d.port_ok(x) by {
            assert(c.port_ok(x));
            let p = d.port(x);
            assert(c.gate_ok(p.parent));
            assert forall|y: int| 0 <= y < p.connections.len() implies d.attached(
                #[trigger] p.connections[y],
                x,
                p.ctype,
            ) by {
                assert(c.attached(c.port(x).connections[y], x, p.ctype));
            }
        }
        assert forall|w: usize| d.has_wire(w) implies #[trigger] d.wire_ok(w) by {
            assert(c.wire_ok(w));
        }
        assert forall|x: usize, k: usize|
            d.has_gate(x) && (k as int) < d.gate(x).targets.len() implies #[trigger] d.fanout_ok(
            x,
            k,
        ) by {
            assert(c.fanout_ok(x, k));
            assert(d.gate(x).targets[k as int] == c.gate(x).targets[k as int]);
            assert forall|to: usize, j: usize|
                #![trigger d.listed(x, k, to, j)]
                #![trigger d.feeds(x, k, to, j)]
                d.listed(x, k, to, j) <==> d.feeds(x, k, to, j) by {
                assert(c.listed(x, k, to, j) <==> c.feeds(x, k, to, j));
                if c.has_gate(to) && (j as int) < d.gate(to).in_ports.len() {
                    assert(c.gate_ok(to));
                    assert(c.is_port_of(
                        c.gate(to).in_ports[j as int],
                        ConnectorType::In,
                        to,
                        j as int,
                    ));
                    c.lemma_drop_slot_source(d, h, to, j);
                }
            }
        }
    }

    /// A tick changes values only, so it keeps the records in agreement
    /// and every gate within its ranges.
    pub proof fn lemma_step_wf(self)
        requires
            self.wf(),
        ensures
            self.transitioned().wf(),
            self.step().wf(),
    {
        let t = self.transitioned();
        self.lemma_values_only(t);
        t.lemma_values_only(t.propagated());
    }

    /// Whether this circuit differs from `before` at most in the values
    /// that inputs and outputs hold.
    pub open spec fn same_wiring(self, before: CircuitView) -> bool {
        &&& self.gates.len() == before.gates.len()
        &&& self.ports == before.ports
        &&& self.wires == before.wires
        &&& forall|g: usize|
            before.has_gate(g) ==> (#[trigger] self.gate(g)) == (GateView {
                inputs: self.gate(g).inputs,
                outputs: self.gate(g).outputs,
                ..before.gate(g)
            }) && self.gate(g).inputs.len() == before.gate(g).inputs.len() && self.gate(
                g,
            ).outputs.len() == before.gate(g).outputs.len()
    }

    /// A circuit that differs from a well-formed one in values only is
    /// well formed, and drives every input from the same output.
    pub proof fn lemma_values_only(self, d: CircuitView)
        requires
            self.wf(),
            d.same_wiring(self),
        ensures
            d.wf(),
            forall|to: usize, j: usize|
                self.has_gate(to) ==> #[trigger] d.source(to, j) == self.source(to, j),
    {
        assert forall|to: usize, j: usize| self.has_gate(to) implies #[trigger] d.source(to, j)
            == self.source(to, j) by {
            assert(d.gate(to).in_ports == self.gate(to).in_ports);
        }
        assert forall|x: usize| d.has_gate(x) implies #[trigger] d.gate_ok(x) by {
            assert(self.gate_ok(x));
            let n = self.gate(x);
            assert forall|j: int| 0 <= j < d.gate(x).in_ports.len() implies d.is_port_of(
                #[trigger] d.gate(x).in_ports[j],
                ConnectorType::In,
                x,
                j,
            ) by {
                assert(self.is_port_of(n.in_ports[j], ConnectorType::In, x, j));
            }
            assert forall|k: int| 0 <= k < d.gate(x).out_ports.len() implies d.is_port_of(
                #[trigger] d.gate(x).out_ports[k],
                ConnectorType::Out,
                x,
                k,
            ) by {
                assert(self.is_port_of(n.out_ports[k], ConnectorType::Out, x, k));
            }
        }
        assert forall|x: usize| d.has_port(x) implies #[trigger] d.port_ok(x) by {
            assert(self.port_ok(x));
            let p = d.port(x);
            assert forall|y: int| 0 <= y < p.connections.len() implies d.attached(
                #[trigger] p.connections[y],
                x,
                p.ctype,
            ) by {
                assert(self.attached(self.port(x).connections[y], x, p.ctype));
            }
        }
        assert forall|w: usize| d.has_wire(w) implies #[trigger] d.wire_ok(w) by {
            assert(self.wire_ok(w));
        }
        assert forall|x: usize, k: usize|
            d.has_gate(x) && (k as int) < d.gate(x).targets.len() implies #[trigger] d.fanout_ok(
            x,
            k,
        ) by {
            assert(self.fanout_ok(x, k));
            assert forall|to: usize, j: usize|
                #![trigger d.listed(x, k, to, j)]
                #![trigger d.feeds(x, k, to, j)]
                d.listed(x, k, to, j) <==> d.feeds(x, k, to, j) by {
                assert(self.listed(x, k, to, j) <==> self.feeds(x, k, to, j));
                if self.has_gate(to) {
                    assert(d.source(to, j) == self.source(to, j));
                    assert(d.gate(to).in_ports == self.gate(to).in_ports);
                }
            }
        }
        assert forall|g: usize| d.has_gate(g) implies (#[trigger] d.gate(g)).in_range() by {
            assert(self.gate(g).in_range());
        }
    }

    /// Whether this circuit has the gates of `before` with the same
    /// ranges, and the same numbers of inputs and outputs on every gate
    /// but `g`.
    pub open spec fn same_arity_but(self, before: CircuitView, g: usize) -> bool {
        &&& self.gates.len() == before.gates.len()
        &&& forall|x: usize|
            before.has_gate(x) ==> (#[trigger] self.gate(x)).gate.in_range == before.gate(
                x,
            ).gate.in_range && self.gate(x).gate.out_range == before.gate(x).gate.out_range
        &&& forall|x: usize|
            before.has_gate(x) && x != g ==> (#[trigger] self.gate(x)).gate == before.gate(x).gate
    }

    /// Taking one more line away from a connector is taking the others
    /// away first and then the one that is first by then.
    pub proof fn lemma_detach_next(self, h: usize, count: nat)
        ensures
            self.detach(h, count + 1) == self.detach(h, count).disconnect(
                self.detach(h, count).port(h).connections[0],
            ),
        decreases count,
    {
        if count > 0 {
            self.disconnect(self.port(h).connections[0]).lemma_detach_next(h, (count - 1) as nat);
        } else {
            assert(self.detach(h, 1) == self.disconnect(self.port(h).connections[0]).detach(h, 0));
        }
    }

    /// Adding one more input slot is adding the others first.
    pub proof fn lemma_add_inputs_next(self, g: usize, count: nat)
        ensures
            self.add_inputs(g, count + 1) == self.add_inputs(g, count).add_input(g),
        decreases count,
    {
        if count > 0 {
            self.add_input(g).lemma_add_inputs_next(g, (count - 1) as nat);
        } else {
            assert(self.add_inputs(g, 1) == self.add_input(g).add_inputs(g, 0));
        }
    }

    /// Dropping one more input slot is dropping the others first.
    pub proof fn lemma_drop_inputs_next(self, g: usize, count: nat)
        ensures
            self.drop_inputs(g, count + 1) == self.drop_inputs(g, count).drop_input(g),
        decreases count,
    {
        if count > 0 {
            self.drop_input(g).lemma_drop_inputs_next(g, (count - 1) as nat);
        } else {
            assert(self.drop_inputs(g, 1) == self.drop_input(g).drop_inputs(g, 0));
        }
    }

    /// Dropping one more output slot is dropping the others first.
    pub proof fn lemma_drop_outputs_next(self, g: usize, count: nat)
        ensures
            self.drop_outputs(g, count + 1) == self.drop_outputs(g, count).drop_output(g),
        decreases count,
    {
        if count > 0 {
            self.drop_output(g).lemma_drop_outputs_next(g, (count - 1) as nat);
        } else {
            assert(self.drop_outputs(g, 1) == self.drop_output(g).drop_outputs(g, 0));
        }
    }

    /// Adding output slots for `rules` and one more rule is adding those
    /// for `rules` first.
    pub proof fn lemma_add_outputs_next(self, g: usize, rules: Seq<Transition>, t: Transition)
        ensures
            self.add_outputs(g, rules.push(t)) == self.add_outputs(g, rules).add_output(g, t),
        decreases rules.len(),
    {
        let more = rules.push(t);
        if rules.len() > 0 {
            assert(more.drop_first() =~= rules.drop_first().push(t));
            self.add_output(g, rules[0]).lemma_add_outputs_next(g, rules.drop_first(), t);
        } else {
            assert(more.drop_first() =~= Seq::<Transition>::empty());
            assert(self.add_outputs(g, more) == self.add_output(g, t).add_outputs(
                g,
                more.drop_first(),
            ));
        }
    }

    /// Dropping the last input slot of gate `g` changes the arity of no
    /// other gate and no range, and leaves `g` one input less.
    pub proof fn lemma_drop_input_arity(self, g: usize)
        requires
            self.linked(),
            self.has_gate(g),
            self.gate(g).in_ports.len() > 0,
        ensures
            self.drop_input(g).same_arity_but(self, g),
            self.drop_input(g).gate(g).in_ports == self.gate(g).in_ports.drop_last(),
            self.drop_input(g).gate(g).out_ports == self.gate(g).out_ports,
            self.drop_input(g).gate(g).gate.outputs == self.gate(g).gate.outputs,
            self.drop_input(g).gate(g).gate.inputs == self.gate(g).gate.inputs - 1,
    {
        let h = self.gate(g).in_ports.last();
        assert(self.gate_ok(g));
        assert(self.is_port_of(h, ConnectorType::In, g, self.gate(g).in_ports.len() - 1));
        self.lemma_detach(h, self.port(h).connections.len());
        let c = self.detach_all(h);
        let d = self.drop_input(g);
        assert forall|x: usize| self.has_gate(x) implies (#[trigger] d.gate(x)).gate.in_range
            == self.gate(x).gate.in_range && d.gate(x).gate.out_range == self.gate(
            x,
        ).gate.out_range by {
            assert(c.gate(x).gate == self.gate(x).gate);
        }
        assert forall|x: usize| self.has_gate(x) && x != g implies (#[trigger] d.gate(x)).gate
            == self.gate(x).gate by {
            assert(c.gate(x).gate == self.gate(x).gate);
        }
        assert(c.gate(g).gate == self.gate(g).gate);
    }

    /// Dropping the last output slot of gate `g` changes the arity of no
    /// other gate and no range, and leaves `g` one output less.
    pub proof fn lemma_drop_output_arity(self, g: usize)
        requires
            self.linked(),
            self.has_gate(g),
            self.gate(g).out_ports.len() > 0,
        ensures
            self.drop_output(g).same_arity_but(self, g),
            self.drop_output(g).gate(g).out_ports == self.gate(g).out_ports.drop_last(),
            self.drop_output(g).gate(g).in_ports == self.gate(g).in_ports,
            self.drop_output(g).gate(g).gate.inputs == self.gate(g).gate.inputs,
            self.drop_output(g).gate(g).gate.outputs == self.gate(g).gate.outputs - 1,
    {
        let h = self.gate(g).out_ports.last();
        assert(self.gate_ok(g));
        assert(self.is_port_of(h, ConnectorType::Out, g, self.gate(g).out_ports.len() - 1));
        self.lemma_detach(h, self.port(h).connections.len());
        let c = self.detach_all(h);
        let d = self.drop_output(g);
        assert forall|x: usize| self.has_gate(x) implies (#[trigger] d.gate(x)).gate.in_range
            == self.gate(x).gate.in_range && d.gate(x).gate.out_range == self.gate(
            x,
        ).gate.out_range by {
            assert(c.gate(x).gate == self.gate(x).gate);
        }
        assert forall|x: usize| self.has_gate(x) && x != g implies (#[trigger] d.gate(x)).gate
            == self.gate(x).gate by {
            assert(c.gate(x).gate == self.gate(x).gate);
        }
        assert(c.gate(g).gate == self.gate(g).gate);
    }

    /// Adding an input slot to gate `g` changes the arity of no other gate
    /// and no range, and leaves `g` one input more.
    pub proof fn lemma_add_input_arity(self, g: usize)
        requires
            self.has_gate(g),
            self.gate(g).gate.inputs < u32::MAX,
        ensures
            self.add_input(g).same_arity_but(self, g),
            self.add_input(g).gate(g).in_ports.len() == self.gate(g).in_ports.len() + 1,
            self.add_input(g).gate(g).out_ports == self.gate(g).out_ports,
            self.add_input(g).gate(g).gate.outputs == self.gate(g).gate.outputs,
            self.add_input(g).gate(g).gate.inputs == self.gate(g).gate.inputs + 1,
    {
    }

    /// Adding an output slot to gate `g` changes the arity of no other
    /// gate and no range, and leaves `g` one output more.
    pub proof fn lemma_add_output_arity(self, g: usize, t: Transition)
        requires
            self.has_gate(g),
            self.gate(g).gate.outputs < u32::MAX,
        ensures
            self.add_output(g, t).same_arity_but(self, g),
            self.add_output(g, t).gate(g).out_ports.len() == self.gate(g).out_ports.len() + 1,
            self.add_output(g, t).gate(g).in_ports == self.gate(g).in_ports,
            self.add_output(g, t).gate(g).gate.inputs == self.gate(g).gate.inputs,
            self.add_output(g, t).gate(g).gate.outputs == self.gate(g).gate.outputs + 1,
    {
    }

    /// The output that drives an input slot exists, and its fan-out table
    /// lists the slot.
    pub proof fn lemma_source_listed(self, to: usize, j: usize)
        requires
            self.linked(),
            self.has_gate(to),
            (j as int) < self.gate(to).in_ports.len(),
        ensures
            match self.source(to, j) {
                Some((g, k)) => {
                    &&& self.has_gate(g)
                    &&& (k as int) < self.gate(g).targets.len()
                    &&& (k as int) < self.gate(g).outputs.len()
                    &&& self.feeds(g, k, to, j)
                    &&& self.listed(g, k, to, j)
                },
                None => true,
            },
    {
        let h = self.gate(to).in_ports[j as int];
        assert(self.gate_ok(to));
        assert(self.is_port_of(h, ConnectorType::In, to, j as int));
        assert(self.port_ok(h));
        if self.port(h).connections.len() == 1 {
            let w0 = self.port(h).connections[0];
            assert(self.attached(w0, h, ConnectorType::In));
            assert(self.wire_ok(w0));
            let o = self.wire(w0).output.entity;
            assert(self.port_ok(o));
            let g = self.port(o).parent;
            let k = self.port(o).index;
            assert(self.gate_ok(g));
            assert(self.fanout_ok(g, k));
            assert(self.feeds(g, k, to, j));
        }
    }

    /// An input slot that a fan-out table lists exists and is driven by
    /// the output that the table belongs to.
    pub proof fn lemma_listed_source(self, g: usize, k: usize, to: usize, j: usize)
        requires
            self.linked(),
            self.has_gate(g),
            (k as int) < self.gate(g).targets.len(),
            self.listed(g, k, to, j),
        ensures
            self.has_gate(to),
            (j as int) < self.gate(to).inputs.len(),
            self.source(to, j) == Some((g, k)),
    {
        assert(self.fanout_ok(g, k));
        assert(self.feeds(g, k, to, j));
        assert(self.gate_ok(to));
    }
}

/// Taking a value out of a sequence in which it occurs once leaves
/// every other value in place and the value itself nowhere.
pub proof fn lemma_remove_value(s: Seq<usize>, v: usize)
    requires
        s.no_duplicates(),
        s.contains(v),
    ensures
        s.remove_value(v).len() == s.len() - 1,
        s.remove_value(v).no_duplicates(),
        !s.remove_value(v).contains(v),
        forall|x: usize| x != v ==> (#[trigger] s.remove_value(v).contains(x) <==> s.contains(x)),
        forall|x: usize| #[trigger] s.remove_value(v).contains(x) ==> s.contains(x),
        s[0] == v ==> s.remove_value(v) == s.drop_first(),
        s.last() == v ==> s.remove_value(v) == s.drop_last(),
{
    s.index_of_first_ensures(v);
    let idx = s.index_of_first(v)->0;
    let r = s.remove(idx);
    assert(r == s.remove_value(v));
    assert forall|x: usize| r.contains(x) implies s.contains(x) by {
        let a = choose|a: int| 0 <= a < r.len() && r[a] == x;
        if a < idx {
            assert(s[a] == x);
        } else {
            assert(s[a + 1] == x);
        }
    }
    assert forall|x: usize| x != v && s.contains(x) implies r.contains(x) by {
        let a = choose|a: int| 0 <= a < s.len() && s[a] == x;
        if a < idx {
            assert(r[a] == x);
        } else {
            assert(r[a - 1] == x);
        }
    }
    if r.contains(v) {
        let a = choose|a: int| 0 <= a < r.len() && r[a] == v;
        if a < idx {
            assert(s[a] == v);
        } else {
            assert(s[a + 1] == v);
        }
    }
    if s[0] == v {
        assert(idx == 0);
        assert(r =~= s.drop_first());
    }
    if s.last() == v {
        assert(idx == s.len() - 1);
        assert(r =~= s.drop_last());
    }
}

} // verus!
