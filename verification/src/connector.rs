//! Connectors on gates and the connection lines between them.

use vstd::prelude::*;

verus! {

/// Whether a connector takes a signal in or gives one out.
#[derive(Debug, Copy, Clone, Eq, PartialEq, Structural)]
pub enum ConnectorType {
    In,
    Out,
}

/// The connection lines attached to a connector, by handle.
pub struct Connections(pub Vec<usize>);

/// A connector is the point on a gate where connection lines attach.
pub struct Connector {
    /// The type of the connector.
    pub ctype: ConnectorType,
    /// Its slot among the inputs (or the outputs) of its gate.
    pub index: usize,
    /// Its gate.
    pub parent: usize,
    /// Whether the connector carries the one line it may carry. Only an
    /// input connector is ever occupied.
    pub occupied: bool,
    /// The lines attached to it.
    pub connections: Connections,
}

/// One end of a connection line: a connector and its slot on its gate.
#[derive(Debug, Copy, Clone, Eq, PartialEq, Structural)]
pub struct ConnInfo {
    pub entity: usize,
    pub index: usize,
}

/// A connection line leads from an output connector to an input connector.
#[derive(Debug, Copy, Clone, Eq, PartialEq, Structural)]
pub struct ConnectionLine {
    pub output: ConnInfo,
    pub input: ConnInfo,
}

/// The mathematical value of a connector.
pub struct PortView {
    pub ctype: ConnectorType,
    pub index: usize,
    pub parent: usize,
    pub occupied: bool,
    pub connections: Seq<usize>,
}

impl View for Connector {
    type V = PortView;

    open spec fn view(&self) -> PortView {
        PortView {
            ctype: self.ctype,
            index: self.index,
            parent: self.parent,
            occupied: self.occupied,
            connections: self.connections.0@,
        }
    }
}

impl PortView {
    /// A connector as it is when it comes into being: free, with no line.
    pub open spec fn fresh(ctype: ConnectorType, index: usize, parent: usize) -> PortView {
        PortView { ctype, index, parent, occupied: false, connections: Seq::empty() }
    }
}

impl PortView {
    /// This connector without the line it carried: free, with no line.
    pub open spec fn freed(self) -> PortView {
        PortView { occupied: false, connections: Seq::empty(), ..self }
    }
}

impl Connector {
    /// Creates a free connector of gate `parent` for slot `index`.
    pub fn new(ctype: ConnectorType, index: usize, parent: usize) -> (r: Connector)
        ensures
            r@ == PortView::fresh(ctype, index, parent),
    {
        Connector { ctype, index, parent, occupied: false, connections: Connections(Vec::new()) }
    }
}

impl ConnectionLine {
    /// Creates the line that leads from `output` to `input`.
    pub fn new(output: ConnInfo, input: ConnInfo) -> (r: ConnectionLine)
        ensures
            r == (ConnectionLine { output, input }),
    {
        ConnectionLine { output, input }
    }
}

} // verus!
