//! Ports and edges: the addressable endpoints of a network and the
//! directed connections between them.

use vstd::prelude::*;

verus! {

/// Index of a vertex in a network.
pub type NodeIndex = usize;

/// Index of an input or output channel.
pub type PortIndex = usize;

/// Input or output port.
#[derive(Clone, Copy, Debug, PartialEq, Eq, Structural)]
pub enum Port {
    /// Input or output of a vertex.
    Local(NodeIndex, PortIndex),
    /// Input or output of the network itself.
    Global(PortIndex),
    /// Unconnected input, which reads as silence.
    Zero,
}

/// A connection from a producing port to a consuming port.
#[derive(Clone, Copy, Debug, PartialEq, Eq, Structural)]
pub struct Edge {
    pub source: Port,
    pub target: Port,
}

/// Create an edge from `source` to `target`.
pub fn edge(source: Port, target: Port) -> (e: Edge)
    ensures
        e == (Edge { source, target }),
{
    Edge { source, target }
}

} // verus!
