use vstd::prelude::*;

verus! {

/// Timing analysis arrival time: early or late.
#[derive(Clone, Copy, Debug, PartialEq, Eq, Structural)]
pub enum ArrivalType {
    Eearly,
    Late,
}

/// Timing analysis delay type: max or min.
#[derive(Clone, Copy, Debug, PartialEq, Eq, Structural)]
pub enum DelayType {
    Max,
    Min,
}

/// Timing analysis type: setup, hold or unknown.
#[derive(Clone, Copy, Debug, PartialEq, Eq, Structural)]
pub enum TimingType {
    Setup,
    Hold,
    Unknown,
}

/// Kinds of nodes in the timing graph:
/// `Source` starts a clock or data path, `Sink` ends one,
/// `Ipin` is an intermediate input pin, `Opin` an intermediate output pin,
/// `Cpin` an intermediate clock (input) pin, and `NodeFiller` a placeholder
/// that only keeps a linear map contiguous.
#[derive(Clone, Copy, Debug, PartialEq, Eq, Structural)]
pub enum NodeType {
    Source,
    Sink,
    Ipin,
    Opin,
    Cpin,
    NodeFiller,
}

impl Default for NodeType {
    fn default() -> (r: Self)
        ensures
            r == NodeType::NodeFiller,
    {
        NodeType::NodeFiller
    }
}

/// Kinds of edges in the timing graph; `EdgeFiller` is a placeholder.
#[derive(Clone, Copy, Debug, PartialEq, Eq, Structural)]
pub enum EdgeType {
    PrimitiveCombinational,
    PrimitiveClockLaunch,
    PrimitiveClockCapture,
    InterConnect,
    EdgeFiller,
}

impl Default for EdgeType {
    fn default() -> (r: Self)
        ensures
            r == EdgeType::EdgeFiller,
    {
        EdgeType::EdgeFiller
    }
}

/// Per-node bookkeeping of Tarjan's strongly-connected-component search:
/// `index` is the number the node was given when the search reached it
/// (-1 while it has not been reached), `low_link` the lowest index of a
/// node on the stack that it was found to reach, and `on_stack` whether
/// the node waits on the search stack.
#[derive(Clone, Copy, Debug)]
pub struct NodeNccInfo {
    pub on_stack: bool,
    pub index: isize,
    pub low_link: isize,
}

/// A formatting guard kept for interface compatibility; it holds nothing.
pub struct OsFormatGuard {
}

} // verus!
