use vstd::prelude::*;

verus! {

/// The identifier of a node of the property graph.
#[derive(Clone, Copy, Debug, PartialEq, Eq, PartialOrd, Ord, Hash, Structural)]
pub struct NodeId(pub u64);

impl NodeId {
    /// The node identifier with the given number.
    pub fn new(id: u64) -> (node_id: Self)
        ensures
            node_id == NodeId(id),
    {
        NodeId(id)
    }
}

} // verus!
