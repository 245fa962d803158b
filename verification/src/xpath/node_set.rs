use vstd::prelude::*;

use crate::tree::node::NodeRef;

verus! {

/// A set of nodes that an XPath expression selected, in the order of the
/// result.
pub struct NodeSetRef<'a> {
    nodes: Vec<NodeRef<'a>>,
}

impl<'a> View for NodeSetRef<'a> {
    type V = Seq<NodeRef<'a>>;

    closed spec fn view(&self) -> Seq<NodeRef<'a>> {
        self.nodes@
    }
}

impl<'a> NodeSetRef<'a> {
    /// A node set holding `nodes`.
    pub fn new(nodes: Vec<NodeRef<'a>>) -> (r: NodeSetRef<'a>)
        ensures
            r@ == nodes@,
    {
        NodeSetRef { nodes }
    }

    /// The number of nodes in the set.
    pub fn len(&self) -> (r: usize)
        ensures
            r == self@.len(),
    {
        self.nodes.len()
    }

    /// The set holds no node.
    pub fn is_empty(&self) -> (r: bool)
        ensures
            r == (self@.len() == 0),
    {
        self.len() == 0
    }

    /// The nodes of the set, in order.
    pub fn as_slice(&self) -> (r: &[NodeRef<'a>])
        ensures
            r@ == self@,
    {
        self.nodes.as_slice()
    }
}

} // verus!
