use vstd::prelude::*;

use crate::string::XmlString;
use crate::tree::node::NodeRef;
use crate::xpath::node_set::NodeSetRef;

verus! {

/// The result of an XPath evaluation: a node set, or none when the result
/// is of another kind.
pub struct XPathObjectRef<'a> {
    node_set: Option<NodeSetRef<'a>>,
}

impl<'a> View for XPathObjectRef<'a> {
    type V = Option<Seq<NodeRef<'a>>>;

    closed spec fn view(&self) -> Option<Seq<NodeRef<'a>>> {
        match self.node_set {
            Some(s) => Some(s@),
            None => None,
        }
    }
}

/// The nodes of a result: those of its node set, or none.
pub open spec fn result_nodes<'a>(v: Option<Seq<NodeRef<'a>>>) -> Seq<NodeRef<'a>> {
    match v {
        Some(s) => s,
        None => Seq::empty(),
    }
}

impl<'a> XPathObjectRef<'a> {
    /// A result holding `node_set`.
    pub fn new(node_set: Option<NodeSetRef<'a>>) -> (r: XPathObjectRef<'a>)
        ensures
            r@ == match node_set {
                Some(s) => Some(s@),
                None => None,
            },
    {
        XPathObjectRef { node_set }
    }

    /// The node set of the result, if it has one.
    pub fn get_node_set(&self) -> (r: Option<&NodeSetRef<'a>>)
        ensures
            match r {
                Some(s) => self@ == Some(s@),
                None => self@ is None,
            },
    {
        match &self.node_set {
            Some(s) => Some(s),
            None => None,
        }
    }

    ///get the number of nodes in the result set
    pub fn get_number_of_nodes(&self) -> (r: usize)
        ensures
            r == result_nodes(self@).len(),
    {
        match self.get_node_set() {
            Some(s) => s.len(),
            None => 0,
        }
    }

    /// The nodes of the result, in order; none when it has no node set.
    pub fn get_nodes(&self) -> (r: &[NodeRef<'a>])
        ensures
            r@ == result_nodes(self@),
    {
        match &self.node_set {
            Some(s) => s.as_slice(),
            None => {
                assert(Seq::<NodeRef<'a>>::empty() =~= result_nodes(self@));
                &[]
            },
        }
    }

    /// returns the result set as a vector of `Node` objects
    pub fn get_nodes_as_vec(&self) -> (r: Vec<NodeRef<'a>>)
        ensures
            r@ == result_nodes(self@),
    {
        let nodes = self.get_nodes();
        let mut r: Vec<NodeRef<'a>> = Vec::new();
        let mut k: usize = 0;
        while k < nodes.len()
            invariant
                k <= nodes@.len(),
                r@ == nodes@.take(k as int),
            decreases nodes@.len() - k,
        {
            r.push(nodes[k]);
            proof {
                assert(nodes@.take(k + 1) =~= nodes@.take(k as int).push(nodes@[k as int]));
            }
            k = k + 1;
        }
        proof {
            assert(nodes@.take(nodes@.len() as int) =~= nodes@);
        }
        r
    }

    /// returns the result set as a vector of Strings: the string value of
    /// each node, that is its content or the empty string
    pub fn get_nodes_as_str(&self) -> (r: Vec<XmlString>)
        ensures
            r@.len() == result_nodes(self@).len(),
            forall|k: int|
                0 <= k < r@.len() ==> (#[trigger] r@[k])@ == result_nodes(self@)[k]@.0.string_value(
                    result_nodes(self@)[k]@.1 as int,
                ),
    {
        let nodes = self.get_nodes();
        let mut r: Vec<XmlString> = Vec::new();
        let mut k: usize = 0;
        while k < nodes.len()
            invariant
                nodes@ == result_nodes(self@),
                k <= nodes@.len(),
                r@.len() == k,
                forall|j: int|
                    0 <= j < k ==> (#[trigger] r@[j])@ == nodes@[j]@.0.string_value(
                        nodes@[j]@.1 as int,
                    ),
            decreases nodes@.len() - k,
        {
            let value = match nodes[k].get_content() {
                Some(c) => c,
                None => XmlString::new(String::new()),
            };
            r.push(value);
            k = k + 1;
        }
        r
    }
}

/// The number of nodes of an XPath result, or `-1` when there is no result
/// and `-2` when the result holds no node set.
#[allow(non_snake_case)]
pub fn xmlXPathObjectNumberOfNodes(val: Option<&XPathObjectRef<'_>>) -> (r: i32)
    requires
        val matches Some(o) ==> result_nodes(o@).len() <= i32::MAX,
    ensures
        r == match val {
            None => -1,
            Some(o) => match o@ {
                None => -2,
                Some(s) => s.len() as int,
            },
        },
{
    match val {
        None => -1,
        Some(o) => match o.get_node_set() {
            None => -2,
            Some(s) => {
                let k = s.len();
                k as i32
            },
        },
    }
}

} // verus!
