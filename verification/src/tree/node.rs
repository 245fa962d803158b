use vstd::prelude::*;

use crate::string::{xs_opt, XmlString};
use crate::tree::attr::{attr_opt_id, attr_opt_in, AttrRef};
use crate::tree::document::DocumentRef;
use crate::list::XmlList;
use crate::tree::document::{opt_string_eq, str_eq};
use crate::tree::model::{
    class_names_of, dedup_strs, nonempty_str, split_spaces, strs_of, xml_ns_uri, xml_prefix, has_nul, head_opt, sref_opt, str_opt, DocModel, NsQuery, ATTRIBUTE_CODE, ELEMENT_CODE,
    ENTITY_CODE, ENTITY_DECL_CODE, ENTITY_REF_CODE, NAMESPACE_DECL_CODE, TEXT_CODE, CDATA_CODE,
    COMMENT_CODE, DOCUMENT_CODE, DOCUMENT_FRAG_CODE, HTML_DOCUMENT_CODE, PI_CODE,
};
use crate::tree::namespace::{ns_all_in, ns_ids_of, ns_opt_id, ns_opt_in, NamespaceRef};
use crate::tree::model_lemmas::{lemma_filter_first, lemma_filter_take_step, lemma_parent_before};
use crate::tree::node_type::{
    lemma_node_type_code_injective, spec_node_type_code, spec_node_type_from_code, NodeType,
};

verus! {

/// A node that belongs to no parent: a node just created, or one that was
/// replaced as root element.
pub struct Node {
    id: usize,
}

impl View for Node {
    type V = usize;

    closed spec fn view(&self) -> usize {
        self.id
    }
}

impl Node {
    pub(crate) fn from_id(id: usize) -> (r: Node)
        ensures
            r@ == id,
    {
        Node { id }
    }

    /// The index of the node in its document.
    pub fn node_ptr(&self) -> (r: usize)
        ensures
            r == self@,
    {
        self.id
    }
}

/// Which namespace an attribute looked up by name must have.
pub(crate) enum NsFilter<'q> {
    Any,
    NoNs,
    Href(&'q String),
}

pub(crate) open spec fn query_of(f: NsFilter) -> NsQuery {
    match f {
        NsFilter::Any => NsQuery::Any,
        NsFilter::NoNs => NsQuery::NoNs,
        NsFilter::Href(h) => NsQuery::Href(h@),
    }
}

/// The indices named by a sequence of attribute handles.
pub open spec fn attr_ids_of(v: Seq<AttrRef>) -> Seq<usize> {
    v.map_values(|a: AttrRef| a@.1)
}

/// Every handle of a sequence names an attribute of document `d`.
pub open spec fn attr_all_in(v: Seq<AttrRef>, d: DocModel) -> bool {
    forall|k: int|
        0 <= k < v.len() ==> #[trigger] v[k]@.0 == d && crate::tree::attr::attr_handle_ok(v[k]@)
}

/// A node of a document, borrowed from the document.
#[derive(Clone, Copy)]
pub struct NodeRef<'a> {
    doc: &'a DocumentRef,
    id: usize,
}

impl<'a> View for NodeRef<'a> {
    type V = (DocModel, usize);

    closed spec fn view(&self) -> (DocModel, usize) {
        (self.doc@, self.id)
    }
}

/// A handle names a node of a well-formed document.
pub open spec fn handle_ok(v: (DocModel, usize)) -> bool {
    v.0.wf() && v.1 < v.0.nodes.len()
}

/// The index named by an optional node handle.
pub open spec fn opt_id(r: Option<NodeRef>) -> Option<usize> {
    match r {
        Some(n) => Some(n@.1),
        None => None,
    }
}

/// An optional node handle, if present, names a node of document `d`.
pub open spec fn opt_in(r: Option<NodeRef>, d: DocModel) -> bool {
    r matches Some(n) ==> n@.0 == d && handle_ok(n@)
}

/// The indices named by a sequence of node handles.
pub open spec fn ids_of(v: Seq<NodeRef>) -> Seq<usize> {
    v.map_values(|n: NodeRef| n@.1)
}

/// Every handle of a sequence names a node of document `d`.
pub open spec fn all_in(v: Seq<NodeRef>, d: DocModel) -> bool {
    forall|k: int| 0 <= k < v.len() ==> #[trigger] v[k]@.0 == d && handle_ok(v[k]@)
}

impl<'a> NodeRef<'a> {
    #[verifier::type_invariant]
    spec fn handle_inv(self) -> bool {
        self.doc@.wf() && self.id < self.doc@.nodes.len()
    }

    pub(crate) fn new(doc: &'a DocumentRef, id: usize) -> (r: NodeRef<'a>)
        requires
            doc@.wf(),
            id < doc@.nodes.len(),
        ensures
            r@ == (doc@, id),
            handle_ok(r@),
    {
        NodeRef { doc, id }
    }

    /// The index of the node in its document.
    pub fn as_ptr(&self) -> (r: usize)
        ensures
            r == self@.1,
            handle_ok(self@),
    {
        proof {
            use_type_invariant(self);
        }
        self.id
    }

    /// The document the node belongs to.
    pub fn get_document(&self) -> (r: &'a DocumentRef)
        ensures
            r@ == self@.0,
            handle_ok(self@),
    {
        proof {
            use_type_invariant(self);
        }
        self.doc
    }

    fn opt_node(&self, id: Option<usize>) -> (r: Option<NodeRef<'a>>)
        requires
            self.doc@.wf(),
            id matches Some(j) ==> j < self.doc@.nodes.len(),
        ensures
            opt_id(r) == id,
            opt_in(r, self@.0),
    {
        match id {
            Some(j) => Some(NodeRef::new(self.doc, j)),
            None => None,
        }
    }

    /// Returns the next sibling if it exists
    pub fn get_next_sibling(&self) -> (r: Option<NodeRef<'a>>)
        ensures
            opt_id(r) == self@.0.next_sibling(self@.1 as int),
            opt_in(r, self@.0),
    {
        proof {
            use_type_invariant(self);
        }
        let ghost m = self.doc@;
        let id = self.id;
        match self.doc.node_parent(id) {
            Some(p) => {
                proof {
                    assert(m.parent_link_ok(id as int));
                }
                let pos = self.doc.node_pos(id);
                let sibs = self.doc.node_children(p);
                let n = sibs.len();
                if pos + 1 < n {
                    proof {
                        assert(m.child_link_ok(p as int, pos + 1));
                    }
                    Some(NodeRef::new(self.doc, sibs[pos + 1]))
                } else {
                    None
                }
            },
            None => None,
        }
    }

    /// Returns the previous sibling if it exists
    pub fn get_prev_sibling(&self) -> (r: Option<NodeRef<'a>>)
        ensures
            opt_id(r) == self@.0.prev_sibling(self@.1 as int),
            opt_in(r, self@.0),
    {
        proof {
            use_type_invariant(self);
        }
        let ghost m = self.doc@;
        let id = self.id;
        match self.doc.node_parent(id) {
            Some(p) => {
                proof {
                    assert(m.parent_link_ok(id as int));
                }
                let pos = self.doc.node_pos(id);
                let sibs = self.doc.node_children(p);
                if pos > 0 {
                    proof {
                        assert(m.child_link_ok(p as int, pos - 1));
                    }
                    Some(NodeRef::new(self.doc, sibs[pos - 1]))
                } else {
                    None
                }
            },
            None => None,
        }
    }

    /// Returns the first child if it exists
    pub fn get_first_child(&self) -> (r: Option<NodeRef<'a>>)
        ensures
            opt_id(r) == self@.0.first_child(self@.1 as int),
            opt_in(r, self@.0),
    {
        proof {
            use_type_invariant(self);
        }
        let ghost m = self.doc@;
        let kids = self.doc.node_children(self.id);
        if kids.len() > 0 {
            proof {
                assert(m.child_link_ok(self.id as int, 0));
            }
            Some(NodeRef::new(self.doc, kids[0]))
        } else {
            None
        }
    }

    /// Returns the last child if it exists
    pub fn get_last_child(&self) -> (r: Option<NodeRef<'a>>)
        ensures
            opt_id(r) == self@.0.last_child(self@.1 as int),
            opt_in(r, self@.0),
    {
        proof {
            use_type_invariant(self);
        }
        let ghost m = self.doc@;
        let kids = self.doc.node_children(self.id);
        if kids.len() > 0 {
            proof {
                assert(m.child_link_ok(self.id as int, kids.len() - 1));
            }
            Some(NodeRef::new(self.doc, kids[kids.len() - 1]))
        } else {
            None
        }
    }

    /// Returns the parent if it exists
    pub fn get_parent(&self) -> (r: Option<NodeRef<'a>>)
        ensures
            opt_id(r) == self@.0.parent_of(self@.1 as int),
            opt_in(r, self@.0),
    {
        proof {
            use_type_invariant(self);
            assert(self.doc@.parent_link_ok(self.id as int));
        }
        self.opt_node(self.doc.node_parent(self.id))
    }

    /// Get the node type
    pub fn get_type(&self) -> (r: Option<NodeType>)
        ensures
            r == spec_node_type_from_code(self@.0.kind(self@.1 as int)),
            r matches Some(t) ==> spec_node_type_code(t) == self@.0.kind(self@.1 as int),
    {
        proof {
            use_type_invariant(self);
        }
        NodeType::from_int(self.doc.node_kind(self.id))
    }

    /// Returns true if it is a text node
    pub fn is_text_node(&self) -> (r: bool)
        ensures
            r == self@.0.is_text(self@.1 as int),
    {
        proof {
            lemma_node_type_code_injective(NodeType::TextNode);
        }
        matches!(self.get_type(), Some(NodeType::TextNode))
    }

    /// Checks if the given node is an Element
    pub fn is_element_node(&self) -> (r: bool)
        ensures
            r == self@.0.is_element(self@.1 as int),
    {
        proof {
            lemma_node_type_code_injective(NodeType::ElementNode);
        }
        matches!(self.get_type(), Some(NodeType::ElementNode))
    }

    /// Checks if the node is missing; a node handle always names a node.
    pub fn is_null(&self) -> (r: bool)
        ensures
            !r,
    {
        false
    }

    /// Returns the name of the node
    pub fn get_name(&self) -> (r: Option<&'a str>)
        ensures
            sref_opt(r) == self@.0.nodes[self@.1 as int].name,
    {
        proof {
            use_type_invariant(self);
        }
        match self.doc.node_name(self.id) {
            Some(s) => Some(s.as_str()),
            None => None,
        }
    }

    /// Returns the first element child if it exists
    pub fn get_first_element_child(&self) -> (r: Option<NodeRef<'a>>)
        ensures
            opt_id(r) == self@.0.first_element_child(self@.1 as int),
            opt_in(r, self@.0),
    {
        proof {
            use_type_invariant(self);
        }
        let ghost m = self.doc@;
        let kids = self.doc.node_children(self.id);
        let n = kids.len();
        let mut k: usize = 0;
        while k < n
            invariant
                m == self.doc@,
                m.wf(),
                self.id < m.nodes.len(),
                kids@ == m.nodes[self.id as int].children,
                n == kids@.len(),
                k <= n,
                kids@.take(k as int).filter(m.element_pred()) =~= Seq::<usize>::empty(),
            decreases n - k,
        {
            proof {
                assert(m.child_link_ok(self.id as int, k as int));
            }
            let c = kids[k];
            if self.doc.node_kind(c) == ELEMENT_CODE {
                proof {
                    lemma_filter_first(kids@, m.element_pred(), k as int);
                }
                return Some(NodeRef::new(self.doc, c));
            }
            proof {
                lemma_filter_take_step(kids@, m.element_pred(), k as int);
            }
            k = k + 1;
        }
        proof {
            assert(kids@.take(n as int) =~= kids@);
        }
        None
    }

    /// Returns the last element child if it exists
    pub fn get_last_element_child(&self) -> (r: Option<NodeRef<'a>>)
        ensures
            opt_id(r) == self@.0.last_element_child(self@.1 as int),
            opt_in(r, self@.0),
    {
        proof {
            use_type_invariant(self);
        }
        let ghost m = self.doc@;
        let kids = self.doc.node_children(self.id);
        let n = kids.len();
        let ghost t = kids@.reverse();
        let mut j: usize = 0;
        while j < n
            invariant
                m == self.doc@,
                m.wf(),
                self.id < m.nodes.len(),
                kids@ == m.nodes[self.id as int].children,
                n == kids@.len(),
                t == kids@.reverse(),
                j <= n,
                t.take(j as int).filter(m.element_pred()) =~= Seq::<usize>::empty(),
            decreases n - j,
        {
            proof {
                assert(m.child_link_ok(self.id as int, n - 1 - j));
                assert(t[j as int] == kids@[n - 1 - j]);
            }
            let c = kids[n - 1 - j];
            if self.doc.node_kind(c) == ELEMENT_CODE {
                proof {
                    lemma_filter_first(t, m.element_pred(), j as int);
                }
                return Some(NodeRef::new(self.doc, c));
            }
            proof {
                lemma_filter_take_step(t, m.element_pred(), j as int);
            }
            j = j + 1;
        }
        proof {
            assert(t.take(n as int) =~= t);
        }
        None
    }

    /// Returns the next element sibling if it exists
    pub fn get_next_element_sibling(&self) -> (r: Option<NodeRef<'a>>)
        ensures
            opt_id(r) == self@.0.next_element_sibling(self@.1 as int),
            opt_in(r, self@.0),
    {
        proof {
            use_type_invariant(self);
        }
        let ghost m = self.doc@;
        let id = self.id;
        match self.doc.node_parent(id) {
            Some(p) => {
                proof {
                    assert(m.parent_link_ok(id as int));
                }
                let pos = self.doc.node_pos(id);
                let sibs = self.doc.node_children(p);
                let n = sibs.len();
                let ghost t = m.following_siblings(id as int);
                let mut k: usize = pos + 1;
                while k < n
                    invariant
                        m == self.doc@,
                        m.wf(),
                        p < m.nodes.len(),
                        sibs@ == m.nodes[p as int].children,
                        n == sibs@.len(),
                        pos < n,
                        t == sibs@.subrange(pos + 1, n as int),
                        t == m.following_siblings(id as int),
                        id == self.id,
                        pos + 1 <= k <= n,
                        t.take(k - pos - 1).filter(m.element_pred()) =~= Seq::<usize>::empty(),
                    decreases n - k,
                {
                    proof {
                        assert(m.child_link_ok(p as int, k as int));
                        assert(t[k - pos - 1] == sibs@[k as int]);
                    }
                    let c = sibs[k];
                    if self.doc.node_kind(c) == ELEMENT_CODE {
                        proof {
                            lemma_filter_first(t, m.element_pred(), k - pos - 1);
                        }
                        return Some(NodeRef::new(self.doc, c));
                    }
                    proof {
                        lemma_filter_take_step(t, m.element_pred(), k - pos - 1);
                    }
                    k = k + 1;
                }
                proof {
                    assert(t.take(n - pos - 1) =~= t);
                }
                None
            },
            None => {
                proof {
                    assert(m.elements_of(Seq::<usize>::empty()) =~= Seq::<usize>::empty()) by {
                        reveal(Seq::filter);
                    }
                }
                None
            },
        }
    }

    /// Returns the previous element sibling if it exists
    pub fn get_prev_element_sibling(&self) -> (r: Option<NodeRef<'a>>)
        ensures
            opt_id(r) == self@.0.prev_element_sibling(self@.1 as int),
            opt_in(r, self@.0),
    {
        proof {
            use_type_invariant(self);
        }
        let ghost m = self.doc@;
        let id = self.id;
        match self.doc.node_parent(id) {
            Some(p) => {
                proof {
                    assert(m.parent_link_ok(id as int));
                }
                let pos = self.doc.node_pos(id);
                let sibs = self.doc.node_children(p);
                let ghost t = m.preceding_siblings(id as int);
                let mut j: usize = 0;
                while j < pos
                    invariant
                        m == self.doc@,
                        m.wf(),
                        p < m.nodes.len(),
                        sibs@ == m.nodes[p as int].children,
                        pos < sibs@.len(),
                        t == sibs@.subrange(0, pos as int).reverse(),
                        t == m.preceding_siblings(id as int),
                        id == self.id,
                        j <= pos,
                        t.take(j as int).filter(m.element_pred()) =~= Seq::<usize>::empty(),
                    decreases pos - j,
                {
                    proof {
                        assert(m.child_link_ok(p as int, pos - 1 - j));
                        assert(t[j as int] == sibs@[pos - 1 - j]);
                    }
                    let c = sibs[pos - 1 - j];
                    if self.doc.node_kind(c) == ELEMENT_CODE {
                        proof {
                            lemma_filter_first(t, m.element_pred(), j as int);
                        }
                        return Some(NodeRef::new(self.doc, c));
                    }
                    proof {
                        lemma_filter_take_step(t, m.element_pred(), j as int);
                    }
                    j = j + 1;
                }
                proof {
                    assert(t.take(pos as int) =~= t);
                }
                None
            },
            None => {
                proof {
                    assert(m.elements_of(Seq::<usize>::empty()) =~= Seq::<usize>::empty()) by {
                        reveal(Seq::filter);
                    }
                }
                None
            },
        }
    }

    /// Handles for the nodes `v[from..to]` of this node's document, in order.
    fn handles_of(&self, v: &Vec<usize>, from: usize, to: usize) -> (r: Vec<NodeRef<'a>>)
        requires
            self.doc@.wf(),
            from <= to <= v@.len(),
            forall|k: int| from <= k < to ==> v@[k] < self.doc@.nodes.len(),
        ensures
            ids_of(r@) == v@.subrange(from as int, to as int),
            all_in(r@, self@.0),
    {
        let mut r: Vec<NodeRef<'a>> = Vec::new();
        let mut k: usize = from;
        while k < to
            invariant
                self.doc@.wf(),
                from <= k <= to <= v@.len(),
                forall|k2: int| from <= k2 < to ==> v@[k2] < self.doc@.nodes.len(),
                ids_of(r@) == v@.subrange(from as int, k as int),
                all_in(r@, self@.0),
            decreases to - k,
        {
            let h = NodeRef::new(self.doc, v[k]);
            let ghost old_r = r@;
            r.push(h);
            proof {
                assert(ids_of(r@) =~= ids_of(old_r).push(v@[k as int]));
                assert(v@.subrange(from as int, k + 1) =~= v@.subrange(from as int, k as int).push(
                    v@[k as int],
                ));
            }
            k = k + 1;
        }
        r
    }

    /// Iterator over child nodes of this node, given as the list of them
    pub fn iter_child_nodes(&self) -> (r: Vec<NodeRef<'a>>)
        ensures
            ids_of(r@) == self@.0.child_nodes(self@.1 as int),
            all_in(r@, self@.0),
    {
        proof {
            use_type_invariant(self);
        }
        let ghost m = self.doc@;
        let kids = self.doc.node_children(self.id);
        proof {
            assert forall|k: int| 0 <= k < kids@.len() implies kids@[k] < m.nodes.len() by {
                assert(m.child_link_ok(self.id as int, k));
            }
            assert(kids@.subrange(0, kids@.len() as int) =~= kids@);
        }
        self.handles_of(kids, 0, kids.len())
    }

    /// Returns all child nodes of the given node as a vector
    pub fn get_child_nodes(&self) -> (r: Vec<NodeRef<'a>>)
        ensures
            ids_of(r@) == self@.0.child_nodes(self@.1 as int),
            all_in(r@, self@.0),
    {
        self.iter_child_nodes()
    }

    /// Iterate over next siblings, given as the list of them, nearest first
    pub fn iter_next_siblings(&self) -> (r: Vec<NodeRef<'a>>)
        ensures
            ids_of(r@) == self@.0.following_siblings(self@.1 as int),
            all_in(r@, self@.0),
    {
        proof {
            use_type_invariant(self);
        }
        let ghost m = self.doc@;
        let id = self.id;
        match self.doc.node_parent(id) {
            Some(p) => {
                proof {
                    assert(m.parent_link_ok(id as int));
                }
                let pos = self.doc.node_pos(id);
                let sibs = self.doc.node_children(p);
                proof {
                    assert forall|k: int| 0 <= k < sibs@.len() implies sibs@[k] < m.nodes.len() by {
                        assert(m.child_link_ok(p as int, k));
                    }
                }
                let n = sibs.len();
                self.handles_of(sibs, pos + 1, n)
            },
            None => {
                let r: Vec<NodeRef<'a>> = Vec::new();
                proof {
                    assert(ids_of(r@) =~= Seq::<usize>::empty());
                }
                r
            },
        }
    }

    /// Iterate over previous siblings, given as the list of them, nearest first
    pub fn iter_prev_siblings(&self) -> (r: Vec<NodeRef<'a>>)
        ensures
            ids_of(r@) == self@.0.preceding_siblings(self@.1 as int),
            all_in(r@, self@.0),
    {
        proof {
            use_type_invariant(self);
        }
        let ghost m = self.doc@;
        let id = self.id;
        let mut r: Vec<NodeRef<'a>> = Vec::new();
        match self.doc.node_parent(id) {
            Some(p) => {
                proof {
                    assert(m.parent_link_ok(id as int));
                }
                let pos = self.doc.node_pos(id);
                let sibs = self.doc.node_children(p);
                let ghost t = m.preceding_siblings(id as int);
                let mut j: usize = 0;
                while j < pos
                    invariant
                        m == self.doc@,
                        m.wf(),
                        p < m.nodes.len(),
                        sibs@ == m.nodes[p as int].children,
                        pos < sibs@.len(),
                        t == sibs@.subrange(0, pos as int).reverse(),
                        j <= pos,
                        ids_of(r@) == t.take(j as int),
                        all_in(r@, m),
                    decreases pos - j,
                {
                    proof {
                        assert(m.child_link_ok(p as int, pos - 1 - j));
                        assert(t[j as int] == sibs@[pos - 1 - j]);
                    }
                    let h = NodeRef::new(self.doc, sibs[pos - 1 - j]);
                    let ghost old_r = r@;
                    r.push(h);
                    proof {
                        assert(ids_of(r@) =~= ids_of(old_r).push(t[j as int]));
                        assert(t.take(j + 1) =~= t.take(j as int).push(t[j as int]));
                    }
                    j = j + 1;
                }
                proof {
                    assert(t.take(pos as int) =~= t);
                }
                r
            },
            None => {
                proof {
                    assert(ids_of(r@) =~= Seq::<usize>::empty());
                }
                r
            },
        }
    }

    /// Returns all child elements of the given node as a vector
    pub fn get_child_elements(&self) -> (r: Vec<NodeRef<'a>>)
        ensures
            ids_of(r@) == self@.0.child_elements(self@.1 as int),
            all_in(r@, self@.0),
    {
        proof {
            use_type_invariant(self);
        }
        let ghost m = self.doc@;
        let kids = self.doc.node_children(self.id);
        let n = kids.len();
        let mut r: Vec<NodeRef<'a>> = Vec::new();
        let mut k: usize = 0;
        proof {
            assert(kids@.take(0).filter(m.element_pred()) =~= Seq::<usize>::empty()) by {
                reveal(Seq::filter);
            }
            assert(ids_of(r@) =~= Seq::<usize>::empty());
        }
        while k < n
            invariant
                m == self.doc@,
                m.wf(),
                self.id < m.nodes.len(),
                kids@ == m.nodes[self.id as int].children,
                n == kids@.len(),
                k <= n,
                ids_of(r@) == kids@.take(k as int).filter(m.element_pred()),
                all_in(r@, m),
            decreases n - k,
        {
            proof {
                assert(m.child_link_ok(self.id as int, k as int));
                lemma_filter_take_step(kids@, m.element_pred(), k as int);
            }
            let c = kids[k];
            if self.doc.node_kind(c) == ELEMENT_CODE {
                let h = NodeRef::new(self.doc, c);
                let ghost old_r = r@;
                r.push(h);
                proof {
                    assert(ids_of(r@) =~= ids_of(old_r).push(c));
                }
            }
            k = k + 1;
        }
        proof {
            assert(kids@.take(n as int) =~= kids@);
        }
        r
    }

    /// The first attribute of this node with the given name whose namespace
    /// `f` accepts.
    pub(crate) fn find_attr(&self, name: &String, f: NsFilter) -> (r: Option<usize>)
        ensures
            r == self@.0.find_attr(self@.1 as int, name@, query_of(f)),
            r matches Some(a) ==> a < self@.0.attrs.len(),
    {
        proof {
            use_type_invariant(self);
        }
        let ghost m = self.doc@;
        let ghost pred = m.attr_pred(name@, query_of(f));
        if self.doc.node_kind(self.id) != ELEMENT_CODE {
            return None;
        }
        let props = self.doc.node_properties(self.id);
        let n = props.len();
        let mut k: usize = 0;
        while k < n
            invariant
                m == self.doc@,
                m.wf(),
                self.id < m.nodes.len(),
                props@ == m.nodes[self.id as int].properties,
                n == props@.len(),
                k <= n,
                pred == m.attr_pred(name@, query_of(f)),
                m.is_element(self.id as int),
                props@.take(k as int).filter(pred) =~= Seq::<usize>::empty(),
            decreases n - k,
        {
            proof {
                assert(m.prop_link_ok(self.id as int, k as int));
            }
            let a = props[k];
            proof {
                assert(m.attr_link_ok(a as int));
            }
            let same_name = *self.doc.attr_name(a) == *name;
            let ns_ok = match f {
                NsFilter::Any => true,
                NsFilter::NoNs => self.doc.attr_ns(a).is_none(),
                NsFilter::Href(h) => match self.doc.attr_ns(a) {
                    Some(sn) => match self.doc.ns_href(sn) {
                        Some(x) => *x == *h,
                        None => false,
                    },
                    None => false,
                },
            };
            if same_name && ns_ok {
                proof {
                    lemma_filter_first(props@, pred, k as int);
                }
                return Some(a);
            }
            proof {
                lemma_filter_take_step(props@, pred, k as int);
            }
            k = k + 1;
        }
        proof {
            assert(props@.take(n as int) =~= props@);
        }
        None
    }

    fn value_of(&self, a: Option<usize>) -> (r: Option<XmlString>)
        requires
            a matches Some(x) ==> x < self@.0.attrs.len(),
        ensures
            xs_opt(r) == self@.0.attr_value_of(a),
    {
        match a {
            Some(x) => Some(XmlString::new(self.doc.attr_value(x).clone())),
            None => None,
        }
    }

    fn attr_handle(&self, a: Option<usize>) -> (r: Option<AttrRef<'a>>)
        requires
            self@.0.wf(),
            a matches Some(x) ==> x < self@.0.attrs.len(),
        ensures
            attr_opt_id(r) == a,
            attr_opt_in(r, self@.0),
    {
        match a {
            Some(x) => Some(AttrRef::new(self.doc, x)),
            None => None,
        }
    }

    /// Returns the value of property `name`
    pub fn get_property(&self, name: &str) -> (r: Option<XmlString>)
        requires
            !has_nul(name@),
        ensures
            xs_opt(r) == self@.0.attr_value_of(
                self@.0.find_attr(self@.1 as int, name@, NsQuery::Any),
            ),
    {
        let key = name.to_owned();
        let a = self.find_attr(&key, NsFilter::Any);
        self.value_of(a)
    }

    /// Returns the value of property `name` in namespace `ns`
    pub fn get_property_ns(&self, name: &str, ns: &str) -> (r: Option<XmlString>)
        requires
            !has_nul(name@),
            !has_nul(ns@),
        ensures
            xs_opt(r) == self@.0.attr_value_of(
                self@.0.find_attr(self@.1 as int, name@, NsQuery::Href(ns@)),
            ),
    {
        let key = name.to_owned();
        let href = ns.to_owned();
        let a = self.find_attr(&key, NsFilter::Href(&href));
        self.value_of(a)
    }

    /// Returns the value of property `name` with no namespace
    pub fn get_property_no_ns(&self, name: &str) -> (r: Option<XmlString>)
        requires
            !has_nul(name@),
        ensures
            xs_opt(r) == self@.0.attr_value_of(
                self@.0.find_attr(self@.1 as int, name@, NsQuery::NoNs),
            ),
    {
        let key = name.to_owned();
        let a = self.find_attr(&key, NsFilter::NoNs);
        self.value_of(a)
    }

    /// Returns the value of the first property of this node that has the
    /// name of `prop`
    pub fn get_property_by_node(&self, prop: &AttrRef) -> (r: Option<XmlString>)
        ensures
            xs_opt(r) == self@.0.attr_value_of(
                self@.0.find_attr(
                    self@.1 as int,
                    prop@.0.attrs[prop@.1 as int].name,
                    NsQuery::Any,
                ),
            ),
    {
        let a = self.find_attr(prop.get_name_ptr(), NsFilter::Any);
        self.value_of(a)
    }

    /// Return an attribute as a `Node` struct of type AttributeNode
    pub fn get_property_node(&self, name: &str) -> (r: Option<AttrRef<'a>>)
        requires
            !has_nul(name@),
        ensures
            attr_opt_id(r) == self@.0.find_attr(self@.1 as int, name@, NsQuery::Any),
            attr_opt_in(r, self@.0),
    {
        proof {
            use_type_invariant(self);
        }
        let key = name.to_owned();
        let a = self.find_attr(&key, NsFilter::Any);
        self.attr_handle(a)
    }

    /// Return an attribute in a namespace `ns` as a `Node` of type AttributeNode
    pub fn get_property_node_ns(&self, name: &str, ns: &str) -> (r: Option<AttrRef<'a>>)
        requires
            !has_nul(name@),
            !has_nul(ns@),
        ensures
            attr_opt_id(r) == self@.0.find_attr(self@.1 as int, name@, NsQuery::Href(ns@)),
            attr_opt_in(r, self@.0),
    {
        proof {
            use_type_invariant(self);
        }
        let key = name.to_owned();
        let href = ns.to_owned();
        let a = self.find_attr(&key, NsFilter::Href(&href));
        self.attr_handle(a)
    }

    /// Return an attribute with no namespace as a `Node` of type AttributeNode
    pub fn get_property_node_no_ns(&self, name: &str) -> (r: Option<AttrRef<'a>>)
        requires
            !has_nul(name@),
        ensures
            attr_opt_id(r) == self@.0.find_attr(self@.1 as int, name@, NsQuery::NoNs),
            attr_opt_in(r, self@.0),
    {
        proof {
            use_type_invariant(self);
        }
        let key = name.to_owned();
        let a = self.find_attr(&key, NsFilter::NoNs);
        self.attr_handle(a)
    }

    /// Alias for get_property
    pub fn get_attribute(&self, name: &str) -> (r: Option<XmlString>)
        requires
            !has_nul(name@),
        ensures
            xs_opt(r) == self@.0.attr_value_of(
                self@.0.find_attr(self@.1 as int, name@, NsQuery::Any),
            ),
    {
        self.get_property(name)
    }

    /// Alias for get_property_ns
    pub fn get_attribute_ns(&self, name: &str, ns: &str) -> (r: Option<XmlString>)
        requires
            !has_nul(name@),
            !has_nul(ns@),
        ensures
            xs_opt(r) == self@.0.attr_value_of(
                self@.0.find_attr(self@.1 as int, name@, NsQuery::Href(ns@)),
            ),
    {
        self.get_property_ns(name, ns)
    }

    /// Alias for get_property_no_ns
    pub fn get_attribute_no_ns(&self, name: &str) -> (r: Option<XmlString>)
        requires
            !has_nul(name@),
        ensures
            xs_opt(r) == self@.0.attr_value_of(
                self@.0.find_attr(self@.1 as int, name@, NsQuery::NoNs),
            ),
    {
        self.get_property_no_ns(name)
    }

    /// Alias for get_property_node
    pub fn get_attribute_node(&self, name: &str) -> (r: Option<AttrRef<'a>>)
        requires
            !has_nul(name@),
        ensures
            attr_opt_id(r) == self@.0.find_attr(self@.1 as int, name@, NsQuery::Any),
            attr_opt_in(r, self@.0),
    {
        self.get_property_node(name)
    }

    /// Alias for get_property_node_ns
    pub fn get_attribute_node_ns(&self, name: &str, ns: &str) -> (r: Option<AttrRef<'a>>)
        requires
            !has_nul(name@),
            !has_nul(ns@),
        ensures
            attr_opt_id(r) == self@.0.find_attr(self@.1 as int, name@, NsQuery::Href(ns@)),
            attr_opt_in(r, self@.0),
    {
        self.get_property_node_ns(name, ns)
    }

    /// Alias for get_property_node_no_ns
    pub fn get_attribute_node_no_ns(&self, name: &str) -> (r: Option<AttrRef<'a>>)
        requires
            !has_nul(name@),
        ensures
            attr_opt_id(r) == self@.0.find_attr(self@.1 as int, name@, NsQuery::NoNs),
            attr_opt_in(r, self@.0),
    {
        self.get_property_node_no_ns(name)
    }

    /// Check if a property has been defined, without allocating its value
    pub fn has_property(&self, name: &str) -> (r: bool)
        requires
            !has_nul(name@),
        ensures
            r == self@.0.find_attr(self@.1 as int, name@, NsQuery::Any) is Some,
    {
        self.get_property_node(name).is_some()
    }

    /// Check if property `name` in namespace `ns` exists
    pub fn has_property_ns(&self, name: &str, ns: &str) -> (r: bool)
        requires
            !has_nul(name@),
            !has_nul(ns@),
        ensures
            r == self@.0.find_attr(self@.1 as int, name@, NsQuery::Href(ns@)) is Some,
    {
        self.get_property_node_ns(name, ns).is_some()
    }

    /// Check if property `name` with no namespace exists
    pub fn has_property_no_ns(&self, name: &str) -> (r: bool)
        requires
            !has_nul(name@),
        ensures
            r == self@.0.find_attr(self@.1 as int, name@, NsQuery::NoNs) is Some,
    {
        self.get_property_node_no_ns(name).is_some()
    }

    /// Alias for has_property
    pub fn has_attribute(&self, name: &str) -> (r: bool)
        requires
            !has_nul(name@),
        ensures
            r == self@.0.find_attr(self@.1 as int, name@, NsQuery::Any) is Some,
    {
        self.has_property(name)
    }

    /// Alias for has_property_ns
    pub fn has_attribute_ns(&self, name: &str, ns: &str) -> (r: bool)
        requires
            !has_nul(name@),
            !has_nul(ns@),
        ensures
            r == self@.0.find_attr(self@.1 as int, name@, NsQuery::Href(ns@)) is Some,
    {
        self.has_property_ns(name, ns)
    }

    /// Alias for has_property_no_ns
    pub fn has_attribute_no_ns(&self, name: &str) -> (r: bool)
        requires
            !has_nul(name@),
        ensures
            r == self@.0.find_attr(self@.1 as int, name@, NsQuery::NoNs) is Some,
    {
        self.has_property_no_ns(name)
    }

    /// The attributes of this node, in order
    pub fn iter_properties(&self) -> (r: Vec<AttrRef<'a>>)
        ensures
            attr_ids_of(r@) == self@.0.nodes[self@.1 as int].properties,
            attr_all_in(r@, self@.0),
    {
        proof {
            use_type_invariant(self);
        }
        let ghost m = self.doc@;
        let props = self.doc.node_properties(self.id);
        let n = props.len();
        let mut r: Vec<AttrRef<'a>> = Vec::new();
        let mut k: usize = 0;
        while k < n
            invariant
                m == self.doc@,
                m.wf(),
                self.id < m.nodes.len(),
                props@ == m.nodes[self.id as int].properties,
                n == props@.len(),
                k <= n,
                attr_ids_of(r@) == props@.take(k as int),
                attr_all_in(r@, m),
            decreases n - k,
        {
            proof {
                assert(m.prop_link_ok(self.id as int, k as int));
            }
            let h = AttrRef::new(self.doc, props[k]);
            let ghost old_r = r@;
            r.push(h);
            proof {
                assert(attr_ids_of(r@) =~= attr_ids_of(old_r).push(props@[k as int]));
                assert(props@.take(k + 1) =~= props@.take(k as int).push(props@[k as int]));
            }
            k = k + 1;
        }
        proof {
            assert(props@.take(n as int) =~= props@);
        }
        r
    }

    /// Attributes `a` and `b` are collected under the same key.
    fn same_key(&self, a: usize, b: usize, by_ns: bool) -> (r: bool)
        requires
            self@.0.wf(),
            a < self@.0.attrs.len(),
            b < self@.0.attrs.len(),
        ensures
            r == (self@.0.attr_key(a, by_ns) == self@.0.attr_key(b, by_ns)),
    {
        let ghost m = self.doc@;
        proof {
            assert(m.attr_link_ok(a as int));
            assert(m.attr_link_ok(b as int));
        }
        if *self.doc.attr_name(a) != *self.doc.attr_name(b) {
            return false;
        }
        if !by_ns {
            return true;
        }
        match (self.doc.attr_ns(a), self.doc.attr_ns(b)) {
            (Some(sa), Some(sb)) => opt_string_eq(self.doc.ns_prefix(sa), self.doc.ns_prefix(sb))
                && opt_string_eq(self.doc.ns_href(sa), self.doc.ns_href(sb)),
            (None, None) => true,
            _ => false,
        }
    }

    /// The attributes of this node whose key no earlier attribute has.
    fn first_occurrence_ids(&self, by_ns: bool) -> (r: Vec<usize>)
        ensures
            r@ == self@.0.first_occurrences(self@.0.nodes[self@.1 as int].properties, by_ns),
            forall|k: int| 0 <= k < r@.len() ==> r@[k] < self@.0.attrs.len(),
    {
        proof {
            use_type_invariant(self);
        }
        let ghost m = self.doc@;
        let props = self.doc.node_properties(self.id);
        let n = props.len();
        let mut r: Vec<usize> = Vec::new();
        let mut k: usize = 0;
        proof {
            assert(props@.take(0) =~= Seq::<usize>::empty());
        }
        while k < n
            invariant
                m == self.doc@,
                m.wf(),
                self.id < m.nodes.len(),
                props@ == m.nodes[self.id as int].properties,
                n == props@.len(),
                k <= n,
                r@ == m.first_occurrences(props@.take(k as int), by_ns),
                forall|j: int| 0 <= j < r@.len() ==> r@[j] < m.attrs.len(),
            decreases n - k,
        {
            proof {
                assert(m.prop_link_ok(self.id as int, k as int));
            }
            let a = props[k];
            let mut found = false;
            let mut hit: usize = 0;
            let mut j: usize = 0;
            while j < r.len()
                invariant
                    m == self.doc@,
                    m.wf(),
                    a < m.attrs.len(),
                    forall|j2: int| 0 <= j2 < r@.len() ==> r@[j2] < m.attrs.len(),
                    j <= r@.len(),
                    found ==> hit < r@.len() && m.attr_key(r@[hit as int], by_ns) == m.attr_key(
                        a,
                        by_ns,
                    ),
                    !found ==> forall|j2: int|
                        0 <= j2 < j ==> m.attr_key(r@[j2], by_ns) != m.attr_key(a, by_ns),
                decreases r@.len() - j,
            {
                if !found && self.same_key(r[j], a, by_ns) {
                    found = true;
                    hit = j;
                }
                j = j + 1;
            }
            proof {
                let t = props@.take(k + 1);
                assert(t.drop_last() =~= props@.take(k as int));
                assert(t.last() == a);
                let keys = m.keys_of(r@, by_ns);
                if found {
                    assert(keys[hit as int] == m.attr_key(a, by_ns));
                    assert(keys.contains(m.attr_key(a, by_ns)));
                } else {
                    assert(!keys.contains(m.attr_key(a, by_ns))) by {
                        if keys.contains(m.attr_key(a, by_ns)) {
                            let idx = choose|idx: int|
                                0 <= idx < keys.len() && keys[idx] == m.attr_key(a, by_ns);
                            assert(m.attr_key(r@[idx], by_ns) != m.attr_key(a, by_ns));
                        }
                    }
                }
            }
            if !found {
                r.push(a);
            }
            k = k + 1;
        }
        proof {
            assert(props@.take(n as int) =~= props@);
        }
        r
    }

    /// Get a copy of the attributes of this node: each name with the value
    /// of the first attribute of that name, in the order of first occurrence
    pub fn get_properties(&self) -> (r: Vec<(&'a str, Option<XmlString>)>)
        ensures
            ({
                let fo = self@.0.first_occurrences(self@.0.nodes[self@.1 as int].properties, false);
                &&& r@.len() == fo.len()
                &&& forall|k: int|
                    0 <= k < fo.len() ==> (#[trigger] r@[k]).0@ == self@.0.attrs[fo[k] as int].name
                        && xs_opt(r@[k].1) == self@.0.collected_value(self@.1 as int, fo[k])
            }),
    {
        proof {
            use_type_invariant(self);
        }
        let ids = self.first_occurrence_ids(false);
        let ghost fo = ids@;
        let mut r: Vec<(&'a str, Option<XmlString>)> = Vec::new();
        let mut k: usize = 0;
        while k < ids.len()
            invariant
                self.doc@.wf(),
                fo == ids@,
                forall|j: int| 0 <= j < ids@.len() ==> ids@[j] < self.doc@.attrs.len(),
                k <= ids@.len(),
                r@.len() == k,
                forall|j: int|
                    0 <= j < k ==> (#[trigger] r@[j]).0@ == self.doc@.attrs[fo[j] as int].name
                        && xs_opt(r@[j].1) == self.doc@.collected_value(self.id as int, fo[j]),
            decreases ids@.len() - k,
        {
            let a = ids[k];
            let name = self.doc.attr_name(a);
            let value = self.value_of(self.find_attr(name, NsFilter::Any));
            r.push((name.as_str(), value));
            k = k + 1;
        }
        r
    }

    /// Get a copy of the attributes of this node, with names as owned strings
    pub fn get_properties_owned(&self) -> (r: Vec<(String, Option<XmlString>)>)
        ensures
            ({
                let fo = self@.0.first_occurrences(self@.0.nodes[self@.1 as int].properties, false);
                &&& r@.len() == fo.len()
                &&& forall|k: int|
                    0 <= k < fo.len() ==> (#[trigger] r@[k]).0@ == self@.0.attrs[fo[k] as int].name
                        && xs_opt(r@[k].1) == self@.0.collected_value(self@.1 as int, fo[k])
            }),
    {
        proof {
            use_type_invariant(self);
        }
        let ids = self.first_occurrence_ids(false);
        let ghost fo = ids@;
        let mut r: Vec<(String, Option<XmlString>)> = Vec::new();
        let mut k: usize = 0;
        while k < ids.len()
            invariant
                self.doc@.wf(),
                fo == ids@,
                forall|j: int| 0 <= j < ids@.len() ==> ids@[j] < self.doc@.attrs.len(),
                k <= ids@.len(),
                r@.len() == k,
                forall|j: int|
                    0 <= j < k ==> (#[trigger] r@[j]).0@ == self.doc@.attrs[fo[j] as int].name
                        && xs_opt(r@[j].1) == self.doc@.collected_value(self.id as int, fo[j]),
            decreases ids@.len() - k,
        {
            let a = ids[k];
            let name = self.doc.attr_name(a);
            let value = self.value_of(self.find_attr(name, NsFilter::Any));
            r.push((name.clone(), value));
            k = k + 1;
        }
        r
    }

    /// Get a copy of this node's attributes and their namespaces: each pair
    /// of name and namespace, compared by prefix and URI, with the value
    /// looked up by name and namespace URI, in the order of first occurrence
    pub fn get_properties_ns(&self) -> (r: Vec<((&'a str, Option<NamespaceRef<'a>>), Option<XmlString>)>)
        ensures
            ({
                let fo = self@.0.first_occurrences(self@.0.nodes[self@.1 as int].properties, true);
                &&& r@.len() == fo.len()
                &&& forall|k: int|
                    0 <= k < fo.len() ==> {
                        &&& (#[trigger] r@[k]).0.0@ == self@.0.attrs[fo[k] as int].name
                        &&& ns_opt_id(r@[k].0.1) == self@.0.attrs[fo[k] as int].ns
                        &&& ns_opt_in(r@[k].0.1, self@.0)
                        &&& xs_opt(r@[k].1) == self@.0.collected_value_ns(self@.1 as int, fo[k])
                    }
            }),
    {
        proof {
            use_type_invariant(self);
        }
        let ghost m = self.doc@;
        let ids = self.first_occurrence_ids(true);
        let ghost fo = ids@;
        let mut r: Vec<((&'a str, Option<NamespaceRef<'a>>), Option<XmlString>)> = Vec::new();
        let mut k: usize = 0;
        while k < ids.len()
            invariant
                m == self.doc@,
                m.wf(),
                fo == ids@,
                forall|j: int| 0 <= j < ids@.len() ==> ids@[j] < m.attrs.len(),
                k <= ids@.len(),
                r@.len() == k,
                forall|j: int|
                    0 <= j < k ==> {
                        &&& (#[trigger] r@[j]).0.0@ == m.attrs[fo[j] as int].name
                        &&& ns_opt_id(r@[j].0.1) == m.attrs[fo[j] as int].ns
                        &&& ns_opt_in(r@[j].0.1, m)
                        &&& xs_opt(r@[j].1) == m.collected_value_ns(self.id as int, fo[j])
                    },
            decreases ids@.len() - k,
        {
            let a = ids[k];
            proof {
                assert(m.attr_link_ok(a as int));
            }
            let name = self.doc.attr_name(a);
            let (ns, value) = match self.doc.attr_ns(a) {
                Some(s) => {
                    let href = match self.doc.ns_href(s) {
                        Some(h) => h.clone(),
                        None => String::new(),
                    };
                    let v = self.value_of(self.find_attr(name, NsFilter::Href(&href)));
                    (Some(NamespaceRef::new(self.doc, s)), v)
                },
                None => (None, self.value_of(self.find_attr(name, NsFilter::NoNs))),
            };
            r.push(((name.as_str(), ns), value));
            k = k + 1;
        }
        r
    }

    /// Alias for `get_properties`
    pub fn get_attributes(&self) -> (r: Vec<(&'a str, Option<XmlString>)>)
        ensures
            ({
                let fo = self@.0.first_occurrences(self@.0.nodes[self@.1 as int].properties, false);
                &&& r@.len() == fo.len()
                &&& forall|k: int|
                    0 <= k < fo.len() ==> (#[trigger] r@[k]).0@ == self@.0.attrs[fo[k] as int].name
                        && xs_opt(r@[k].1) == self@.0.collected_value(self@.1 as int, fo[k])
            }),
    {
        self.get_properties()
    }

    /// Alias for `get_properties_ns`
    pub fn get_attributes_ns(&self) -> (r: Vec<((&'a str, Option<NamespaceRef<'a>>), Option<XmlString>)>)
        ensures
            ({
                let fo = self@.0.first_occurrences(self@.0.nodes[self@.1 as int].properties, true);
                &&& r@.len() == fo.len()
                &&& forall|k: int|
                    0 <= k < fo.len() ==> {
                        &&& (#[trigger] r@[k]).0.0@ == self@.0.attrs[fo[k] as int].name
                        &&& ns_opt_id(r@[k].0.1) == self@.0.attrs[fo[k] as int].ns
                        &&& ns_opt_in(r@[k].0.1, self@.0)
                        &&& xs_opt(r@[k].1) == self@.0.collected_value_ns(self@.1 as int, fo[k])
                    }
            }),
    {
        self.get_properties_ns()
    }

    /// Gets the active namespace associated to this node
    pub fn get_namespace(&self) -> (r: Option<NamespaceRef<'a>>)
        ensures
            ns_opt_id(r) == self@.0.nodes[self@.1 as int].ns,
            ns_opt_in(r, self@.0),
    {
        proof {
            use_type_invariant(self);
            assert(self.doc@.node_ns_ok(self.id as int));
        }
        match self.doc.node_ns(self.id) {
            Some(s) => Some(NamespaceRef::new(self.doc, s)),
            None => None,
        }
    }

    /// Get a list of namespaces declared with this node
    pub fn get_namespace_declarations(&self) -> (r: Vec<NamespaceRef<'a>>)
        ensures
            ns_ids_of(r@) == self@.0.ns_declarations(self@.1 as int),
            ns_all_in(r@, self@.0),
    {
        proof {
            use_type_invariant(self);
        }
        let ghost m = self.doc@;
        let ghost pred = m.decl_pred();
        let mut r: Vec<NamespaceRef<'a>> = Vec::new();
        if !self.is_element_node() {
            proof {
                assert(m.ns_declarations(self.id as int) =~= Seq::<usize>::empty()) by {
                    reveal(Seq::filter);
                }
                assert(ns_ids_of(r@) =~= Seq::<usize>::empty());
            }
            return r;
        }
        let defs = self.doc.node_ns_def(self.id);
        let n = defs.len();
        let mut k: usize = 0;
        proof {
            assert(defs@.take(0).filter(pred) =~= Seq::<usize>::empty()) by {
                reveal(Seq::filter);
            }
            assert(ns_ids_of(r@) =~= Seq::<usize>::empty());
        }
        while k < n
            invariant
                m == self.doc@,
                m.wf(),
                self.id < m.nodes.len(),
                defs@ == m.nodes[self.id as int].ns_def,
                n == defs@.len(),
                k <= n,
                pred == m.decl_pred(),
                ns_ids_of(r@) == defs@.take(k as int).filter(pred),
                ns_all_in(r@, m),
            decreases n - k,
        {
            proof {
                assert(m.ns_def_link_ok(self.id as int, k as int));
                lemma_filter_take_step(defs@, pred, k as int);
            }
            let s = defs[k];
            if self.doc.ns_prefix(s).is_some() || self.doc.ns_href(s).is_some() {
                let h = NamespaceRef::new(self.doc, s);
                let ghost old_r = r@;
                r.push(h);
                proof {
                    assert(ns_ids_of(r@) =~= ns_ids_of(old_r).push(s));
                }
            }
            k = k + 1;
        }
        proof {
            assert(defs@.take(n as int) =~= defs@);
        }
        r
    }

    /// Gets a list of namespaces associated with this node: the namespaces
    /// declared on it and on its ancestors, nearest first, each prefix once
    pub fn get_namespaces(&self, doc: &DocumentRef) -> (r: Option<XmlList<NamespaceRef<'a>>>)
        ensures
            match r {
                Some(l) => self@.0.ns_list(self@.1 as int) == Some(ns_ids_of(l@)) && ns_all_in(
                    l@,
                    self@.0,
                ),
                None => self@.0.ns_list(self@.1 as int) is None,
            },
    {
        proof {
            use_type_invariant(self);
        }
        let ghost m = self.doc@;
        let i = self.id;
        if self.doc.node_kind(i) == NAMESPACE_DECL_CODE {
            return None;
        }
        let mut res: Vec<NamespaceRef<'a>> = Vec::new();
        let mut cur: Option<usize> = Some(i);
        let ghost mut processed: Seq<usize> = Seq::empty();
        proof {
            assert(processed + m.ns_candidates(i as int) =~= m.ns_candidates(i as int));
            assert(ns_ids_of(res@) =~= Seq::<usize>::empty());
        }
        while cur.is_some()
            invariant
                m == self.doc@,
                m.wf(),
                i < m.nodes.len(),
                cur matches Some(c) ==> c < m.nodes.len(),
                m.ns_candidates(i as int) == processed + match cur {
                    Some(c) => m.ns_candidates(c as int),
                    None => Seq::empty(),
                },
                ns_ids_of(res@) == m.dedup_by_prefix(processed),
                ns_all_in(res@, m),
            decreases match cur {
                Some(c) => c as int + 1,
                None => 0,
            },
        {
            let c = cur.unwrap();
            let ghost before = processed;
            let ghost here = m.declared_here(c as int);
            if self.doc.node_kind(c) == ELEMENT_CODE {
                let defs = self.doc.node_ns_def(c);
                let n = defs.len();
                let mut k: usize = 0;
                proof {
                    assert(before + defs@.take(0) =~= before);
                }
                while k < n
                    invariant
                        m == self.doc@,
                        m.wf(),
                        c < m.nodes.len(),
                        defs@ == m.nodes[c as int].ns_def,
                        n == defs@.len(),
                        k <= n,
                        processed == before + defs@.take(k as int),
                        ns_ids_of(res@) == m.dedup_by_prefix(processed),
                        ns_all_in(res@, m),
                    decreases n - k,
                {
                    proof {
                        assert(m.ns_def_link_ok(c as int, k as int));
                    }
                    let s = defs[k];
                    let mut found = false;
                    let mut j: usize = 0;
                    while j < res.len()
                        invariant
                            m == self.doc@,
                            m.wf(),
                            s < m.nss.len(),
                            ns_all_in(res@, m),
                            j <= res@.len(),
                            found == m.prefixes_of(ns_ids_of(res@).take(j as int)).contains(
                                m.nss[s as int].prefix,
                            ),
                        decreases res@.len() - j,
                    {
                        let t = res[j];
                        proof {
                            assert(t@.0 == m && t@.1 < m.nss.len());
                            assert(ns_ids_of(res@).take(j + 1) =~= ns_ids_of(res@).take(
                                j as int,
                            ).push(t@.1));
                            let pv = m.prefixes_of(ns_ids_of(res@).take(j as int));
                            assert(m.prefixes_of(ns_ids_of(res@).take(j + 1)) =~= pv.push(
                                m.nss[t@.1 as int].prefix,
                            ));
                        }
                        let same = match (t.get_prefix(), self.doc.ns_prefix(s)) {
                            (Some(x), Some(y)) => str_eq(x, y.as_str()),
                            (None, None) => true,
                            _ => false,
                        };
                        proof {
                            let pv = m.prefixes_of(ns_ids_of(res@).take(j as int));
                            let x = m.nss[t@.1 as int].prefix;
                            let y = m.nss[s as int].prefix;
                            assert(same == (x == y));
                            assert(pv.push(x).contains(y) <==> (pv.contains(y) || x == y)) by {
                                if pv.push(x).contains(y) {
                                    let idx = choose|idx: int|
                                        0 <= idx < pv.push(x).len() && pv.push(x)[idx] == y;
                                    if idx < pv.len() {
                                        assert(pv[idx] == y);
                                    }
                                }
                                if pv.contains(y) {
                                    let idx = choose|idx: int| 0 <= idx < pv.len() && pv[idx] == y;
                                    assert(pv.push(x)[idx] == y);
                                }
                                if x == y {
                                    assert(pv.push(x)[pv.len() as int] == y);
                                }
                            }
                        }
                        if same {
                            found = true;
                        }
                        j = j + 1;
                    }
                    proof {
                        assert(ns_ids_of(res@).take(res@.len() as int) =~= ns_ids_of(res@));
                        let np = processed.push(s);
                        assert(np.drop_last() =~= processed);
                        assert(before + defs@.take(k + 1) =~= np);
                    }
                    if !found {
                        let h = NamespaceRef::new(self.doc, s);
                        let ghost old_r = res@;
                        res.push(h);
                        proof {
                            assert(ns_ids_of(res@) =~= ns_ids_of(old_r).push(s));
                        }
                    }
                    proof {
                        processed = processed.push(s);
                    }
                    k = k + 1;
                }
                proof {
                    assert(defs@.take(n as int) =~= defs@);
                    assert(here == defs@);
                }
            } else {
                proof {
                    assert(here =~= Seq::<usize>::empty());
                    assert(before + here =~= before);
                }
            }
            let next = self.doc.node_parent(c);
            proof {
                assert(processed == before + here);
                match next {
                    Some(p) => {
                        lemma_parent_before(m, c as int);
                        assert(m.ns_candidates(c as int) == here + m.ns_candidates(p as int));
                        assert(before + (here + m.ns_candidates(p as int)) =~= (before + here)
                            + m.ns_candidates(p as int));
                    },
                    None => {
                        assert(m.ns_candidates(c as int) == here);
                        assert(before + here + Seq::<usize>::empty() =~= before + here);
                    },
                }
            }
            cur = next;
        }
        proof {
            assert(processed + Seq::<usize>::empty() =~= processed);
        }
        if res.len() == 0 {
            None
        } else {
            Some(XmlList::from_vec(res))
        }
    }

    fn blocks_search(&self, c: usize) -> (r: bool)
        requires
            c < self@.0.nodes.len(),
        ensures
            r == self@.0.blocks_search(c as int),
    {
        let k = self.doc.node_kind(c);
        k == ENTITY_REF_CODE || k == ENTITY_CODE || k == ENTITY_DECL_CODE
    }

    /// The nearest declaration of `prefix` with a URI, from this node up.
    fn search_ns_prefix(&self, prefix: &String) -> (r: Option<usize>)
        ensures
            r == self@.0.search_ns_prefix(self@.1 as int, self@.1 as int, prefix@),
            r matches Some(s) ==> s < self@.0.nss.len(),
    {
        proof {
            use_type_invariant(self);
        }
        let ghost m = self.doc@;
        let ghost pred = m.prefix_pred(prefix@);
        let mut c = self.id;
        loop
            invariant
                m == self.doc@,
                m.wf(),
                c < m.nodes.len(),
                self.id < m.nodes.len(),
                pred == m.prefix_pred(prefix@),
                m.search_ns_prefix(self.id as int, self.id as int, prefix@) == m.search_ns_prefix(
                    self.id as int,
                    c as int,
                    prefix@,
                ),
            decreases c,
        {
            if self.blocks_search(c) {
                return None;
            }
            let ghost here = m.declared_here(c as int);
            if self.doc.node_kind(c) == ELEMENT_CODE {
                let defs = self.doc.node_ns_def(c);
                let n = defs.len();
                let mut k: usize = 0;
                proof {
                    assert(defs@.take(0).filter(pred) =~= Seq::<usize>::empty()) by {
                        reveal(Seq::filter);
                    }
                }
                while k < n
                    invariant
                        m == self.doc@,
                        m.wf(),
                        c < m.nodes.len(),
                        defs@ == m.nodes[c as int].ns_def,
                        here == defs@,
                        here == m.declared_here(c as int),
                        n == defs@.len(),
                        k <= n,
                        pred == m.prefix_pred(prefix@),
                        !m.blocks_search(c as int),
                        m.search_ns_prefix(self.id as int, self.id as int, prefix@)
                            == m.search_ns_prefix(self.id as int, c as int, prefix@),
                        defs@.take(k as int).filter(pred) =~= Seq::<usize>::empty(),
                    decreases n - k,
                {
                    proof {
                        assert(m.ns_def_link_ok(c as int, k as int));
                    }
                    let s = defs[k];
                    let hit = match self.doc.ns_prefix(s) {
                        Some(x) => *x == *prefix && self.doc.ns_href(s).is_some(),
                        None => false,
                    };
                    if hit {
                        proof {
                            lemma_filter_first(defs@, pred, k as int);
                        }
                        return Some(s);
                    }
                    proof {
                        lemma_filter_take_step(defs@, pred, k as int);
                    }
                    k = k + 1;
                }
                proof {
                    assert(defs@.take(n as int) =~= defs@);
                }
                if c != self.id {
                    proof {
                        assert(m.node_ns_ok(c as int));
                    }
                    if let Some(s) = self.doc.node_ns(c) {
                        if match self.doc.ns_prefix(s) {
                            Some(x) => *x == *prefix && self.doc.ns_href(s).is_some(),
                            None => false,
                        } {
                            return Some(s);
                        }
                    }
                }
            } else {
                proof {
                    assert(here.filter(pred) =~= Seq::<usize>::empty()) by {
                        reveal(Seq::filter);
                    }
                }
            }
            match self.doc.node_parent(c) {
                Some(p) => {
                    proof {
                        lemma_parent_before(m, c as int);
                    }
                    c = p;
                },
                None => {
                    return None;
                },
            }
        }
    }

    /// Looks up the uri of a namespace from its prefix, based around a given `Node`
    pub fn lookup_namespace_uri(&self, prefix: &str) -> (r: Option<&'a str>)
        requires
            !has_nul(prefix@),
        ensures
            sref_opt(r) == self@.0.lookup_uri(self@.1 as int, prefix@),
    {
        proof {
            use_type_invariant(self);
        }
        if prefix.is_empty() {
            return None;
        }
        if self.doc.node_kind(self.id) == NAMESPACE_DECL_CODE {
            return None;
        }
        if str_eq(prefix, "xml") {
            return Some("http://www.w3.org/XML/1998/namespace");
        }
        let key = prefix.to_owned();
        match self.search_ns_prefix(&key) {
            Some(s) => match self.doc.ns_href(s) {
                Some(h) => Some(h.as_str()),
                None => None,
            },
            None => None,
        }
    }

    /// Node `n` declares a namespace with the given prefix.
    fn declares_prefix(&self, n: usize, prefix: &Option<String>) -> (r: bool)
        requires
            self@.0.wf(),
            n < self@.0.nodes.len(),
        ensures
            r == self@.0.declares_prefix(n as int, str_opt(*prefix)),
    {
        let ghost m = self.doc@;
        if self.doc.node_kind(n) != ELEMENT_CODE {
            return false;
        }
        let defs = self.doc.node_ns_def(n);
        let len = defs.len();
        let mut k: usize = 0;
        while k < len
            invariant
                m == self.doc@,
                m.wf(),
                n < m.nodes.len(),
                m.is_element(n as int),
                defs@ == m.nodes[n as int].ns_def,
                len == defs@.len(),
                k <= len,
                forall|j: int|
                    0 <= j < k ==> m.nss[m.declared_here(n as int)[j] as int].prefix != str_opt(
                        *prefix,
                    ),
            decreases len - k,
        {
            proof {
                assert(m.ns_def_link_ok(n as int, k as int));
            }
            if opt_string_eq(self.doc.ns_prefix(defs[k]), prefix) {
                return true;
            }
            k = k + 1;
        }
        false
    }

    /// Walking up from node `n`, node `anc` comes before any entity or any
    /// other declaration of `prefix`.
    fn in_scope(&self, n: usize, anc: usize, prefix: &Option<String>) -> (r: bool)
        requires
            self@.0.wf(),
            n < self@.0.nodes.len(),
        ensures
            r == self@.0.in_scope(n as int, anc as int, str_opt(*prefix)),
    {
        let ghost m = self.doc@;
        let mut c = n;
        loop
            invariant
                m == self.doc@,
                m.wf(),
                c < m.nodes.len(),
                m.in_scope(n as int, anc as int, str_opt(*prefix)) == m.in_scope(
                    c as int,
                    anc as int,
                    str_opt(*prefix),
                ),
            decreases c,
        {
            if c == anc {
                return true;
            }
            if self.blocks_search(c) || self.declares_prefix(c, prefix) {
                return false;
            }
            match self.doc.node_parent(c) {
                Some(p) => {
                    proof {
                        lemma_parent_before(m, c as int);
                    }
                    c = p;
                },
                None => {
                    return false;
                },
            }
        }
    }

    /// The nearest declaration of `href` in scope, from this node up.
    fn search_ns_href(&self, href: &String) -> (r: Option<usize>)
        ensures
            r == self@.0.search_ns_href(self@.1 as int, self@.1 as int, href@),
            r matches Some(s) ==> s < self@.0.nss.len(),
    {
        proof {
            use_type_invariant(self);
        }
        let ghost m = self.doc@;
        let orig = self.id;
        let is_attr = self.doc.node_kind(orig) == ATTRIBUTE_CODE;
        let mut c = self.id;
        loop
            invariant
                m == self.doc@,
                m.wf(),
                c < m.nodes.len(),
                orig == self.id,
                orig < m.nodes.len(),
                is_attr == (m.nodes[orig as int].kind == ATTRIBUTE_CODE),
                m.search_ns_href(orig as int, orig as int, href@) == m.search_ns_href(
                    orig as int,
                    c as int,
                    href@,
                ),
            decreases c,
        {
            if self.blocks_search(c) {
                return None;
            }
            let ghost here = m.declared_here(c as int);
            let ghost pred = m.href_pred(orig as int, c as int, href@, is_attr);
            if self.doc.node_kind(c) == ELEMENT_CODE {
                let defs = self.doc.node_ns_def(c);
                let n = defs.len();
                let mut k: usize = 0;
                proof {
                    assert(defs@.take(0).filter(pred) =~= Seq::<usize>::empty()) by {
                        reveal(Seq::filter);
                    }
                }
                while k < n
                    invariant
                        m == self.doc@,
                        m.wf(),
                        c < m.nodes.len(),
                        orig < m.nodes.len(),
                        orig == self.id,
                        defs@ == m.nodes[c as int].ns_def,
                        here == defs@,
                        here == m.declared_here(c as int),
                        n == defs@.len(),
                        k <= n,
                        pred == m.href_pred(orig as int, c as int, href@, is_attr),
                        is_attr == (m.nodes[orig as int].kind == ATTRIBUTE_CODE),
                        !m.blocks_search(c as int),
                        m.search_ns_href(orig as int, orig as int, href@) == m.search_ns_href(
                            orig as int,
                            c as int,
                            href@,
                        ),
                        defs@.take(k as int).filter(pred) =~= Seq::<usize>::empty(),
                    decreases n - k,
                {
                    proof {
                        assert(m.ns_def_link_ok(c as int, k as int));
                    }
                    let s = defs[k];
                    let href_ok = match self.doc.ns_href(s) {
                        Some(x) => *x == *href,
                        None => false,
                    };
                    let hit = href_ok && (!is_attr || self.doc.ns_prefix(s).is_some())
                        && self.in_scope(orig, c, self.doc.ns_prefix(s));
                    if hit {
                        proof {
                            lemma_filter_first(defs@, pred, k as int);
                        }
                        return Some(s);
                    }
                    proof {
                        lemma_filter_take_step(defs@, pred, k as int);
                    }
                    k = k + 1;
                }
                proof {
                    assert(defs@.take(n as int) =~= defs@);
                }
                if c != self.id {
                    proof {
                        assert(m.node_ns_ok(c as int));
                    }
                    if let Some(s) = self.doc.node_ns(c) {
                        if (match self.doc.ns_href(s) {
                            Some(x) => *x == *href,
                            None => false,
                        }) && (!is_attr || self.doc.ns_prefix(s).is_some()) && self.in_scope(
                            orig,
                            c,
                            self.doc.ns_prefix(s),
                        ) {
                            return Some(s);
                        }
                    }
                }
            } else {
                proof {
                    assert(here.filter(pred) =~= Seq::<usize>::empty()) by {
                        reveal(Seq::filter);
                    }
                }
            }
            match self.doc.node_parent(c) {
                Some(p) => {
                    proof {
                        lemma_parent_before(m, c as int);
                    }
                    c = p;
                },
                None => {
                    return None;
                },
            }
        }
    }

    /// Looks up the prefix of a namespace from its URI, based around a given `Node`
    pub fn lookup_namespace_prefix(&self, href: &str) -> (r: Option<&'a str>)
        requires
            !has_nul(href@),
        ensures
            sref_opt(r) == self@.0.lookup_prefix(self@.1 as int, href@),
    {
        proof {
            use_type_invariant(self);
        }
        if href.is_empty() {
            return None;
        }
        if self.doc.node_kind(self.id) == NAMESPACE_DECL_CODE {
            return None;
        }
        if str_eq(href, "http://www.w3.org/XML/1998/namespace") {
            return Some("xml");
        }
        let key = href.to_owned();
        match self.search_ns_href(&key) {
            Some(s) => match self.doc.ns_prefix(s) {
                Some(p) => Some(p.as_str()),
                None => None,
            },
            None => None,
        }
    }

    /// Get a set of class names from this node's attributes: the non-empty
    /// pieces of the `class` attribute between single spaces, each once, in
    /// order of first occurrence
    pub fn get_class_names(&self) -> (r: Vec<String>)
        ensures
            strs_of(r@) == class_names_of(
                self@.0.attr_value_of(self@.0.find_attr(self@.1 as int, "class"@, NsQuery::Any)),
            ),
    {
        proof {
            reveal_strlit("class");
            assert(!has_nul("class"@)) by {
                if "class"@.contains('\0') {
                    let k = choose|k: int| 0 <= k < "class"@.len() && "class"@[k] == '\0';
                    assert("class"@[k] != '\0');
                }
            }
        }
        let mut set: Vec<String> = Vec::new();
        let value = self.get_property("class");
        match value {
            Some(v) => {
                let pieces = split_on_spaces(v.as_str());
                let ghost pv = strs_of(pieces@);
                let ghost ne = nonempty_str();
                let mut k: usize = 0;
                proof {
                    assert(pv.take(0).filter(ne) =~= Seq::<Seq<char>>::empty()) by {
                        reveal(Seq::filter);
                    }
                    assert(strs_of(set@) =~= dedup_strs(pv.take(0).filter(ne)));
                }
                while k < pieces.len()
                    invariant
                        pv == strs_of(pieces@),
                        ne == nonempty_str(),
                        k <= pieces@.len(),
                        strs_of(set@) == dedup_strs(pv.take(k as int).filter(ne)),
                    decreases pieces@.len() - k,
                {
                    let piece = &pieces[k];
                    let ghost fk = pv.take(k as int).filter(ne);
                    proof {
                        assert(pv.take(k + 1) =~= pv.take(k as int).push(piece@));
                        pv.take(k as int).lemma_filter_push(piece@, ne);
                    }
                    if piece.as_str().unicode_len() == 0 {
                        proof {
                            assert(!ne(piece@));
                        }
                        k = k + 1;
                        continue;
                    }
                    proof {
                        assert(ne(piece@));
                        assert(pv.take(k + 1).filter(ne) == fk.push(piece@));
                    }
                    let mut found = false;
                    let mut j: usize = 0;
                    while j < set.len()
                        invariant
                            j <= set@.len(),
                            found == strs_of(set@).take(j as int).contains(piece@),
                        decreases set@.len() - j,
                    {
                        proof {
                            let sv = strs_of(set@).take(j as int);
                            assert(strs_of(set@).take(j + 1) =~= sv.push(set@[j as int]@));
                            let x = set@[j as int]@;
                            let y = piece@;
                            assert(sv.push(x).contains(y) <==> (sv.contains(y) || x == y)) by {
                                if sv.push(x).contains(y) {
                                    let idx = choose|idx: int|
                                        0 <= idx < sv.push(x).len() && sv.push(x)[idx] == y;
                                    if idx < sv.len() {
                                        assert(sv[idx] == y);
                                    }
                                }
                                if sv.contains(y) {
                                    let idx = choose|idx: int| 0 <= idx < sv.len() && sv[idx] == y;
                                    assert(sv.push(x)[idx] == y);
                                }
                                if x == y {
                                    assert(sv.push(x)[sv.len() as int] == y);
                                }
                            }
                        }
                        if set[j] == *piece {
                            found = true;
                        }
                        j = j + 1;
                    }
                    proof {
                        assert(strs_of(set@).take(set@.len() as int) =~= strs_of(set@));
                        assert(fk.push(piece@).drop_last() =~= fk);
                        assert(fk.push(piece@).last() == piece@);
                    }
                    if !found {
                        let owned = piece.clone();
                        let ghost old_set = set@;
                        set.push(owned);
                        proof {
                            assert(strs_of(set@) =~= strs_of(old_set).push(piece@));
                        }
                    }
                    k = k + 1;
                }
                proof {
                    assert(pv.take(pieces@.len() as int) =~= pv);
                }
            },
            None => {
                proof {
                    assert(strs_of(set@) =~= Seq::<Seq<char>>::empty());
                }
            },
        }
        set
    }

    /// Appends the text of the subtree of node `i` to `out`.
    fn collect_text(&self, i: usize, out: &mut String)
        requires
            self@.0.wf(),
            i < self@.0.nodes.len(),
        ensures
            final(out)@ == old(out)@ + self@.0.subtree_text(i as int),
        decreases self@.0.nodes.len() - i,
    {
        let ghost m = self.doc@;
        let ghost start = out@;
        let kind = self.doc.node_kind(i);
        if kind == TEXT_CODE || kind == CDATA_CODE {
            if let Some(c) = self.doc.node_content(i) {
                out.append(c.as_str());
            }
        }
        proof {
            assert(out@ =~= start + m.own_text(i as int));
        }
        let kids = self.doc.node_children(i);
        let n = kids.len();
        if n > 0 {
            proof {
                assert(m.child_link_ok(i as int, 0));
            }
            if self.doc.node_kind(kids[0]) == ENTITY_DECL_CODE {
                return;
            }
        }
        let mut k: usize = 0;
        proof {
            assert(out@ =~= start + m.own_text(i as int) + m.children_text(i as int, 0));
        }
        while k < n
            invariant
                m == self.doc@,
                m.wf(),
                i < m.nodes.len(),
                kids@ == m.nodes[i as int].children,
                n == kids@.len(),
                k <= n,
                out@ == start + m.own_text(i as int) + m.children_text(i as int, k as int),
            decreases n - k,
        {
            proof {
                assert(m.child_link_ok(i as int, k as int));
            }
            let c = kids[k];
            self.collect_text(c, out);
            proof {
                assert(m.children_text(i as int, k + 1) == m.children_text(i as int, k as int)
                    + m.subtree_text(c as int));
                assert(out@ =~= start + m.own_text(i as int) + m.children_text(i as int, k + 1));
            }
            k = k + 1;
        }
        proof {
            assert(m.walks_below(i as int));
            assert(out@ =~= start + m.subtree_text(i as int));
        }
    }

    /// Appends to `out` the text of the children of node `i`: as for a
    /// document when `of_doc` holds, as for an attribute node otherwise.
    fn collect_children_text(&self, i: usize, of_doc: bool, out: &mut String)
        requires
            self@.0.wf(),
            i < self@.0.nodes.len(),
        ensures
            final(out)@ == old(out)@ + if of_doc {
                self@.0.doc_children_text(i as int, self@.0.nodes[i as int].children.len() as int)
            } else {
                self@.0.list_text(i as int, self@.0.nodes[i as int].children.len() as int)
            },
    {
        let ghost m = self.doc@;
        let ghost start = out@;
        let kids = self.doc.node_children(i);
        let n = kids.len();
        let mut k: usize = 0;
        proof {
            assert(out@ =~= start + m.list_text(i as int, 0));
            assert(out@ =~= start + m.doc_children_text(i as int, 0));
        }
        while k < n
            invariant
                m == self.doc@,
                m.wf(),
                i < m.nodes.len(),
                kids@ == m.nodes[i as int].children,
                n == kids@.len(),
                k <= n,
                out@ == start + if of_doc {
                    m.doc_children_text(i as int, k as int)
                } else {
                    m.list_text(i as int, k as int)
                },
            decreases n - k,
        {
            proof {
                assert(m.child_link_ok(i as int, k as int));
            }
            let c = kids[k];
            let kind = self.doc.node_kind(c);
            let ghost before = out@;
            if of_doc && kind == ELEMENT_CODE {
                self.collect_text(c, out);
            } else if kind == TEXT_CODE || kind == CDATA_CODE || (!of_doc && kind
                == ENTITY_REF_CODE) {
                if let Some(t) = self.doc.node_content(c) {
                    out.append(t.as_str());
                }
            }
            proof {
                if of_doc {
                    assert(out@ =~= start + m.doc_children_text(i as int, k + 1));
                } else {
                    assert(out@ =~= start + m.list_text(i as int, k + 1));
                }
            }
            k = k + 1;
        }
    }

    /// Returns the content of the node
    /// (assumes UTF-8 XML document)
    pub fn get_content(&self) -> (r: Option<XmlString>)
        ensures
            xs_opt(r) == self@.0.content_of(self@.1 as int),
    {
        proof {
            use_type_invariant(self);
        }
        let kind = self.doc.node_kind(self.id);
        if kind == ELEMENT_CODE || kind == DOCUMENT_FRAG_CODE {
            let mut out = String::new();
            self.collect_text(self.id, &mut out);
            proof {
                assert(out@ =~= self.doc@.subtree_text(self.id as int));
            }
            Some(XmlString::new(out))
        } else if kind == ATTRIBUTE_CODE || kind == DOCUMENT_CODE || kind == HTML_DOCUMENT_CODE {
            let mut out = String::new();
            self.collect_children_text(self.id, kind != ATTRIBUTE_CODE, &mut out);
            proof {
                assert(out@ =~= self.doc@.content_of(self.id as int)->0);
            }
            Some(XmlString::new(out))
        } else if kind == TEXT_CODE || kind == CDATA_CODE || kind == COMMENT_CODE || kind == PI_CODE {
            match self.doc.node_content(self.id) {
                Some(c) => Some(XmlString::new(c.clone())),
                None => None,
            }
        } else {
            None
        }
    }
}

/// The pieces of `text` between single spaces.
fn split_on_spaces(text: &str) -> (r: Vec<String>)
    ensures
        strs_of(r@) == split_spaces(text@),
{
    let n = text.unicode_len();
    let mut pieces: Vec<String> = Vec::new();
    let mut start: usize = 0;
    let mut k: usize = 0;
    proof {
        assert(text@.take(0) =~= Seq::<char>::empty());
        assert(text@.subrange(0, 0) =~= Seq::<char>::empty());
        assert(strs_of(pieces@).push(text@.subrange(0, 0)) =~= seq![Seq::<char>::empty()]);
    }
    while k < n
        invariant
            n == text@.len(),
            start <= k <= n,
            split_spaces(text@.take(k as int)) == strs_of(pieces@).push(
                text@.subrange(start as int, k as int),
            ),
        decreases n - k,
    {
        let c = text.get_char(k);
        let ghost pv = strs_of(pieces@);
        proof {
            let t = text@.take(k + 1);
            assert(t.drop_last() =~= text@.take(k as int));
            assert(t.last() == c);
        }
        if c == ' ' {
            let piece = text.substring_char(start, k).to_owned();
            pieces.push(piece);
            proof {
                assert(strs_of(pieces@) =~= pv.push(text@.subrange(start as int, k as int)));
                assert(text@.subrange(k + 1, k + 1) =~= Seq::<char>::empty());
            }
            start = k + 1;
        } else {
            proof {
                let prev = pv.push(text@.subrange(start as int, k as int));
                assert(text@.subrange(start as int, k + 1) =~= text@.subrange(
                    start as int,
                    k as int,
                ).push(c));
                assert(prev.update(prev.len() - 1, prev.last().push(c)) =~= pv.push(
                    text@.subrange(start as int, k + 1),
                ));
            }
        }
        k = k + 1;
    }
    let last = text.substring_char(start, n).to_owned();
    let ghost pv = strs_of(pieces@);
    pieces.push(last);
    proof {
        assert(strs_of(pieces@) =~= pv.push(text@.subrange(start as int, n as int)));
        assert(text@.take(n as int) =~= text@);
    }
    pieces
}

} // verus!
