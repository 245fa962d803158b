use vstd::prelude::*;

use crate::tree::document::DocumentRef;
use crate::tree::model::DocModel;
use crate::tree::namespace::{ns_opt_id, ns_opt_in, NamespaceRef};
use crate::tree::node_type::NodeType;

verus! {

/// An attribute that was unlinked from its element.
pub struct Attr {
    id: usize,
}

impl View for Attr {
    type V = usize;

    closed spec fn view(&self) -> usize {
        self.id
    }
}

impl Attr {
    pub(crate) fn from_id(id: usize) -> (r: Attr)
        ensures
            r@ == id,
    {
        Attr { id }
    }

    /// The index of the attribute in its document.
    pub fn as_ptr(&self) -> (r: usize)
        ensures
            r == self@,
    {
        self.id
    }
}

/// An attribute of a document, borrowed from the document.
#[derive(Clone, Copy)]
pub struct AttrRef<'a> {
    doc: &'a DocumentRef,
    id: usize,
}

impl<'a> View for AttrRef<'a> {
    type V = (DocModel, usize);

    closed spec fn view(&self) -> (DocModel, usize) {
        (self.doc@, self.id)
    }
}

/// A handle names an attribute of a well-formed document.
pub open spec fn attr_handle_ok(v: (DocModel, usize)) -> bool {
    v.0.wf() && v.1 < v.0.attrs.len()
}

/// The index named by an optional attribute handle.
pub open spec fn attr_opt_id(r: Option<AttrRef>) -> Option<usize> {
    match r {
        Some(a) => Some(a@.1),
        None => None,
    }
}

/// An optional attribute handle, if present, names an attribute of `d`.
pub open spec fn attr_opt_in(r: Option<AttrRef>, d: DocModel) -> bool {
    r matches Some(a) ==> a@.0 == d && attr_handle_ok(a@)
}

impl<'a> AttrRef<'a> {
    #[verifier::type_invariant]
    spec fn handle_inv(self) -> bool {
        self.doc@.wf() && self.id < self.doc@.attrs.len()
    }

    pub(crate) fn new(doc: &'a DocumentRef, id: usize) -> (r: AttrRef<'a>)
        requires
            doc@.wf(),
            id < doc@.attrs.len(),
        ensures
            r@ == (doc@, id),
            attr_handle_ok(r@),
    {
        AttrRef { doc, id }
    }

    /// The index of the attribute in its document.
    pub fn as_ptr(&self) -> (r: usize)
        ensures
            r == self@.1,
            attr_handle_ok(self@),
    {
        proof {
            use_type_invariant(self);
        }
        self.id
    }

    /// Get the node type
    pub fn get_type(&self) -> (r: Option<NodeType>)
        ensures
            r == Some(NodeType::AttributeNode),
    {
        NodeType::from_int(2)
    }

    /// The next attribute of the same element, if there is one.
    pub fn get_next(&self) -> (r: Option<AttrRef<'a>>)
        ensures
            attr_opt_id(r) == self@.0.next_attr(self@.1 as int),
            attr_opt_in(r, self@.0),
    {
        proof {
            use_type_invariant(self);
        }
        let ghost m = self.doc@;
        let a = self.id;
        match self.doc.attr_parent(a) {
            Some(p) => {
                proof {
                    assert(m.attr_link_ok(a as int));
                }
                let pos = self.doc.attr_pos(a);
                let props = self.doc.node_properties(p);
                let n = props.len();
                if pos + 1 < n {
                    proof {
                        assert(m.prop_link_ok(p as int, pos + 1));
                    }
                    Some(AttrRef::new(self.doc, props[pos + 1]))
                } else {
                    None
                }
            },
            None => None,
        }
    }

    /// The name of the attribute.
    pub fn get_name(&self) -> (r: &'a str)
        ensures
            r@ == self@.0.attrs[self@.1 as int].name,
    {
        proof {
            use_type_invariant(self);
        }
        self.doc.attr_name(self.id).as_str()
    }

    pub(crate) fn get_name_ptr(&self) -> (r: &'a String)
        ensures
            r@ == self@.0.attrs[self@.1 as int].name,
    {
        proof {
            use_type_invariant(self);
        }
        self.doc.attr_name(self.id)
    }

    /// The namespace of the attribute, if it has one.
    pub fn get_namespace(&self) -> (r: Option<NamespaceRef<'a>>)
        ensures
            ns_opt_id(r) == self@.0.attrs[self@.1 as int].ns,
            ns_opt_in(r, self@.0),
    {
        proof {
            use_type_invariant(self);
            assert(self.doc@.attr_link_ok(self.id as int));
        }
        match self.doc.attr_ns(self.id) {
            Some(s) => Some(NamespaceRef::new(self.doc, s)),
            None => None,
        }
    }
}

} // verus!
