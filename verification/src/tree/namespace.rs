use vstd::prelude::*;

use crate::tree::document::{opt_string_eq, DocumentRef};
use crate::tree::model::{sref_opt, DocModel};

verus! {

/// A namespace declaration of a document, borrowed from the document.
#[derive(Clone, Copy)]
pub struct NamespaceRef<'a> {
    doc: &'a DocumentRef,
    id: usize,
}

impl<'a> View for NamespaceRef<'a> {
    type V = (DocModel, usize);

    closed spec fn view(&self) -> (DocModel, usize) {
        (self.doc@, self.id)
    }
}

/// A handle names a namespace declaration of a well-formed document.
pub open spec fn ns_handle_ok(v: (DocModel, usize)) -> bool {
    v.0.wf() && v.1 < v.0.nss.len()
}

/// The index named by an optional namespace handle.
pub open spec fn ns_opt_id(r: Option<NamespaceRef>) -> Option<usize> {
    match r {
        Some(s) => Some(s@.1),
        None => None,
    }
}

/// An optional namespace handle, if present, names a declaration of `d`.
pub open spec fn ns_opt_in(r: Option<NamespaceRef>, d: DocModel) -> bool {
    r matches Some(s) ==> s@.0 == d && ns_handle_ok(s@)
}

/// The indices named by a sequence of namespace handles.
pub open spec fn ns_ids_of(v: Seq<NamespaceRef>) -> Seq<usize> {
    v.map_values(|s: NamespaceRef| s@.1)
}

/// Every handle of a sequence names a declaration of document `d`.
pub open spec fn ns_all_in(v: Seq<NamespaceRef>, d: DocModel) -> bool {
    forall|k: int| 0 <= k < v.len() ==> #[trigger] v[k]@.0 == d && ns_handle_ok(v[k]@)
}

/// Two declarations are equal when their prefixes and URIs are.
pub open spec fn ns_same(d1: DocModel, s1: usize, d2: DocModel, s2: usize) -> bool {
    d1.nss[s1 as int].prefix == d2.nss[s2 as int].prefix && d1.nss[s1 as int].href
        == d2.nss[s2 as int].href
}

impl<'a> NamespaceRef<'a> {
    #[verifier::type_invariant]
    spec fn handle_inv(self) -> bool {
        self.doc@.wf() && self.id < self.doc@.nss.len()
    }

    pub(crate) fn new(doc: &'a DocumentRef, id: usize) -> (r: NamespaceRef<'a>)
        requires
            doc@.wf(),
            id < doc@.nss.len(),
        ensures
            r@ == (doc@, id),
            ns_handle_ok(r@),
    {
        NamespaceRef { doc, id }
    }

    /// The index of the declaration in its document.
    pub fn as_ptr(&self) -> (r: usize)
        ensures
            r == self@.1,
            ns_handle_ok(self@),
    {
        proof {
            use_type_invariant(self);
        }
        self.id
    }

    /// The prefix of the namespace, if it has one.
    pub fn get_prefix(&self) -> (r: Option<&'a str>)
        ensures
            sref_opt(r) == self@.0.nss[self@.1 as int].prefix,
    {
        proof {
            use_type_invariant(self);
        }
        match self.doc.ns_prefix(self.id) {
            Some(s) => Some(s.as_str()),
            None => None,
        }
    }

    /// The URI of the namespace, if it has one.
    pub fn get_href(&self) -> (r: Option<&'a str>)
        ensures
            sref_opt(r) == self@.0.nss[self@.1 as int].href,
    {
        proof {
            use_type_invariant(self);
        }
        match self.doc.ns_href(self.id) {
            Some(s) => Some(s.as_str()),
            None => None,
        }
    }

    /// The next declaration on the same node, if there is one.
    pub fn get_next(&self) -> (r: Option<NamespaceRef<'a>>)
        ensures
            ns_opt_id(r) == self@.0.next_ns(self@.1 as int),
            ns_opt_in(r, self@.0),
    {
        proof {
            use_type_invariant(self);
        }
        let ghost m = self.doc@;
        let s = self.id;
        match self.doc.ns_owner(s) {
            Some(p) => {
                proof {
                    assert(m.ns_link_ok(s as int));
                }
                let pos = self.doc.ns_pos(s);
                let defs = self.doc.node_ns_def(p);
                let n = defs.len();
                if pos + 1 < n {
                    proof {
                        assert(m.ns_def_link_ok(p as int, pos + 1));
                    }
                    Some(NamespaceRef::new(self.doc, defs[pos + 1]))
                } else {
                    None
                }
            },
            None => None,
        }
    }

    /// Two declarations are equal when their prefixes and URIs are.
    pub fn eq(&self, other: &NamespaceRef) -> (r: bool)
        ensures
            r == ns_same(self@.0, self@.1, other@.0, other@.1),
    {
        proof {
            use_type_invariant(self);
            use_type_invariant(other);
        }
        opt_string_eq(self.doc.ns_prefix(self.id), other.doc.ns_prefix(other.id)) && opt_string_eq(
            self.doc.ns_href(self.id),
            other.doc.ns_href(other.id),
        )
    }
}

} // verus!
