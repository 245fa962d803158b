use vstd::prelude::*;
use vstd::string::StringSliceAdditionalSpecFns;

use crate::error::Error;
use crate::tree::model::{
    sref_opt, str_opt, AttrModel, DocModel, NodeModel, NsModel, ATTRIBUTE_CODE, DOCUMENT_CODE,
    ELEMENT_CODE, NAMESPACE_DECL_CODE, TEXT_CODE, XINCLUDE_END_CODE, XINCLUDE_START_CODE,
};
use crate::tree::attr::Attr;
use crate::tree::model_lemmas::{
    lemma_root_element_child, lemma_with_attr_unlinked_wf, lemma_with_root_set_wf,
    lemma_empty_doc_wf, lemma_with_new_child_wf, lemma_with_new_node_wf, lemma_with_new_ns_wf,
    lemma_with_new_prop_wf, lemma_with_node_ns_wf, lemma_ns_removed_below_wf,
};
use crate::tree::node::{opt_id, opt_in, Node, NodeRef};
use crate::tree::node_type::{spec_node_type_code, NodeType};

verus! {

pub(crate) struct NodeData {
    pub(crate) kind: u32,
    pub(crate) name: Option<String>,
    pub(crate) content: Option<String>,
    pub(crate) parent: Option<usize>,
    pub(crate) pos: usize,
    pub(crate) children: Vec<usize>,
    pub(crate) properties: Vec<usize>,
    pub(crate) ns: Option<usize>,
    pub(crate) ns_def: Vec<usize>,
}

impl View for NodeData {
    type V = NodeModel;

    closed spec fn view(&self) -> NodeModel {
        NodeModel {
            kind: self.kind,
            name: str_opt(self.name),
            content: str_opt(self.content),
            parent: self.parent,
            pos: self.pos,
            children: self.children@,
            properties: self.properties@,
            ns: self.ns,
            ns_def: self.ns_def@,
        }
    }
}

pub(crate) struct AttrData {
    pub(crate) name: String,
    pub(crate) value: String,
    pub(crate) ns: Option<usize>,
    pub(crate) parent: Option<usize>,
    pub(crate) pos: usize,
}

impl View for AttrData {
    type V = AttrModel;

    closed spec fn view(&self) -> AttrModel {
        AttrModel {
            name: self.name@,
            value: self.value@,
            ns: self.ns,
            parent: self.parent,
            pos: self.pos,
        }
    }
}

pub(crate) struct NsData {
    pub(crate) prefix: Option<String>,
    pub(crate) href: Option<String>,
    pub(crate) owner: Option<usize>,
    pub(crate) pos: usize,
}

impl View for NsData {
    type V = NsModel;

    closed spec fn view(&self) -> NsModel {
        NsModel {
            prefix: str_opt(self.prefix),
            href: str_opt(self.href),
            owner: self.owner,
            pos: self.pos,
        }
    }
}

/// A document tree: its nodes, attributes and namespace declarations.
pub struct DocumentRef {
    nodes: Vec<NodeData>,
    attrs: Vec<AttrData>,
    nss: Vec<NsData>,
    version: String,
}

impl View for DocumentRef {
    type V = DocModel;

    closed spec fn view(&self) -> DocModel {
        DocModel {
            nodes: self.nodes@.map_values(|n: NodeData| n@),
            attrs: self.attrs@.map_values(|a: AttrData| a@),
            nss: self.nss@.map_values(|s: NsData| s@),
        }
    }
}

/// An owned document.
pub struct Document {
    inner: DocumentRef,
}

impl View for Document {
    type V = DocModel;

    closed spec fn view(&self) -> DocModel {
        self.inner@
    }
}

/// A document made of the document node alone.
pub open spec fn empty_doc_model() -> DocModel {
    DocModel {
        nodes: seq![
            NodeModel {
                kind: DOCUMENT_CODE,
                name: None,
                content: None,
                parent: None,
                pos: 0,
                children: Seq::empty(),
                properties: Seq::empty(),
                ns: None,
                ns_def: Seq::empty(),
            },
        ],
        attrs: Seq::empty(),
        nss: Seq::empty(),
    }
}

/// The place of the first zero byte of `s`, if it holds one.
pub open spec fn first_zero(s: Seq<u8>) -> Option<usize> {
    if exists|k: int| 0 <= k < s.len() && s[k] == 0u8 {
        let k = choose|k: int| 0 <= k < s.len() && s[k] == 0u8 && forall|j: int| 0 <= j < k ==> s[j] != 0u8;
        Some(k as usize)
    } else {
        None
    }
}

/// Returns the place of the first zero byte of `bytes`.
fn find_nul(bytes: &[u8]) -> (r: Option<usize>)
    ensures
        r == first_zero(bytes@),
{
    let mut k: usize = 0;
    while k < bytes.len()
        invariant
            k <= bytes@.len(),
            forall|j: int| 0 <= j < k ==> bytes@[j] != 0u8,
        decreases bytes@.len() - k,
    {
        if bytes[k] == 0u8 {
            assert(forall|k2: int|
                0 <= k2 < bytes@.len() && bytes@[k2] == 0u8 && (forall|j: int|
                    0 <= j < k2 ==> bytes@[j] != 0u8) ==> k2 == k);
            return Some(k);
        }
        k = k + 1;
    }
    None
}

impl Document {
    /// Creates a document holding only its document node. The version
    /// defaults to "1.0". A version that holds a NUL character is refused
    /// with the byte position of that character.
    pub fn new(version: Option<&str>) -> (r: core::result::Result<Document, Error>)
        ensures
            match version {
                Some(v) => match first_zero(v.spec_bytes()) {
                    Some(k) => r == core::result::Result::<Document, Error>::Err(Error::CStr(k)),
                    None => r matches Ok(d) && d@ == empty_doc_model() && d@.wf(),
                },
                None => r matches Ok(d) && d@ == empty_doc_model() && d@.wf(),
            },
    {
        let version_string = match version {
            Some(v) => {
                match find_nul(v.as_bytes()) {
                    Some(k) => {
                        return Err(Error::CStr(k));
                    },
                    None => v.to_owned(),
                }
            },
            None => "1.0".to_owned(),
        };
        let mut nodes: Vec<NodeData> = Vec::new();
        nodes.push(
            NodeData {
                kind: DOCUMENT_CODE,
                name: None,
                content: None,
                parent: None,
                pos: 0,
                children: Vec::new(),
                properties: Vec::new(),
                ns: None,
                ns_def: Vec::new(),
            },
        );
        let d = Document {
            inner: DocumentRef {
                nodes,
                attrs: Vec::new(),
                nss: Vec::new(),
                version: version_string,
            },
        };
        assert(d@.nodes =~= empty_doc_model().nodes);
        assert(d@.attrs =~= empty_doc_model().attrs);
        assert(d@.nss =~= empty_doc_model().nss);
        proof {
            lemma_empty_doc_wf();
        }
        Ok(d)
    }

    /// The document tree.
    pub fn as_doc_ref(&self) -> (r: &DocumentRef)
        ensures
            r@ == self@,
    {
        &self.inner
    }

    /// The document tree, for changes.
    pub fn as_doc_mut(&mut self) -> (r: &mut DocumentRef)
        ensures
            r@ == old(self)@,
            final(self)@ == final(r)@,
    {
        &mut self.inner
    }
}

/// Copies an optional string.
pub(crate) fn own_opt(o: Option<&str>) -> (r: Option<String>)
    ensures
        str_opt(r) == sref_opt(o),
{
    match o {
        Some(s) => Some(s.to_owned()),
        None => None,
    }
}

/// Compares two strings.
pub(crate) fn str_eq(a: &str, b: &str) -> (r: bool)
    ensures
        r == (a@ == b@),
{
    let x = a.to_owned();
    let y = b.to_owned();
    x == y
}

/// Compares two optional strings.
pub(crate) fn opt_string_eq(a: &Option<String>, b: &Option<String>) -> (r: bool)
    ensures
        r == (str_opt(*a) == str_opt(*b)),
{
    match (a, b) {
        (Some(x), Some(y)) => *x == *y,
        (None, None) => true,
        _ => false,
    }
}

impl DocumentRef {
    pub(crate) fn node_kind(&self, i: usize) -> (k: u32)
        requires
            i < self@.nodes.len(),
        ensures
            k == self@.nodes[i as int].kind,
    {
        self.nodes[i].kind
    }

    pub(crate) fn node_name(&self, i: usize) -> (r: &Option<String>)
        requires
            i < self@.nodes.len(),
        ensures
            str_opt(*r) == self@.nodes[i as int].name,
    {
        &self.nodes[i].name
    }

    pub(crate) fn node_content(&self, i: usize) -> (r: &Option<String>)
        requires
            i < self@.nodes.len(),
        ensures
            str_opt(*r) == self@.nodes[i as int].content,
    {
        &self.nodes[i].content
    }

    pub(crate) fn node_parent(&self, i: usize) -> (r: Option<usize>)
        requires
            i < self@.nodes.len(),
        ensures
            r == self@.nodes[i as int].parent,
    {
        self.nodes[i].parent
    }

    pub(crate) fn node_pos(&self, i: usize) -> (r: usize)
        requires
            i < self@.nodes.len(),
        ensures
            r == self@.nodes[i as int].pos,
    {
        self.nodes[i].pos
    }

    pub(crate) fn node_children(&self, i: usize) -> (r: &Vec<usize>)
        requires
            i < self@.nodes.len(),
        ensures
            r@ == self@.nodes[i as int].children,
    {
        &self.nodes[i].children
    }

    pub(crate) fn node_properties(&self, i: usize) -> (r: &Vec<usize>)
        requires
            i < self@.nodes.len(),
        ensures
            r@ == self@.nodes[i as int].properties,
    {
        &self.nodes[i].properties
    }

    pub(crate) fn node_ns(&self, i: usize) -> (r: Option<usize>)
        requires
            i < self@.nodes.len(),
        ensures
            r == self@.nodes[i as int].ns,
    {
        self.nodes[i].ns
    }

    pub(crate) fn node_ns_def(&self, i: usize) -> (r: &Vec<usize>)
        requires
            i < self@.nodes.len(),
        ensures
            r@ == self@.nodes[i as int].ns_def,
    {
        &self.nodes[i].ns_def
    }

    pub(crate) fn attr_name(&self, a: usize) -> (r: &String)
        requires
            a < self@.attrs.len(),
        ensures
            r@ == self@.attrs[a as int].name,
    {
        &self.attrs[a].name
    }

    pub(crate) fn attr_value(&self, a: usize) -> (r: &String)
        requires
            a < self@.attrs.len(),
        ensures
            r@ == self@.attrs[a as int].value,
    {
        &self.attrs[a].value
    }

    pub(crate) fn attr_ns(&self, a: usize) -> (r: Option<usize>)
        requires
            a < self@.attrs.len(),
        ensures
            r == self@.attrs[a as int].ns,
    {
        self.attrs[a].ns
    }

    pub(crate) fn attr_parent(&self, a: usize) -> (r: Option<usize>)
        requires
            a < self@.attrs.len(),
        ensures
            r == self@.attrs[a as int].parent,
    {
        self.attrs[a].parent
    }

    pub(crate) fn attr_pos(&self, a: usize) -> (r: usize)
        requires
            a < self@.attrs.len(),
        ensures
            r == self@.attrs[a as int].pos,
    {
        self.attrs[a].pos
    }

    pub(crate) fn ns_prefix(&self, s: usize) -> (r: &Option<String>)
        requires
            s < self@.nss.len(),
        ensures
            str_opt(*r) == self@.nss[s as int].prefix,
    {
        &self.nss[s].prefix
    }

    pub(crate) fn ns_href(&self, s: usize) -> (r: &Option<String>)
        requires
            s < self@.nss.len(),
        ensures
            str_opt(*r) == self@.nss[s as int].href,
    {
        &self.nss[s].href
    }

    pub(crate) fn ns_owner(&self, s: usize) -> (r: Option<usize>)
        requires
            s < self@.nss.len(),
        ensures
            r == self@.nss[s as int].owner,
    {
        self.nss[s].owner
    }

    pub(crate) fn ns_pos(&self, s: usize) -> (r: usize)
        requires
            s < self@.nss.len(),
        ensures
            r == self@.nss[s as int].pos,
    {
        self.nss[s].pos
    }

    /// Creates a node that belongs to no parent yet, as libxml2's
    /// `xmlNewDocNode` does.
    pub fn new_node(&mut self, kind: NodeType, name: Option<&str>, content: Option<&str>) -> (r: Node)
        requires
            old(self)@.wf(),
            old(self)@.nodes.len() < usize::MAX,
        ensures
            final(self)@.wf(),
            r@ == old(self)@.nodes.len(),
            final(self)@ == old(self)@.with_new_node(
                spec_node_type_code(kind),
                sref_opt(name),
                sref_opt(content),
            ),
    {
        let id = self.nodes.len();
        let ghost m = self@;
        self.nodes.push(
            NodeData {
                kind: kind.to_int(),
                name: own_opt(name),
                content: own_opt(content),
                parent: None,
                pos: 0,
                children: Vec::new(),
                properties: Vec::new(),
                ns: None,
                ns_def: Vec::new(),
            },
        );
        proof {
            let n = m.with_new_node(spec_node_type_code(kind), sref_opt(name), sref_opt(content));
            assert(self@.nodes =~= n.nodes);
            assert(self@.attrs =~= n.attrs);
            assert(self@.nss =~= n.nss);
            lemma_with_new_node_wf(m, spec_node_type_code(kind), sref_opt(name), sref_opt(content));
        }
        Node::from_id(id)
    }

    /// Creates a node and makes it the last child of node `parent`.
    /// Returns the new node's index.
    pub fn new_child(
        &mut self,
        parent: usize,
        kind: NodeType,
        name: Option<&str>,
        content: Option<&str>,
    ) -> (id: usize)
        requires
            old(self)@.wf(),
            parent < old(self)@.nodes.len(),
            old(self)@.nodes.len() < usize::MAX,
            old(self)@.nodes[parent as int].children.len() < usize::MAX,
        ensures
            final(self)@.wf(),
            id == old(self)@.nodes.len(),
            final(self)@ == old(self)@.with_new_child(
                parent as int,
                spec_node_type_code(kind),
                sref_opt(name),
                sref_opt(content),
            ),
    {
        let id = self.nodes.len();
        let ghost m = self@;
        let pos = self.nodes[parent].children.len();
        self.nodes[parent].children.push(id);
        self.nodes.push(
            NodeData {
                kind: kind.to_int(),
                name: own_opt(name),
                content: own_opt(content),
                parent: Some(parent),
                pos,
                children: Vec::new(),
                properties: Vec::new(),
                ns: None,
                ns_def: Vec::new(),
            },
        );
        proof {
            let n = m.with_new_child(
                parent as int,
                spec_node_type_code(kind),
                sref_opt(name),
                sref_opt(content),
            );
            assert(self@.nodes =~= n.nodes);
            assert(self@.attrs =~= n.attrs);
            assert(self@.nss =~= n.nss);
            lemma_with_new_child_wf(
                m,
                parent as int,
                spec_node_type_code(kind),
                sref_opt(name),
                sref_opt(content),
            );
        }
        id
    }

    /// Adds an attribute at the end of element `node`'s attribute list, in the
    /// namespace `ns` if one is given. Returns the attribute's index.
    pub fn new_prop(&mut self, node: usize, ns: Option<usize>, name: &str, value: &str) -> (a: usize)
        requires
            old(self)@.wf(),
            node < old(self)@.nodes.len(),
            old(self)@.attrs.len() < usize::MAX,
            old(self)@.nodes[node as int].properties.len() < usize::MAX,
            ns matches Some(s) ==> s < old(self)@.nss.len(),
            old(self)@.is_element(node as int),
        ensures
            final(self)@.wf(),
            a == old(self)@.attrs.len(),
            final(self)@ == old(self)@.with_new_prop(node as int, ns, name@, value@),
    {
        let a = self.attrs.len();
        let nlen = self.nodes.len();
        let ghost m = self@;
        assert(m.nodes.len() == nlen);
        let pos = self.nodes[node].properties.len();
        self.nodes[node].properties.push(a);
        self.attrs.push(
            AttrData { name: name.to_owned(), value: value.to_owned(), ns, parent: Some(node), pos },
        );
        proof {
            let n = m.with_new_prop(node as int, ns, name@, value@);
            assert(self@.nodes =~= n.nodes);
            assert(self@.attrs =~= n.attrs);
            assert(self@.nss =~= n.nss);
            lemma_with_new_prop_wf(m, node as int, ns, name@, value@);
        }
        a
    }

    /// Declares a namespace on element `node`, after its other declarations,
    /// as libxml2's `xmlNewNs` does. Returns the declaration's index, or
    /// `None`, leaving the document as it was, when `node` already declares
    /// the prefix or the prefix `xml` is bound to the XML namespace, which is
    /// predefined.
    pub fn new_ns(&mut self, node: usize, href: Option<&str>, prefix: Option<&str>) -> (r: Option<
        usize,
    >)
        requires
            old(self)@.wf(),
            node < old(self)@.nodes.len(),
            old(self)@.nss.len() < usize::MAX,
            old(self)@.nodes[node as int].ns_def.len() < usize::MAX,
            old(self)@.is_element(node as int),
        ensures
            final(self)@.wf(),
            r is None <==> old(self)@.ns_refused(node as int, sref_opt(href), sref_opt(prefix)),
            r matches Some(s) ==> s == old(self)@.nss.len() && final(self)@ == old(self)@.with_new_ns(
                node as int,
                sref_opt(href),
                sref_opt(prefix),
            ),
            r is None ==> final(self)@ == old(self)@,
    {
        let ghost m = self@;
        let ghost pf = sref_opt(prefix);
        proof {
            reveal_strlit("xml");
            reveal_strlit("http://www.w3.org/XML/1998/namespace");
        }
        let reserved = match (prefix, href) {
            (Some(p), Some(h)) => str_eq(p, "xml") && str_eq(h, "http://www.w3.org/XML/1998/namespace"),
            _ => false,
        };
        if reserved {
            return None;
        }
        let wanted = own_opt(prefix);
        let k0 = self.nodes[node].ns_def.len();
        let mut k: usize = 0;
        while k < k0
            invariant
                m == self@,
                m == old(self)@,
                pf == sref_opt(prefix),
                m.wf(),
                node < m.nodes.len(),
                m.is_element(node as int),
                k0 == m.nodes[node as int].ns_def.len(),
                self.nodes@.len() == m.nodes.len(),
                k <= k0,
                str_opt(wanted) == pf,
                forall|j: int| 0 <= j < k ==> m.nss[m.declared_here(node as int)[j] as int].prefix != pf,
            decreases k0 - k,
        {
            let d = self.nodes[node].ns_def[k];
            proof {
                assert(self.nodes@[node as int]@ == m.nodes[node as int]);
                assert(m.ns_def_link_ok(node as int, k as int));
                assert(self.nss@[d as int]@ == m.nss[d as int]);
            }
            if opt_string_eq(&self.nss[d].prefix, &wanted) {
                proof {
                    assert(m.declared_here(node as int) == m.nodes[node as int].ns_def);
                    assert(m.nss[m.declared_here(node as int)[k as int] as int].prefix == pf);
                    assert(m.declares_prefix(node as int, pf));
                }
                return None;
            }
            k = k + 1;
        }
        let s = self.nss.len();
        let nlen = self.nodes.len();
        assert(m.nodes.len() == nlen);
        let pos = self.nodes[node].ns_def.len();
        self.nodes[node].ns_def.push(s);
        self.nss.push(NsData { prefix: wanted, href: own_opt(href), owner: Some(node), pos });
        proof {
            let n = m.with_new_ns(node as int, sref_opt(href), sref_opt(prefix));
            assert(self@.nodes =~= n.nodes);
            assert(self@.attrs =~= n.attrs);
            assert(self@.nss =~= n.nss);
            lemma_with_new_ns_wf(m, node as int, sref_opt(href), sref_opt(prefix));
        }
        Some(s)
    }

    /// Sets the namespace of node `node`.
    pub fn set_ns(&mut self, node: usize, ns: Option<usize>)
        requires
            old(self)@.wf(),
            node < old(self)@.nodes.len(),
            ns matches Some(s) ==> s < old(self)@.nss.len(),
        ensures
            final(self)@.wf(),
            final(self)@ == old(self)@.with_node_ns(node as int, ns),
    {
        let ghost m = self@;
        self.nodes[node].ns = ns;
        proof {
            let n = m.with_node_ns(node as int, ns);
            assert(self@.nodes =~= n.nodes);
            assert(self@.attrs =~= n.attrs);
            assert(self@.nss =~= n.nss);
            lemma_with_node_ns_wf(m, node as int, ns);
        }
    }
}

impl DocumentRef {
    /// The node with index `id`, if the document has one.
    pub fn get_node(&self, id: usize) -> (r: Option<NodeRef<'_>>)
        requires
            self@.wf(),
        ensures
            r is Some <==> id < self@.nodes.len(),
            r matches Some(n) ==> n@ == (self@, id),
            opt_in(r, self@),
    {
        if id < self.nodes.len() {
            Some(NodeRef::new(self, id))
        } else {
            None
        }
    }

    /// Get the root element of the document
    pub fn get_root_element(&self) -> (r: Option<NodeRef<'_>>)
        requires
            self@.wf(),
        ensures
            opt_id(r) == self@.root_element(),
            opt_in(r, self@),
    {
        NodeRef::new(self, 0).get_first_element_child()
    }

    /// Get the root element of the document
    pub fn get_root_element_mut(&mut self) -> (r: Option<NodeRef<'_>>)
        requires
            old(self)@.wf(),
        ensures
            opt_id(r) == old(self)@.root_element(),
            opt_in(r, old(self)@),
    {
        NodeRef::new(self, 0).get_first_element_child()
    }

    /// Set the root element of the document. Returns the previous root element.
    /// The node must not be an attribute node, which libxml2 links only
    /// halfway. A text node that would follow a text node of the same name
    /// at the end of the document is merged into it instead.
    pub fn set_root_element(&mut self, root: Node) -> (r: core::result::Result<Option<Node>, Error>)
        requires
            old(self)@.wf(),
            old(self)@.detached(root@ as int),
            old(self)@.nodes[root@ as int].kind != ATTRIBUTE_CODE,
            old(self)@.nodes[0].children.len() < usize::MAX,
        ensures
            final(self)@.wf(),
            final(self)@ == old(self)@.with_root_set(root@ as int),
            r matches Ok(o) && match o {
                Some(n) => old(self)@.replaced_root(root@ as int) == Some(n@),
                None => old(self)@.replaced_root(root@ as int) is None,
            },
    {
        let ghost m = self@;
        let r = root.node_ptr();
        let nlen = self.nodes.len();
        proof {
            assert(m.nodes.len() == nlen);
            lemma_with_root_set_wf(m, r as int);
        }
        if self.nodes[r].kind == NAMESPACE_DECL_CODE {
            return Ok(None);
        }
        let old_root = match self.get_root_element() {
            Some(n) => Some(n.as_ptr()),
            None => None,
        };
        match old_root {
            None => {
                let pos = self.nodes[0].children.len();
                if pos > 0 && self.nodes[r].kind == TEXT_CODE {
                    let last = self.nodes[0].children[pos - 1];
                    proof {
                        assert(m.child_link_ok(0, pos - 1));
                    }
                    if self.nodes[last].kind == TEXT_CODE && opt_string_eq(
                        &self.nodes[last].name,
                        &self.nodes[r].name,
                    ) {
                        let merged = match &self.nodes[r].content {
                            Some(c) => if c.as_str().unicode_len() > 0 {
                                let mut t = match &self.nodes[last].content {
                                    Some(x) => x.clone(),
                                    None => String::new(),
                                };
                                t.append(c.as_str());
                                Some(t)
                            } else {
                                self.nodes[last].content.clone()
                            },
                            None => self.nodes[last].content.clone(),
                        };
                        self.nodes[last].content = merged;
                        proof {
                            let n = m.with_root_set(r as int);
                            assert(m.root_text_merges(r as int));
                            assert(self@.nodes =~= n.nodes);
                            assert(self@.attrs =~= n.attrs);
                            assert(self@.nss =~= n.nss);
                        }
                        return Ok(None);
                    }
                }
                self.nodes[0].children.push(r);
                self.nodes[r].parent = Some(0);
                self.nodes[r].pos = pos;
                proof {
                    let n = m.with_root_set(r as int);
                    assert(self@.nodes =~= n.nodes);
                    assert(self@.attrs =~= n.attrs);
                    assert(self@.nss =~= n.nss);
                }
                Ok(None)
            },
            Some(o) => {
                proof {
                    lemma_root_element_child(m);
                }
                let op = self.nodes[o].pos;
                self.nodes[0].children.set(op, r);
                self.nodes[r].parent = Some(0);
                self.nodes[r].pos = op;
                self.nodes[o].parent = None;
                self.nodes[o].pos = 0;
                proof {
                    let n = m.with_root_set(r as int);
                    assert(self@.nodes =~= n.nodes);
                    assert(self@.attrs =~= n.attrs);
                    assert(self@.nss =~= n.nss);
                }
                Ok(Some(Node::from_id(o)))
            },
        }
    }

    /// Unlinks attribute `attr` from its element and hands it back.
    pub fn unlink_attr(&mut self, attr: usize) -> (r: Attr)
        requires
            old(self)@.wf(),
            attr < old(self)@.attrs.len(),
        ensures
            final(self)@.wf(),
            final(self)@ == old(self)@.with_attr_unlinked(attr as int),
            r@ == attr,
    {
        let ghost m = self@;
        let alen = self.attrs.len();
        let nlen = self.nodes.len();
        proof {
            assert(m.attrs.len() == alen);
            assert(m.nodes.len() == nlen);
            lemma_with_attr_unlinked_wf(m, attr as int);
            assert(m.attr_link_ok(attr as int));
        }
        match self.attrs[attr].parent {
            None => {},
            Some(p) => {
                let pos = self.attrs[attr].pos;
                let ghost old_props = m.nodes[p as int].properties;
                self.nodes[p].properties.remove(pos);
                let n = self.nodes[p].properties.len();
                let mut k: usize = pos;
                proof {
                    assert(self@.attrs =~= m.attrs_shifted(p, pos, pos as int));
                }
                while k < n
                    invariant
                        m.wf(),
                        p < m.nodes.len(),
                        m.attrs[attr as int].parent == Some(p),
                        m.attrs[attr as int].pos == pos,
                        old_props == m.nodes[p as int].properties,
                        pos < old_props.len(),
                        old_props[pos as int] == attr,
                        n == old_props.len() - 1,
                        pos <= k <= n,
                        self@.nodes == m.nodes.update(
                            p as int,
                            NodeModel { properties: old_props.remove(pos as int), ..m.nodes[p as int] },
                        ),
                        self@.nss == m.nss,
                        self@.attrs == m.attrs_shifted(p, pos, k as int),
                        self.nodes@.len() == m.nodes.len(),
                        self.nodes@[p as int].properties@ == old_props.remove(pos as int),
                        self.attrs@.len() == m.attrs.len(),
                        m.attrs.len() <= usize::MAX,
                    decreases n - k,
                {
                    let b = self.nodes[p].properties[k];
                    proof {
                        assert(b == old_props[k + 1]);
                        assert(m.prop_link_ok(p as int, k + 1));
                    }
                    let ghost before = self@.attrs;
                    self.attrs[b].pos = k;
                    proof {
                        assert(self@.attrs =~= before.update(
                            b as int,
                            AttrModel { pos: k, ..before[b as int] },
                        ));
                        let target = m.attrs_shifted(p, pos, k + 1);
                        assert forall|x: int| 0 <= x < target.len() implies self@.attrs[x]
                            == target[x] by {
                            if x != b as int {
                                assert(m.attr_link_ok(x));
                                if m.attrs[x].parent == Some(p) && m.attrs[x].pos == k + 1 {
                                    assert(old_props[k + 1] == x as usize);
                                }
                            }
                        }
                        assert(self@.attrs =~= target);
                    }
                    k = k + 1;
                }
                proof {
                    assert(m.attrs_shifted(p, pos, k as int) =~= m.attrs_shifted(
                        p,
                        pos,
                        old_props.len() as int,
                    )) by {
                        assert forall|x: int|
                            0 <= x < m.attrs.len() && m.attrs[x].parent == Some(p) implies m.attrs[x].pos
                            < old_props.len() by {
                            assert(m.attr_link_ok(x));
                        }
                    }
                }
                let ghost prev = self@.attrs;
                self.attrs[attr].parent = None;
                self.attrs[attr].pos = 0;
                proof {
                    assert(self@.attrs =~= prev.update(
                        attr as int,
                        AttrModel { parent: None, pos: 0, ..prev[attr as int] },
                    ));
                    let t = m.with_attr_unlinked(attr as int);
                    assert(self@.nodes =~= t.nodes);
                    assert(self@.attrs =~= t.attrs);
                    assert(self@.nss =~= t.nss);
                }
            },
        }
        Attr::from_id(attr)
    }
}

/// Removes the namespaces of the subtree of node `node`: every element and
/// attribute node there loses its namespace, every element and XInclude
/// marker there drops its namespace declarations, and every attribute of an
/// element there loses its namespace.
#[allow(non_snake_case)]
pub fn xmlNodeRecursivelyRemoveNs(doc: &mut DocumentRef, node: usize)
    requires
        old(doc)@.wf(),
        node < old(doc)@.nodes.len(),
    ensures
        final(doc)@.wf(),
        final(doc)@ == old(doc)@.ns_removed_below(node as int),
{
    let ghost m = doc@;
    let ghost target = m.ns_removed_below(node as int);
    let n = doc.nodes.len();
    proof {
        assert(m.nodes.len() == n);
        lemma_ns_removed_below_wf(m, node as int);
    }
    // Which nodes lie in the subtree: a node does when it is `node` or its
    // parent, which comes before it, does.
    let mut inside: Vec<bool> = Vec::new();
    let mut c: usize = 0;
    while c < n
        invariant
            n == m.nodes.len(),
            doc@ == m,
            m.wf(),
            c <= n,
            inside@.len() == c,
            forall|x: int| 0 <= x < c ==> inside@[x] == m.in_subtree(x, node as int),
        decreases n - c,
    {
        let here = if c == node {
            true
        } else {
            match doc.nodes[c].parent {
                Some(p) => p < c && inside[p],
                None => false,
            }
        };
        proof {
            assert(doc.nodes@[c as int]@ == m.nodes[c as int]);
        }
        inside.push(here);
        c = c + 1;
    }
    c = 0;
    while c < n
        invariant
            n == m.nodes.len(),
            inside@.len() == n,
            forall|x: int| 0 <= x < n ==> inside@[x] == m.in_subtree(x, node as int),
            c <= n,
            doc.nodes@.len() == n,
            target == m.ns_removed_below(node as int),
            forall|x: int| 0 <= x < c ==> (#[trigger] doc.nodes@[x])@ == target.nodes[x],
            forall|x: int| c <= x < n ==> (#[trigger] doc.nodes@[x])@ == m.nodes[x],
            doc@.attrs == m.attrs,
            doc@.nss == m.nss,
        decreases n - c,
    {
        let ghost before = doc.nodes@[c as int]@;
        if inside[c] {
            let kind = doc.nodes[c].kind;
            if kind == ELEMENT_CODE || kind == ATTRIBUTE_CODE {
                doc.nodes[c].ns = None;
            }
            if kind == ELEMENT_CODE || kind == XINCLUDE_START_CODE || kind == XINCLUDE_END_CODE {
                doc.nodes[c].ns_def = Vec::new();
            }
        }
        proof {
            let after = doc.nodes@[c as int]@;
            let t = target.nodes[c as int];
            assert(before == m.nodes[c as int]);
            assert(t == m.node_without_ns(c as int, node as int));
            assert(after.ns_def =~= t.ns_def);
            assert(after.children =~= t.children);
            assert(after.properties =~= t.properties);
            assert(after == t);
        }
        c = c + 1;
    }
    proof {
        assert(doc@.nodes =~= target.nodes);
    }
    let na = doc.attrs.len();
    let mut a: usize = 0;
    while a < na
        invariant
            n == m.nodes.len(),
            na == m.attrs.len(),
            m.wf(),
            inside@.len() == n,
            forall|x: int| 0 <= x < n ==> inside@[x] == m.in_subtree(x, node as int),
            a <= na,
            doc@.nodes == target.nodes,
            doc.nodes@.len() == n,
            target == m.ns_removed_below(node as int),
            doc.attrs@.len() == na,
            forall|x: int| 0 <= x < a ==> (#[trigger] doc.attrs@[x])@ == target.attrs[x],
            forall|x: int| a <= x < na ==> (#[trigger] doc.attrs@[x])@ == m.attrs[x],
            doc@.nss == m.nss,
        decreases na - a,
    {
        proof {
            assert(doc.attrs@[a as int]@ == m.attrs[a as int]);
            assert(m.attr_link_ok(a as int));
        }
        match doc.attrs[a].parent {
            Some(p) => {
                proof {
                    assert(doc@.nodes[p as int] == target.nodes[p as int]);
                }
                if inside[p] && doc.nodes[p].kind == ELEMENT_CODE {
                    doc.attrs[a].ns = None;
                }
            },
            None => {},
        }
        proof {
            assert(target.attrs[a as int] == m.attr_without_ns(a as int, node as int));
            assert(doc.attrs@[a as int]@ == target.attrs[a as int]);
        }
        a = a + 1;
    }
    proof {
        assert(doc@.attrs =~= target.attrs);
    }
    let ns_count = doc.nss.len();
    let mut s: usize = 0;
    while s < ns_count
        invariant
            n == m.nodes.len(),
            ns_count == m.nss.len(),
            m.wf(),
            inside@.len() == n,
            forall|x: int| 0 <= x < n ==> inside@[x] == m.in_subtree(x, node as int),
            s <= ns_count,
            doc@.nodes == target.nodes,
            doc@.attrs == target.attrs,
            doc.nodes@.len() == n,
            target == m.ns_removed_below(node as int),
            doc.nss@.len() == ns_count,
            forall|x: int| 0 <= x < s ==> (#[trigger] doc.nss@[x])@ == target.nss[x],
            forall|x: int| s <= x < ns_count ==> (#[trigger] doc.nss@[x])@ == m.nss[x],
        decreases ns_count - s,
    {
        proof {
            assert(doc.nss@[s as int]@ == m.nss[s as int]);
            assert(m.ns_link_ok(s as int));
        }
        match doc.nss[s].owner {
            Some(o) => {
                proof {
                    assert(doc@.nodes[o as int] == target.nodes[o as int]);
                }
                let kind = doc.nodes[o].kind;
                if inside[o] && (kind == ELEMENT_CODE || kind == XINCLUDE_START_CODE || kind
                    == XINCLUDE_END_CODE) {
                    doc.nss[s].owner = None;
                    doc.nss[s].pos = 0;
                }
            },
            None => {},
        }
        proof {
            assert(target.nss[s as int] == m.decl_without_ns(s as int, node as int));
            assert(doc.nss@[s as int]@ == target.nss[s as int]);
        }
        s = s + 1;
    }
    proof {
        assert(doc@.nss =~= target.nss);
    }
}

} // verus!
