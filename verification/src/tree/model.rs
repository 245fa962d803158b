use vstd::prelude::*;

verus! {

/// libxml2's number for element nodes.
pub const ELEMENT_CODE: u32 = 1;

/// libxml2's number for text nodes.
pub const TEXT_CODE: u32 = 3;

/// libxml2's number for attribute nodes.
pub const ATTRIBUTE_CODE: u32 = 2;

/// libxml2's number for CDATA section nodes.
pub const CDATA_CODE: u32 = 4;

/// libxml2's number for processing instructions.
pub const PI_CODE: u32 = 7;

/// libxml2's number for comments.
pub const COMMENT_CODE: u32 = 8;

/// libxml2's number for document fragments.
pub const DOCUMENT_FRAG_CODE: u32 = 11;

/// libxml2's number for entity reference nodes.
pub const ENTITY_REF_CODE: u32 = 5;

/// libxml2's number for entity nodes.
pub const ENTITY_CODE: u32 = 6;

/// libxml2's number for entity declarations.
pub const ENTITY_DECL_CODE: u32 = 17;

/// libxml2's number for namespace declarations.
pub const NAMESPACE_DECL_CODE: u32 = 18;

/// libxml2's number for the node of an XML document.
pub const DOCUMENT_CODE: u32 = 9;

/// libxml2's number for the node of an HTML document.
pub const HTML_DOCUMENT_CODE: u32 = 13;

/// libxml2's number for the marker that starts an XInclude section.
pub const XINCLUDE_START_CODE: u32 = 19;

/// libxml2's number for the marker that ends an XInclude section.
pub const XINCLUDE_END_CODE: u32 = 20;

/// What a node of the tree holds.
pub struct NodeModel {
    /// The node's type, as libxml2 numbers it.
    pub kind: u32,
    pub name: Option<Seq<char>>,
    pub content: Option<Seq<char>>,
    pub parent: Option<usize>,
    /// The node's place among its parent's children.
    pub pos: usize,
    pub children: Seq<usize>,
    /// The attributes of the node, in order.
    pub properties: Seq<usize>,
    /// The namespace of the node, if it has one.
    pub ns: Option<usize>,
    /// The namespaces declared on the node, in order.
    pub ns_def: Seq<usize>,
}

/// What an attribute holds.
pub struct AttrModel {
    pub name: Seq<char>,
    pub value: Seq<char>,
    pub ns: Option<usize>,
    /// The element the attribute belongs to; `None` once it is unlinked.
    pub parent: Option<usize>,
    /// The attribute's place in its element's attribute list.
    pub pos: usize,
}

/// What a namespace declaration holds.
pub struct NsModel {
    pub prefix: Option<Seq<char>>,
    pub href: Option<Seq<char>>,
    /// The node that declares the namespace.
    pub owner: Option<usize>,
    /// The declaration's place in its owner's list of declarations.
    pub pos: usize,
}

/// A document: nodes, attributes and namespace declarations, each named by
/// its index. Node 0 is the document node itself.
pub struct DocModel {
    pub nodes: Seq<NodeModel>,
    pub attrs: Seq<AttrModel>,
    pub nss: Seq<NsModel>,
}

/// The first element of a sequence, if there is one.
pub open spec fn head_opt(s: Seq<usize>) -> Option<usize> {
    if s.len() > 0 {
        Some(s[0])
    } else {
        None
    }
}

/// A `String` option seen as an option of character sequences.
pub open spec fn str_opt(o: Option<String>) -> Option<Seq<char>> {
    match o {
        Some(s) => Some(s@),
        None => None,
    }
}

/// Which namespace an attribute looked up by name must have.
pub enum NsQuery {
    /// Any namespace, or none.
    Any,
    /// No namespace.
    NoNs,
    /// A namespace with this URI.
    Href(Seq<char>),
}

/// The string holds a NUL character, which no C string can carry.
pub open spec fn has_nul(s: Seq<char>) -> bool {
    s.contains('\0')
}

/// A `&str` option seen as an option of character sequences.
pub open spec fn sref_opt(o: Option<&str>) -> Option<Seq<char>> {
    match o {
        Some(s) => Some(s@),
        None => None,
    }
}

impl DocModel {
    /// The `k`-th child of node `i` is a later node whose parent link points back.
    pub open spec fn child_link_ok(self, i: int, k: int) -> bool {
        let c = self.nodes[i].children[k] as int;
        &&& i < c < self.nodes.len()
        &&& self.nodes[c].parent == Some(i as usize)
        &&& self.nodes[c].pos == k
    }

    /// The parent link of node `c`, if any, points to a node that lists `c`.
    pub open spec fn parent_link_ok(self, c: int) -> bool {
        match self.nodes[c].parent {
            Some(p) => {
                &&& p < self.nodes.len()
                &&& self.nodes[c].pos < self.nodes[p as int].children.len()
                &&& self.nodes[p as int].children[self.nodes[c].pos as int] == c as usize
            },
            None => true,
        }
    }

    pub open spec fn prop_link_ok(self, i: int, k: int) -> bool {
        let a = self.nodes[i].properties[k] as int;
        &&& 0 <= a < self.attrs.len()
        &&& self.attrs[a].parent == Some(i as usize)
        &&& self.attrs[a].pos == k
    }

    pub open spec fn attr_link_ok(self, a: int) -> bool {
        &&& match self.attrs[a].parent {
            Some(p) => {
                &&& p < self.nodes.len()
                &&& self.attrs[a].pos < self.nodes[p as int].properties.len()
                &&& self.nodes[p as int].properties[self.attrs[a].pos as int] == a as usize
            },
            None => true,
        }
        &&& match self.attrs[a].ns {
            Some(s) => s < self.nss.len(),
            None => true,
        }
    }

    pub open spec fn ns_def_link_ok(self, i: int, k: int) -> bool {
        let s = self.nodes[i].ns_def[k] as int;
        &&& 0 <= s < self.nss.len()
        &&& self.nss[s].owner == Some(i as usize)
        &&& self.nss[s].pos == k
    }

    pub open spec fn ns_link_ok(self, s: int) -> bool {
        match self.nss[s].owner {
            Some(p) => {
                &&& p < self.nodes.len()
                &&& self.nss[s].pos < self.nodes[p as int].ns_def.len()
                &&& self.nodes[p as int].ns_def[self.nss[s].pos as int] == s as usize
            },
            None => true,
        }
    }

    pub open spec fn node_ns_ok(self, i: int) -> bool {
        match self.nodes[i].ns {
            Some(s) => s < self.nss.len(),
            None => true,
        }
    }

    /// Only elements hold attributes or namespace declarations.
    pub open spec fn holder_ok(self, i: int) -> bool {
        (self.nodes[i].properties.len() > 0 || self.nodes[i].ns_def.len() > 0) ==> self.nodes[i].kind
            == ELEMENT_CODE
    }

    /// The namespace declarations of node `c` have distinct prefixes.
    pub open spec fn decl_prefixes_distinct(self, c: int) -> bool {
        forall|j: int, k: int|
            0 <= j < k < self.nodes[c].ns_def.len() ==> self.nss[#[trigger] self.nodes[c].ns_def[j] as int].prefix
                != self.nss[#[trigger] self.nodes[c].ns_def[k] as int].prefix
    }

    /// The links of the document agree with each other: every child lists
    /// its parent and every parent its children (likewise for attributes and
    /// namespace declarations), children come after their parents, and node
    /// 0 is a document node without a parent.
    pub open spec fn wf(self) -> bool {
        &&& self.nodes.len() >= 1
        &&& self.nodes[0].parent is None
        &&& (self.nodes[0].kind == DOCUMENT_CODE || self.nodes[0].kind == HTML_DOCUMENT_CODE)
        &&& forall|i: int, k: int|
            0 <= i < self.nodes.len() && 0 <= k < self.nodes[i].children.len()
                ==> #[trigger] self.child_link_ok(i, k)
        &&& forall|c: int| 0 <= c < self.nodes.len() ==> #[trigger] self.parent_link_ok(c)
        &&& forall|i: int, k: int|
            0 <= i < self.nodes.len() && 0 <= k < self.nodes[i].properties.len()
                ==> #[trigger] self.prop_link_ok(i, k)
        &&& forall|a: int| 0 <= a < self.attrs.len() ==> #[trigger] self.attr_link_ok(a)
        &&& forall|i: int, k: int|
            0 <= i < self.nodes.len() && 0 <= k < self.nodes[i].ns_def.len()
                ==> #[trigger] self.ns_def_link_ok(i, k)
        &&& forall|s: int| 0 <= s < self.nss.len() ==> #[trigger] self.ns_link_ok(s)
        &&& forall|i: int| 0 <= i < self.nodes.len() ==> #[trigger] self.node_ns_ok(i)
        &&& forall|i: int| 0 <= i < self.nodes.len() ==> #[trigger] self.holder_ok(i)
        &&& forall|c: int| 0 <= c < self.nodes.len() ==> #[trigger] self.decl_prefixes_distinct(c)
    }

    pub open spec fn kind(self, i: int) -> u32 {
        self.nodes[i].kind
    }

    pub open spec fn is_element(self, i: int) -> bool {
        self.nodes[i].kind == ELEMENT_CODE
    }

    pub open spec fn is_text(self, i: int) -> bool {
        self.nodes[i].kind == TEXT_CODE
    }

    /// Holds of the indices of element nodes.
    pub open spec fn element_pred(self) -> spec_fn(usize) -> bool {
        |c: usize| self.nodes[c as int].kind == ELEMENT_CODE
    }

    /// The elements of `s`, in order.
    pub open spec fn elements_of(self, s: Seq<usize>) -> Seq<usize> {
        s.filter(self.element_pred())
    }

    /// The children of node `i`, in order.
    pub open spec fn child_nodes(self, i: int) -> Seq<usize> {
        self.nodes[i].children
    }

    /// The children of node `i` that are elements, in order.
    pub open spec fn child_elements(self, i: int) -> Seq<usize> {
        self.elements_of(self.nodes[i].children)
    }

    pub open spec fn parent_of(self, i: int) -> Option<usize> {
        self.nodes[i].parent
    }

    pub open spec fn first_child(self, i: int) -> Option<usize> {
        head_opt(self.nodes[i].children)
    }

    pub open spec fn last_child(self, i: int) -> Option<usize> {
        head_opt(self.nodes[i].children.reverse())
    }

    /// The siblings after node `i`, nearest first.
    pub open spec fn following_siblings(self, i: int) -> Seq<usize> {
        match self.nodes[i].parent {
            Some(p) => {
                let sibs = self.nodes[p as int].children;
                sibs.subrange(self.nodes[i].pos + 1, sibs.len() as int)
            },
            None => Seq::empty(),
        }
    }

    /// The siblings before node `i`, nearest first.
    pub open spec fn preceding_siblings(self, i: int) -> Seq<usize> {
        match self.nodes[i].parent {
            Some(p) => self.nodes[p as int].children.subrange(0, self.nodes[i].pos as int).reverse(),
            None => Seq::empty(),
        }
    }

    pub open spec fn next_sibling(self, i: int) -> Option<usize> {
        head_opt(self.following_siblings(i))
    }

    pub open spec fn prev_sibling(self, i: int) -> Option<usize> {
        head_opt(self.preceding_siblings(i))
    }

    pub open spec fn next_element_sibling(self, i: int) -> Option<usize> {
        head_opt(self.elements_of(self.following_siblings(i)))
    }

    pub open spec fn prev_element_sibling(self, i: int) -> Option<usize> {
        head_opt(self.elements_of(self.preceding_siblings(i)))
    }

    pub open spec fn first_element_child(self, i: int) -> Option<usize> {
        head_opt(self.child_elements(i))
    }

    /// Found by walking back from the last child.
    pub open spec fn last_element_child(self, i: int) -> Option<usize> {
        head_opt(self.elements_of(self.nodes[i].children.reverse()))
    }

    /// Node `i` is a node without a parent, other than the document node.
    pub open spec fn detached(self, i: int) -> bool {
        &&& 0 < i < self.nodes.len()
        &&& self.nodes[i].parent is None
    }
}

impl DocModel {
    /// The node that a new node appended to the document would be.
    pub open spec fn fresh_node(
        parent: Option<usize>,
        pos: int,
        kind: u32,
        name: Option<Seq<char>>,
        content: Option<Seq<char>>,
    ) -> NodeModel {
        NodeModel {
            kind,
            name,
            content,
            parent,
            pos: pos as usize,
            children: Seq::empty(),
            properties: Seq::empty(),
            ns: None,
            ns_def: Seq::empty(),
        }
    }

    /// The document with a new node, without a parent, added at the end.
    pub open spec fn with_new_node(
        self,
        kind: u32,
        name: Option<Seq<char>>,
        content: Option<Seq<char>>,
    ) -> DocModel {
        DocModel {
            nodes: self.nodes.push(Self::fresh_node(None, 0, kind, name, content)),
            ..self
        }
    }

    /// The document with a new node added at the end and made the last
    /// child of node `p`.
    pub open spec fn with_new_child(
        self,
        p: int,
        kind: u32,
        name: Option<Seq<char>>,
        content: Option<Seq<char>>,
    ) -> DocModel {
        let id = self.nodes.len() as usize;
        let pn = self.nodes[p];
        DocModel {
            nodes: self.nodes.update(p, NodeModel { children: pn.children.push(id), ..pn }).push(
                Self::fresh_node(Some(p as usize), pn.children.len() as int, kind, name, content),
            ),
            ..self
        }
    }

    /// The document with a new attribute added at the end of node `p`'s
    /// attribute list.
    pub open spec fn with_new_prop(
        self,
        p: int,
        ns: Option<usize>,
        name: Seq<char>,
        value: Seq<char>,
    ) -> DocModel {
        let a = self.attrs.len() as usize;
        let pn = self.nodes[p];
        DocModel {
            nodes: self.nodes.update(p, NodeModel { properties: pn.properties.push(a), ..pn }),
            attrs: self.attrs.push(
                AttrModel {
                    name,
                    value,
                    ns,
                    parent: Some(p as usize),
                    pos: pn.properties.len() as usize,
                },
            ),
            ..self
        }
    }

    /// The document with a new namespace declaration added at the end of
    /// node `p`'s declarations.
    pub open spec fn with_new_ns(
        self,
        p: int,
        href: Option<Seq<char>>,
        prefix: Option<Seq<char>>,
    ) -> DocModel {
        let s = self.nss.len() as usize;
        let pn = self.nodes[p];
        DocModel {
            nodes: self.nodes.update(p, NodeModel { ns_def: pn.ns_def.push(s), ..pn }),
            nss: self.nss.push(
                NsModel { prefix, href, owner: Some(p as usize), pos: pn.ns_def.len() as usize },
            ),
            ..self
        }
    }

    /// Declaring a namespace on element `p` is refused, as libxml2's
    /// `xmlNewNs` refuses it, when it binds the prefix `xml` to the XML
    /// namespace, which is predefined, or when `p` already declares the
    /// prefix.
    pub open spec fn ns_refused(self, p: int, href: Option<Seq<char>>, prefix: Option<Seq<char>>) -> bool {
        ||| (prefix == Some(xml_prefix()) && href == Some(xml_ns_uri()))
        ||| self.declares_prefix(p, prefix)
    }

    /// The document with node `i`'s namespace set to `ns`.
    pub open spec fn with_node_ns(self, i: int, ns: Option<usize>) -> DocModel {
        DocModel { nodes: self.nodes.update(i, NodeModel { ns, ..self.nodes[i] }), ..self }
    }
}

impl DocModel {
    /// Attribute `a` has name `name` and a namespace that `q` accepts.
    pub open spec fn attr_matches(self, a: usize, name: Seq<char>, q: NsQuery) -> bool {
        &&& self.attrs[a as int].name == name
        &&& match q {
            NsQuery::Any => true,
            NsQuery::NoNs => self.attrs[a as int].ns is None,
            NsQuery::Href(h) => match self.attrs[a as int].ns {
                Some(s) => self.nss[s as int].href == Some(h),
                None => false,
            },
        }
    }

    pub open spec fn attr_pred(self, name: Seq<char>, q: NsQuery) -> spec_fn(usize) -> bool {
        |a: usize| self.attr_matches(a, name, q)
    }

    /// The first attribute of node `i` with name `name` whose namespace `q`
    /// accepts; only elements have attributes to find.
    pub open spec fn find_attr(self, i: int, name: Seq<char>, q: NsQuery) -> Option<usize> {
        if self.is_element(i) {
            head_opt(self.nodes[i].properties.filter(self.attr_pred(name, q)))
        } else {
            None
        }
    }

    /// The value of an attribute, if there is one.
    pub open spec fn attr_value_of(self, a: Option<usize>) -> Option<Seq<char>> {
        match a {
            Some(x) => Some(self.attrs[x as int].value),
            None => None,
        }
    }

    /// The attribute after attribute `a` in its element's list.
    pub open spec fn next_attr(self, a: int) -> Option<usize> {
        match self.attrs[a].parent {
            Some(p) => {
                let props = self.nodes[p as int].properties;
                if self.attrs[a].pos + 1 < props.len() {
                    Some(props[self.attrs[a].pos + 1])
                } else {
                    None
                }
            },
            None => None,
        }
    }

    /// The declaration after declaration `s` on its owner.
    pub open spec fn next_ns(self, s: int) -> Option<usize> {
        match self.nss[s].owner {
            Some(p) => {
                let defs = self.nodes[p as int].ns_def;
                if self.nss[s].pos + 1 < defs.len() {
                    Some(defs[self.nss[s].pos + 1])
                } else {
                    None
                }
            },
            None => None,
        }
    }
}

/// The key under which an attribute is collected: its name and, when
/// namespaces count, the prefix and URI of its namespace.
pub type AttrKey = (Seq<char>, Option<(Option<Seq<char>>, Option<Seq<char>>)>);

impl DocModel {
    pub open spec fn attr_key(self, a: usize, by_ns: bool) -> AttrKey {
        let name = self.attrs[a as int].name;
        if by_ns {
            match self.attrs[a as int].ns {
                Some(s) => (name, Some((self.nss[s as int].prefix, self.nss[s as int].href))),
                None => (name, None),
            }
        } else {
            (name, None)
        }
    }

    /// The keys of the attributes of `v`.
    pub open spec fn keys_of(self, v: Seq<usize>, by_ns: bool) -> Seq<AttrKey> {
        v.map_values(|a: usize| self.attr_key(a, by_ns))
    }

    /// The attributes of `props` whose key no earlier attribute has, in order.
    pub open spec fn first_occurrences(self, props: Seq<usize>, by_ns: bool) -> Seq<usize>
        decreases props.len(),
    {
        if props.len() == 0 {
            Seq::empty()
        } else {
            let d = self.first_occurrences(props.drop_last(), by_ns);
            if self.keys_of(d, by_ns).contains(self.attr_key(props.last(), by_ns)) {
                d
            } else {
                d.push(props.last())
            }
        }
    }

    /// The value collected for attribute `a` of node `i` when namespaces do
    /// not count: the value of the first attribute with its name.
    pub open spec fn collected_value(self, i: int, a: usize) -> Option<Seq<char>> {
        self.attr_value_of(self.find_attr(i, self.attrs[a as int].name, NsQuery::Any))
    }

    /// The value collected for attribute `a` of node `i` when namespaces
    /// count: the value of the first attribute with its name in its
    /// namespace's URI (the empty URI when the namespace has none), or with
    /// no namespace when `a` has none.
    pub open spec fn collected_value_ns(self, i: int, a: usize) -> Option<Seq<char>> {
        let name = self.attrs[a as int].name;
        match self.attrs[a as int].ns {
            Some(s) => {
                let href = match self.nss[s as int].href {
                    Some(h) => h,
                    None => Seq::empty(),
                };
                self.attr_value_of(self.find_attr(i, name, NsQuery::Href(href)))
            },
            None => self.attr_value_of(self.find_attr(i, name, NsQuery::NoNs)),
        }
    }
}

/// The URI bound to the prefix `xml` in every document.
pub open spec fn xml_ns_uri() -> Seq<char> {
    "http://www.w3.org/XML/1998/namespace"@
}

/// The prefix bound to the XML namespace in every document.
pub open spec fn xml_prefix() -> Seq<char> {
    "xml"@
}

impl DocModel {
    /// The namespaces declared on node `c`; only elements declare any.
    pub open spec fn declared_here(self, c: int) -> Seq<usize> {
        if self.is_element(c) {
            self.nodes[c].ns_def
        } else {
            Seq::empty()
        }
    }

    /// The declarations on node `i` and on its ancestors, nearest first.
    pub open spec fn ns_candidates(self, i: int) -> Seq<usize>
        decreases i,
    {
        if i < 0 {
            Seq::empty()
        } else {
            match self.nodes[i].parent {
                Some(p) => if p < i {
                    self.declared_here(i) + self.ns_candidates(p as int)
                } else {
                    self.declared_here(i)
                },
                None => self.declared_here(i),
            }
        }
    }

    /// The prefixes of the declarations of `v`.
    pub open spec fn prefixes_of(self, v: Seq<usize>) -> Seq<Option<Seq<char>>> {
        v.map_values(|s: usize| self.nss[s as int].prefix)
    }

    /// The declarations of `v` whose prefix no earlier declaration has.
    pub open spec fn dedup_by_prefix(self, v: Seq<usize>) -> Seq<usize>
        decreases v.len(),
    {
        if v.len() == 0 {
            Seq::empty()
        } else {
            let d = self.dedup_by_prefix(v.drop_last());
            if self.prefixes_of(d).contains(self.nss[v.last() as int].prefix) {
                d
            } else {
                d.push(v.last())
            }
        }
    }

    /// The namespaces in scope on node `i`, as libxml2's `xmlGetNsList`
    /// gathers them: nothing for a namespace declaration node or when no
    /// namespace is in scope.
    pub open spec fn ns_list(self, i: int) -> Option<Seq<usize>> {
        if self.nodes[i].kind == NAMESPACE_DECL_CODE {
            None
        } else {
            let d = self.dedup_by_prefix(self.ns_candidates(i));
            if d.len() == 0 {
                None
            } else {
                Some(d)
            }
        }
    }

    /// Holds of declarations that give a prefix or a URI.
    pub open spec fn decl_pred(self) -> spec_fn(usize) -> bool {
        |s: usize| self.nss[s as int].prefix is Some || self.nss[s as int].href is Some
    }

    /// The declarations on node `i` that give a prefix or a URI.
    pub open spec fn ns_declarations(self, i: int) -> Seq<usize> {
        self.declared_here(i).filter(self.decl_pred())
    }

    /// A namespace search stops at entities.
    pub open spec fn blocks_search(self, c: int) -> bool {
        self.nodes[c].kind == ENTITY_REF_CODE || self.nodes[c].kind == ENTITY_CODE
            || self.nodes[c].kind == ENTITY_DECL_CODE
    }

    pub open spec fn prefix_pred(self, prefix: Seq<char>) -> spec_fn(usize) -> bool {
        |s: usize| self.nss[s as int].prefix == Some(prefix) && self.nss[s as int].href is Some
    }

    /// The namespace of element `c`, an ancestor of node `orig`, when `pred`
    /// holds of it: a search looks at it after `c`'s own declarations.
    pub open spec fn own_ns_hit(self, orig: int, c: int, pred: spec_fn(usize) -> bool) -> Option<
        usize,
    > {
        if c != orig && self.is_element(c) {
            match self.nodes[c].ns {
                Some(s) => if pred(s) {
                    Some(s)
                } else {
                    None
                },
                None => None,
            }
        } else {
            None
        }
    }

    /// The nearest namespace with prefix `prefix` and a URI, searching node
    /// `c` and then its ancestors on behalf of node `orig`: at each element
    /// its declarations, then, above `orig`, its own namespace.
    pub open spec fn search_ns_prefix(self, orig: int, c: int, prefix: Seq<char>) -> Option<usize>
        decreases c,
    {
        if !(0 <= c < self.nodes.len()) || self.blocks_search(c) {
            None
        } else {
            let f = self.declared_here(c).filter(self.prefix_pred(prefix));
            if f.len() > 0 {
                Some(f[0])
            } else if self.own_ns_hit(orig, c, self.prefix_pred(prefix)) is Some {
                self.own_ns_hit(orig, c, self.prefix_pred(prefix))
            } else {
                match self.nodes[c].parent {
                    Some(p) => if p < c {
                        self.search_ns_prefix(orig, p as int, prefix)
                    } else {
                        None
                    },
                    None => None,
                }
            }
        }
    }

    /// The URI of the namespace that `prefix` names on node `i`.
    pub open spec fn lookup_uri(self, i: int, prefix: Seq<char>) -> Option<Seq<char>> {
        if prefix.len() == 0 || self.nodes[i].kind == NAMESPACE_DECL_CODE {
            None
        } else if prefix == xml_prefix() {
            Some(xml_ns_uri())
        } else {
            match self.search_ns_prefix(i, i, prefix) {
                Some(s) => self.nss[s as int].href,
                None => None,
            }
        }
    }

    /// Node `n` declares a namespace with prefix `prefix`.
    pub open spec fn declares_prefix(self, n: int, prefix: Option<Seq<char>>) -> bool {
        exists|k: int|
            0 <= k < self.declared_here(n).len() && #[trigger] self.nss[self.declared_here(
                n,
            )[k] as int].prefix == prefix
    }

    /// Walking up from node `n`, ancestor `anc` is reached before any entity
    /// or any other declaration of `prefix`.
    pub open spec fn in_scope(self, n: int, anc: int, prefix: Option<Seq<char>>) -> bool
        decreases n,
    {
        if !(0 <= n < self.nodes.len()) {
            false
        } else if n == anc {
            true
        } else if self.blocks_search(n) || self.declares_prefix(n, prefix) {
            false
        } else {
            match self.nodes[n].parent {
                Some(p) => if p < n {
                    self.in_scope(p as int, anc, prefix)
                } else {
                    false
                },
                None => false,
            }
        }
    }

    pub open spec fn href_pred(self, orig: int, c: int, href: Seq<char>, is_attr: bool) -> spec_fn(
        usize,
    ) -> bool {
        |s: usize|
            self.nss[s as int].href == Some(href) && (!is_attr || self.nss[s as int].prefix is Some)
                && self.in_scope(orig, c, self.nss[s as int].prefix)
    }

    /// The nearest namespace with URI `href` whose prefix is not declared
    /// again below it, searching node `c` and then its ancestors on behalf of
    /// node `orig`: at each element its declarations, then, above `orig`,
    /// its own namespace.
    pub open spec fn search_ns_href(self, orig: int, c: int, href: Seq<char>) -> Option<usize>
        decreases c,
    {
        if !(0 <= c < self.nodes.len()) || self.blocks_search(c) {
            None
        } else {
            let is_attr = self.nodes[orig].kind == ATTRIBUTE_CODE;
            let f = self.declared_here(c).filter(self.href_pred(orig, c, href, is_attr));
            if f.len() > 0 {
                Some(f[0])
            } else if self.own_ns_hit(orig, c, self.href_pred(orig, c, href, is_attr)) is Some {
                self.own_ns_hit(orig, c, self.href_pred(orig, c, href, is_attr))
            } else {
                match self.nodes[c].parent {
                    Some(p) => if p < c {
                        self.search_ns_href(orig, p as int, href)
                    } else {
                        None
                    },
                    None => None,
                }
            }
        }
    }

    /// The prefix of the namespace that `href` names on node `i`.
    pub open spec fn lookup_prefix(self, i: int, href: Seq<char>) -> Option<Seq<char>> {
        if href.len() == 0 || self.nodes[i].kind == NAMESPACE_DECL_CODE {
            None
        } else if href == xml_ns_uri() {
            Some(xml_prefix())
        } else {
            match self.search_ns_href(i, i, href) {
                Some(s) => self.nss[s as int].prefix,
                None => None,
            }
        }
    }
}

/// The pieces of `s` between single spaces, as `str::split(' ')` gives
/// them: empty pieces included, and one empty piece for the empty string.
pub open spec fn split_spaces(s: Seq<char>) -> Seq<Seq<char>>
    decreases s.len(),
{
    if s.len() == 0 {
        seq![Seq::<char>::empty()]
    } else {
        let prev = split_spaces(s.drop_last());
        if s.last() == ' ' {
            prev.push(Seq::empty())
        } else {
            prev.update(prev.len() - 1, prev.last().push(s.last()))
        }
    }
}

/// The strings of `v` without repeats, in order of first occurrence.
pub open spec fn dedup_strs(v: Seq<Seq<char>>) -> Seq<Seq<char>>
    decreases v.len(),
{
    if v.len() == 0 {
        Seq::empty()
    } else {
        let d = dedup_strs(v.drop_last());
        if d.contains(v.last()) {
            d
        } else {
            d.push(v.last())
        }
    }
}

/// Holds of the strings that are not empty.
pub open spec fn nonempty_str() -> spec_fn(Seq<char>) -> bool {
    |x: Seq<char>| x.len() > 0
}

/// The class names in a `class` attribute value: its non-empty pieces
/// between spaces, each once, in order of first occurrence.
pub open spec fn class_names_of(value: Option<Seq<char>>) -> Seq<Seq<char>> {
    match value {
        Some(v) => dedup_strs(split_spaces(v).filter(nonempty_str())),
        None => Seq::empty(),
    }
}

/// The contents of a sequence of strings.
pub open spec fn strs_of(v: Seq<String>) -> Seq<Seq<char>> {
    v.map_values(|s: String| s@)
}

impl DocModel {
    /// The root element: the first element among the document node's children.
    pub open spec fn root_element(self) -> Option<usize> {
        self.first_element_child(0)
    }

    /// Setting text node `r` as root would merge it into the document's last
    /// child, as libxml2's `xmlAddSibling` does: there is no root element,
    /// and the last child of the document is a text node of the same name
    /// (libxml2 compares the names by address, and gives all text nodes the
    /// same name).
    pub open spec fn root_text_merges(self, r: int) -> bool {
        let kids = self.nodes[0].children;
        &&& self.nodes[r].kind == TEXT_CODE
        &&& self.root_element() is None
        &&& kids.len() > 0
        &&& self.nodes[kids.last() as int].kind == TEXT_CODE
        &&& self.nodes[kids.last() as int].name == self.nodes[r].name
    }

    /// The content of the document's last child `last` once text node `r` is
    /// merged into it: the content of `r`, when it is not empty, appended to
    /// that of `last`.
    pub open spec fn merged_text(self, last: int, r: int) -> Option<Seq<char>> {
        match self.nodes[r].content {
            Some(c) => if c.len() > 0 {
                Some(self.content_or_empty(last) + c)
            } else {
                self.nodes[last].content
            },
            None => self.nodes[last].content,
        }
    }

    /// The root element that setting node `r` as root replaces.
    pub open spec fn replaced_root(self, r: int) -> Option<usize> {
        if self.nodes[r].kind == NAMESPACE_DECL_CODE {
            None
        } else {
            self.root_element()
        }
    }

    /// The document once node `r` is set as root element, as libxml2's
    /// `xmlDocSetRootElement` does: `r` takes the place of the current root
    /// element, which is left without a parent, or, when there is none, is
    /// added after the document node's other children; a text node that
    /// would follow a text node of the same name is merged into it instead,
    /// its content appended, and stays without a parent. A namespace
    /// declaration node is refused and leaves the document as it was.
    pub open spec fn with_root_set(self, r: int) -> DocModel {
        let d = self.nodes[0];
        let rn = self.nodes[r];
        if rn.kind == NAMESPACE_DECL_CODE {
            self
        } else if self.root_text_merges(r) {
            let last = d.children.last() as int;
            DocModel {
                nodes: self.nodes.update(
                    last,
                    NodeModel { content: self.merged_text(last, r), ..self.nodes[last] },
                ),
                ..self
            }
        } else {
            match self.root_element() {
                None => DocModel {
                    nodes: self.nodes.update(
                        0,
                        NodeModel { children: d.children.push(r as usize), ..d },
                    ).update(
                        r,
                        NodeModel { parent: Some(0usize), pos: d.children.len() as usize, ..rn },
                    ),
                    ..self
                },
                Some(o) => {
                    let on = self.nodes[o as int];
                    DocModel {
                        nodes: self.nodes.update(
                            0,
                            NodeModel { children: d.children.update(on.pos as int, r as usize), ..d },
                        ).update(r, NodeModel { parent: Some(0usize), pos: on.pos, ..rn }).update(
                            o as int,
                            NodeModel { parent: None, pos: 0, ..on },
                        ),
                        ..self
                    }
                },
            }
        }
    }

    /// The attributes once the attributes of node `p` after place `pos`
    /// have moved one place forward, up to old place `upto`.
    pub open spec fn attrs_shifted(self, p: usize, pos: usize, upto: int) -> Seq<AttrModel> {
        Seq::new(
            self.attrs.len(),
            |b: int|
                if self.attrs[b].parent == Some(p) && pos < self.attrs[b].pos <= upto {
                    AttrModel { pos: (self.attrs[b].pos - 1) as usize, ..self.attrs[b] }
                } else {
                    self.attrs[b]
                },
        )
    }

    /// The document once attribute `a` is unlinked from its element, as
    /// libxml2's `xmlUnlinkNode` does: it leaves the element's list, which
    /// closes up, and keeps no parent.
    pub open spec fn with_attr_unlinked(self, a: int) -> DocModel {
        match self.attrs[a].parent {
            None => self,
            Some(p) => {
                let pos = self.attrs[a].pos;
                let pn = self.nodes[p as int];
                let shifted = self.attrs_shifted(p, pos, pn.properties.len() as int);
                DocModel {
                    nodes: self.nodes.update(
                        p as int,
                        NodeModel { properties: pn.properties.remove(pos as int), ..pn },
                    ),
                    attrs: shifted.update(a, AttrModel { parent: None, pos: 0, ..self.attrs[a] }),
                    ..self
                }
            },
        }
    }
}

impl DocModel {
    /// The content string of node `i`, or the empty string.
    pub open spec fn content_or_empty(self, i: int) -> Seq<char> {
        match self.nodes[i].content {
            Some(c) => c,
            None => Seq::empty(),
        }
    }

    /// The text that node `i` itself holds: the content of a text or CDATA
    /// node.
    pub open spec fn own_text(self, i: int) -> Seq<char> {
        let n = self.nodes[i];
        if n.kind == TEXT_CODE || n.kind == CDATA_CODE {
            self.content_or_empty(i)
        } else {
            Seq::empty()
        }
    }

    /// A walk of the subtree goes below node `i`: it has no children, or the
    /// first is not an entity declaration.
    pub open spec fn walks_below(self, i: int) -> bool {
        !(self.nodes[i].children.len() > 0 && self.nodes[self.nodes[i].children[0] as int].kind
            == ENTITY_DECL_CODE)
    }

    /// The text of the subtree of node `i`, in document order.
    pub open spec fn subtree_text(self, i: int) -> Seq<char>
        decreases self.nodes.len() - i, self.nodes[i].children.len() + 1,
    {
        if !(0 <= i < self.nodes.len()) {
            Seq::empty()
        } else if self.walks_below(i) {
            self.own_text(i) + self.children_text(i, self.nodes[i].children.len() as int)
        } else {
            self.own_text(i)
        }
    }

    /// The text of the subtrees of the first `k` children of node `i`.
    pub open spec fn children_text(self, i: int, k: int) -> Seq<char>
        decreases self.nodes.len() - i, k,
    {
        if k <= 0 || !(0 <= i < self.nodes.len()) || k > self.nodes[i].children.len() {
            Seq::empty()
        } else {
            let c = self.nodes[i].children[k - 1] as int;
            self.children_text(i, k - 1) + if i < c < self.nodes.len() {
                self.subtree_text(c)
            } else {
                Seq::empty()
            }
        }
    }

    /// The text of the first `k` children of document node `i`: the text
    /// of the subtree of each element, and the content of each text or
    /// CDATA node.
    pub open spec fn doc_children_text(self, i: int, k: int) -> Seq<char>
        decreases k,
    {
        if k <= 0 || k > self.nodes[i].children.len() {
            Seq::empty()
        } else {
            let c = self.nodes[i].children[k - 1] as int;
            let kind = self.nodes[c].kind;
            self.doc_children_text(i, k - 1) + if kind == ELEMENT_CODE {
                self.subtree_text(c)
            } else if kind == TEXT_CODE || kind == CDATA_CODE {
                self.content_or_empty(c)
            } else {
                Seq::empty()
            }
        }
    }

    /// The text of the first `k` children of attribute node `i`, as a list
    /// of values: the content of each text, CDATA and entity reference
    /// node, nothing below them.
    pub open spec fn list_text(self, i: int, k: int) -> Seq<char>
        decreases k,
    {
        if k <= 0 || k > self.nodes[i].children.len() {
            Seq::empty()
        } else {
            let c = self.nodes[i].children[k - 1] as int;
            let kind = self.nodes[c].kind;
            self.list_text(i, k - 1) + if kind == TEXT_CODE || kind == CDATA_CODE || kind
                == ENTITY_REF_CODE {
                self.content_or_empty(c)
            } else {
                Seq::empty()
            }
        }
    }

    /// The content of node `i`, as libxml2's `xmlNodeGetContent` gives it:
    /// the text of the subtree for elements and fragments, the text of the
    /// children for attribute nodes, the text of the element, text and
    /// CDATA children for documents, the node's own content for text,
    /// CDATA, comment and processing-instruction nodes, and nothing for
    /// other nodes.
    pub open spec fn content_of(self, i: int) -> Option<Seq<char>> {
        let n = self.nodes[i];
        if n.kind == ELEMENT_CODE || n.kind == DOCUMENT_FRAG_CODE {
            Some(self.subtree_text(i))
        } else if n.kind == ATTRIBUTE_CODE {
            Some(self.list_text(i, n.children.len() as int))
        } else if n.kind == DOCUMENT_CODE || n.kind == HTML_DOCUMENT_CODE {
            Some(self.doc_children_text(i, n.children.len() as int))
        } else if n.kind == TEXT_CODE || n.kind == CDATA_CODE || n.kind == COMMENT_CODE || n.kind
            == PI_CODE {
            n.content
        } else {
            None
        }
    }

    /// The string value of node `i`: its content, or the empty string.
    pub open spec fn string_value(self, i: int) -> Seq<char> {
        match self.content_of(i) {
            Some(c) => c,
            None => Seq::empty(),
        }
    }
}

/// Nodes of this kind carry a namespace that can be cleared: elements and
/// attribute nodes.
pub open spec fn ns_clearable(kind: u32) -> bool {
    kind == ELEMENT_CODE || kind == ATTRIBUTE_CODE
}

/// Nodes of this kind hold namespace declarations that can be dropped:
/// elements and XInclude markers.
pub open spec fn decls_droppable(kind: u32) -> bool {
    kind == ELEMENT_CODE || kind == XINCLUDE_START_CODE || kind == XINCLUDE_END_CODE
}

impl DocModel {
    /// Node `c` is node `i` or lies below it.
    pub open spec fn in_subtree(self, c: int, i: int) -> bool
        decreases c,
    {
        if c == i {
            true
        } else if !(0 <= c < self.nodes.len()) {
            false
        } else {
            match self.nodes[c].parent {
                Some(p) => if p < c {
                    self.in_subtree(p as int, i)
                } else {
                    false
                },
                None => false,
            }
        }
    }

    /// Node `c` is an element of the subtree of node `i`.
    pub open spec fn element_below(self, c: int, i: int) -> bool {
        self.in_subtree(c, i) && self.nodes[c].kind == ELEMENT_CODE
    }

    /// Node `c` lies in the subtree of node `i` and loses its declarations
    /// when the namespaces of that subtree are removed.
    pub open spec fn drops_decls(self, c: int, i: int) -> bool {
        self.in_subtree(c, i) && decls_droppable(self.nodes[c].kind)
    }

    /// Node `c` once the namespaces of the subtree of node `i` are removed.
    pub open spec fn node_without_ns(self, c: int, i: int) -> NodeModel {
        let n = self.nodes[c];
        if self.in_subtree(c, i) {
            NodeModel {
                ns: if ns_clearable(n.kind) {
                    None
                } else {
                    n.ns
                },
                ns_def: if decls_droppable(n.kind) {
                    Seq::empty()
                } else {
                    n.ns_def
                },
                ..n
            }
        } else {
            n
        }
    }

    /// Attribute `a` once the namespaces of the subtree of node `i` are
    /// removed: the attributes of its elements lose their namespace.
    pub open spec fn attr_without_ns(self, a: int, i: int) -> AttrModel {
        match self.attrs[a].parent {
            Some(p) => if self.element_below(p as int, i) {
                AttrModel { ns: None, ..self.attrs[a] }
            } else {
                self.attrs[a]
            },
            None => self.attrs[a],
        }
    }

    /// Declaration `s` once the namespaces of the subtree of node `i` are
    /// removed: the declarations of its elements and XInclude markers are
    /// dropped and belong to no node any more.
    pub open spec fn decl_without_ns(self, s: int, i: int) -> NsModel {
        match self.nss[s].owner {
            Some(o) => if self.drops_decls(o as int, i) {
                NsModel { owner: None, pos: 0, ..self.nss[s] }
            } else {
                self.nss[s]
            },
            None => self.nss[s],
        }
    }

    /// The document once the namespaces of the subtree of node `i` are
    /// removed: every element and attribute node there loses its
    /// namespace, every element and XInclude marker there its namespace
    /// declarations, and every attribute of an element there its namespace.
    pub open spec fn ns_removed_below(self, i: int) -> DocModel {
        DocModel {
            nodes: Seq::new(self.nodes.len(), |c: int| self.node_without_ns(c, i)),
            attrs: Seq::new(self.attrs.len(), |a: int| self.attr_without_ns(a, i)),
            nss: Seq::new(self.nss.len(), |s: int| self.decl_without_ns(s, i)),
        }
    }
}

} // verus!
