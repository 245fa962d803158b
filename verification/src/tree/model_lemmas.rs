use vstd::prelude::*;

use crate::tree::document::empty_doc_model;
use crate::tree::model::{AttrModel, DocModel, NAMESPACE_DECL_CODE};

verus! {

/// A document made of the document node alone is well formed.
pub(crate) proof fn lemma_empty_doc_wf()
    ensures
        empty_doc_model().wf(),
{
    let m = empty_doc_model();
    assert(m.parent_link_ok(0));
    assert(m.node_ns_ok(0));
    assert(m.holder_ok(0));
    assert(m.decl_prefixes_distinct(0));
}

/// Adding a node without a parent keeps the document well formed.
pub(crate) proof fn lemma_with_new_node_wf(
    m: DocModel,
    kind: u32,
    name: Option<Seq<char>>,
    content: Option<Seq<char>>,
)
    requires
        m.wf(),
    ensures
        m.with_new_node(kind, name, content).wf(),
{
    let n = m.with_new_node(kind, name, content);
    let len = m.nodes.len() as int;
    assert forall|i: int, k: int|
        0 <= i < n.nodes.len() && 0 <= k < n.nodes[i].children.len() implies #[trigger] n.child_link_ok(
        i,
        k,
    ) by {
        assert(m.child_link_ok(i, k));
    }
    assert forall|c: int| 0 <= c < n.nodes.len() implies #[trigger] n.parent_link_ok(c) by {
        if c < len {
            assert(m.parent_link_ok(c));
        }
    }
    assert forall|i: int, k: int|
        0 <= i < n.nodes.len() && 0 <= k < n.nodes[i].properties.len() implies #[trigger] n.prop_link_ok(
        i,
        k,
    ) by {
        assert(m.prop_link_ok(i, k));
    }
    assert forall|a: int| 0 <= a < n.attrs.len() implies #[trigger] n.attr_link_ok(a) by {
        assert(m.attr_link_ok(a));
    }
    assert forall|i: int, k: int|
        0 <= i < n.nodes.len() && 0 <= k < n.nodes[i].ns_def.len() implies #[trigger] n.ns_def_link_ok(
        i,
        k,
    ) by {
        assert(m.ns_def_link_ok(i, k));
    }
    assert forall|s: int| 0 <= s < n.nss.len() implies #[trigger] n.ns_link_ok(s) by {
        assert(m.ns_link_ok(s));
    }
    assert forall|c: int| 0 <= c < n.nodes.len() implies #[trigger] n.decl_prefixes_distinct(c) by {
        if c < m.nodes.len() {
            assert(m.decl_prefixes_distinct(c));
        }
    }
    assert forall|i: int| 0 <= i < n.nodes.len() implies #[trigger] n.holder_ok(i) by {
        if i < m.nodes.len() {
            assert(m.holder_ok(i));
        }
    }
    assert forall|i: int| 0 <= i < n.nodes.len() implies #[trigger] n.node_ns_ok(i) by {
        if i < len {
            assert(m.node_ns_ok(i));
        }
    }
}

/// Adding a node as the last child of a node keeps the document well formed.
pub(crate) proof fn lemma_with_new_child_wf(
    m: DocModel,
    p: int,
    kind: u32,
    name: Option<Seq<char>>,
    content: Option<Seq<char>>,
)
    requires
        m.wf(),
        0 <= p < m.nodes.len(),
        m.nodes.len() < usize::MAX,
        m.nodes[p].children.len() < usize::MAX,
    ensures
        m.with_new_child(p, kind, name, content).wf(),
{
    let n = m.with_new_child(p, kind, name, content);
    let len = m.nodes.len() as int;
    assert(n.nodes.len() == len + 1);
    assert(n.nodes[p].children == m.nodes[p].children.push(len as usize));
    assert(n.nodes[len].parent == Some(p as usize));
    assert(forall|c: int| 0 <= c < len && c != p ==> n.nodes[c] == m.nodes[c]);
    assert forall|i: int, k: int|
        0 <= i < n.nodes.len() && 0 <= k < n.nodes[i].children.len() implies #[trigger] n.child_link_ok(
        i,
        k,
    ) by {
        if i == p && k == m.nodes[p].children.len() {
        } else {
            assert(m.child_link_ok(i, k));
        }
    }
    assert forall|c: int| 0 <= c < n.nodes.len() implies #[trigger] n.parent_link_ok(c) by {
        if c < len {
            assert(m.parent_link_ok(c));
            if c == p {
                assert(n.parent_link_ok(c));
            } else {
                assert(n.nodes[c] == m.nodes[c]);
                match m.nodes[c].parent {
                    Some(q) => {
                        if q as int == p {
                            assert(n.parent_link_ok(c));
                        } else {
                            assert(n.nodes[q as int] == m.nodes[q as int]);
                            assert(n.parent_link_ok(c));
                        }
                    },
                    None => {},
                }
            }
        } else {
            assert(n.parent_link_ok(c));
        }
    }
    assert forall|i: int, k: int|
        0 <= i < n.nodes.len() && 0 <= k < n.nodes[i].properties.len() implies #[trigger] n.prop_link_ok(
        i,
        k,
    ) by {
        assert(m.prop_link_ok(i, k));
    }
    assert forall|a: int| 0 <= a < n.attrs.len() implies #[trigger] n.attr_link_ok(a) by {
        assert(m.attr_link_ok(a));
    }
    assert forall|i: int, k: int|
        0 <= i < n.nodes.len() && 0 <= k < n.nodes[i].ns_def.len() implies #[trigger] n.ns_def_link_ok(
        i,
        k,
    ) by {
        assert(m.ns_def_link_ok(i, k));
    }
    assert forall|s: int| 0 <= s < n.nss.len() implies #[trigger] n.ns_link_ok(s) by {
        assert(m.ns_link_ok(s));
    }
    assert forall|c: int| 0 <= c < n.nodes.len() implies #[trigger] n.decl_prefixes_distinct(c) by {
        if c < m.nodes.len() {
            assert(m.decl_prefixes_distinct(c));
        }
    }
    assert forall|i: int| 0 <= i < n.nodes.len() implies #[trigger] n.holder_ok(i) by {
        if i < m.nodes.len() {
            assert(m.holder_ok(i));
        }
    }
    assert forall|i: int| 0 <= i < n.nodes.len() implies #[trigger] n.node_ns_ok(i) by {
        if i < len {
            assert(m.node_ns_ok(i));
        }
    }
}

/// Adding an attribute to a node keeps the document well formed.
pub(crate) proof fn lemma_with_new_prop_wf(
    m: DocModel,
    p: int,
    ns: Option<usize>,
    name: Seq<char>,
    value: Seq<char>,
)
    requires
        m.wf(),
        0 <= p < m.nodes.len(),
        m.attrs.len() < usize::MAX,
        m.nodes.len() <= usize::MAX,
        m.nodes[p].properties.len() < usize::MAX,
        ns matches Some(s) ==> s < m.nss.len(),
        m.is_element(p),
    ensures
        m.with_new_prop(p, ns, name, value).wf(),
{
    let n = m.with_new_prop(p, ns, name, value);
    assert forall|i: int, k: int|
        0 <= i < n.nodes.len() && 0 <= k < n.nodes[i].children.len() implies #[trigger] n.child_link_ok(
        i,
        k,
    ) by {
        assert(m.child_link_ok(i, k));
    }
    assert forall|c: int| 0 <= c < n.nodes.len() implies #[trigger] n.parent_link_ok(c) by {
        assert(m.parent_link_ok(c));
    }
    assert forall|i: int, k: int|
        0 <= i < n.nodes.len() && 0 <= k < n.nodes[i].properties.len() implies #[trigger] n.prop_link_ok(
        i,
        k,
    ) by {
        if i == p && k == m.nodes[p].properties.len() {
        } else {
            assert(m.prop_link_ok(i, k));
        }
    }
    assert forall|a: int| 0 <= a < n.attrs.len() implies #[trigger] n.attr_link_ok(a) by {
        if a < m.attrs.len() {
            assert(m.attr_link_ok(a));
            assert(n.attrs[a] == m.attrs[a]);
            match m.attrs[a].parent {
                Some(q) => {
                    if q as int != p {
                        assert(n.nodes[q as int] == m.nodes[q as int]);
                    } else {
                        assert(n.nodes[p].properties[m.attrs[a].pos as int]
                            == m.nodes[p].properties[m.attrs[a].pos as int]);
                    }
                },
                None => {},
            }
            assert(n.attr_link_ok(a));
        } else {
            let a2 = m.attrs.len() as int;
            assert(n.attrs[a2].parent == Some(p as usize));
            assert(n.attrs[a2].pos == m.nodes[p].properties.len());
            assert(n.nodes[p].properties[m.nodes[p].properties.len() as int] == a2 as usize);
            assert(n.attrs[a2].ns == ns);
        }
    }
    assert forall|i: int, k: int|
        0 <= i < n.nodes.len() && 0 <= k < n.nodes[i].ns_def.len() implies #[trigger] n.ns_def_link_ok(
        i,
        k,
    ) by {
        assert(m.ns_def_link_ok(i, k));
    }
    assert forall|s: int| 0 <= s < n.nss.len() implies #[trigger] n.ns_link_ok(s) by {
        assert(m.ns_link_ok(s));
    }
    assert forall|c: int| 0 <= c < n.nodes.len() implies #[trigger] n.decl_prefixes_distinct(c) by {
        if c < m.nodes.len() {
            assert(m.decl_prefixes_distinct(c));
        }
    }
    assert forall|i: int| 0 <= i < n.nodes.len() implies #[trigger] n.holder_ok(i) by {
        if i < m.nodes.len() {
            assert(m.holder_ok(i));
        }
    }
    assert forall|i: int| 0 <= i < n.nodes.len() implies #[trigger] n.node_ns_ok(i) by {
        assert(m.node_ns_ok(i));
    }
}

/// Declaring a namespace on a node keeps the document well formed.
pub(crate) proof fn lemma_with_new_ns_wf(
    m: DocModel,
    p: int,
    href: Option<Seq<char>>,
    prefix: Option<Seq<char>>,
)
    requires
        m.wf(),
        0 <= p < m.nodes.len(),
        m.nss.len() < usize::MAX,
        m.nodes.len() <= usize::MAX,
        m.nodes[p].ns_def.len() < usize::MAX,
        m.is_element(p),
        !m.declares_prefix(p, prefix),
    ensures
        m.with_new_ns(p, href, prefix).wf(),
{
    let n = m.with_new_ns(p, href, prefix);
    assert forall|i: int, k: int|
        0 <= i < n.nodes.len() && 0 <= k < n.nodes[i].children.len() implies #[trigger] n.child_link_ok(
        i,
        k,
    ) by {
        assert(m.child_link_ok(i, k));
    }
    assert forall|c: int| 0 <= c < n.nodes.len() implies #[trigger] n.parent_link_ok(c) by {
        assert(m.parent_link_ok(c));
    }
    assert forall|i: int, k: int|
        0 <= i < n.nodes.len() && 0 <= k < n.nodes[i].properties.len() implies #[trigger] n.prop_link_ok(
        i,
        k,
    ) by {
        assert(m.prop_link_ok(i, k));
    }
    assert forall|a: int| 0 <= a < n.attrs.len() implies #[trigger] n.attr_link_ok(a) by {
        assert(m.attr_link_ok(a));
    }
    assert forall|i: int, k: int|
        0 <= i < n.nodes.len() && 0 <= k < n.nodes[i].ns_def.len() implies #[trigger] n.ns_def_link_ok(
        i,
        k,
    ) by {
        if i == p && k == m.nodes[p].ns_def.len() {
        } else {
            assert(m.ns_def_link_ok(i, k));
        }
    }
    assert forall|s: int| 0 <= s < n.nss.len() implies #[trigger] n.ns_link_ok(s) by {
        if s < m.nss.len() {
            assert(m.ns_link_ok(s));
            assert(n.nss[s] == m.nss[s]);
            match m.nss[s].owner {
                Some(q) => {
                    if q as int != p {
                        assert(n.nodes[q as int] == m.nodes[q as int]);
                    }
                },
                None => {},
            }
        }
    }
    assert forall|c: int| 0 <= c < n.nodes.len() implies #[trigger] n.decl_prefixes_distinct(c) by {
        assert(m.decl_prefixes_distinct(c));
        let defs = m.nodes[c].ns_def;
        assert forall|x: int| 0 <= x < defs.len() implies n.nss[#[trigger] defs[x] as int] == m.nss[defs[x] as int] by {
            assert(m.ns_def_link_ok(c, x));
        }
        if c == p {
            let s0 = m.nss.len() as usize;
            assert(n.nodes[c].ns_def == defs.push(s0));
            assert forall|j: int, k: int|
                0 <= j < k < n.nodes[c].ns_def.len() implies n.nss[#[trigger] n.nodes[c].ns_def[j] as int].prefix
                != n.nss[#[trigger] n.nodes[c].ns_def[k] as int].prefix by {
                if k == defs.len() {
                    assert(n.nss[s0 as int].prefix == prefix);
                    assert(m.declared_here(p)[j] == defs[j]);
                    if m.nss[defs[j] as int].prefix == prefix {
                        assert(m.nss[m.declared_here(p)[j] as int].prefix == prefix);
                    }
                } else {
                    assert(n.nodes[c].ns_def[j] == defs[j]);
                    assert(n.nodes[c].ns_def[k] == defs[k]);
                }
            }
        }
    }
    assert forall|i: int| 0 <= i < n.nodes.len() implies #[trigger] n.holder_ok(i) by {
        if i < m.nodes.len() {
            assert(m.holder_ok(i));
        }
    }
    assert forall|i: int| 0 <= i < n.nodes.len() implies #[trigger] n.node_ns_ok(i) by {
        assert(m.node_ns_ok(i));
    }
}

/// Setting the namespace of a node to a declaration of the document keeps
/// it well formed.
pub(crate) proof fn lemma_with_node_ns_wf(m: DocModel, i0: int, ns: Option<usize>)
    requires
        m.wf(),
        0 <= i0 < m.nodes.len(),
        ns matches Some(s) ==> s < m.nss.len(),
    ensures
        m.with_node_ns(i0, ns).wf(),
{
    let n = m.with_node_ns(i0, ns);
    assert forall|i: int, k: int|
        0 <= i < n.nodes.len() && 0 <= k < n.nodes[i].children.len() implies #[trigger] n.child_link_ok(
        i,
        k,
    ) by {
        assert(m.child_link_ok(i, k));
    }
    assert forall|c: int| 0 <= c < n.nodes.len() implies #[trigger] n.parent_link_ok(c) by {
        assert(m.parent_link_ok(c));
    }
    assert forall|i: int, k: int|
        0 <= i < n.nodes.len() && 0 <= k < n.nodes[i].properties.len() implies #[trigger] n.prop_link_ok(
        i,
        k,
    ) by {
        assert(m.prop_link_ok(i, k));
    }
    assert forall|a: int| 0 <= a < n.attrs.len() implies #[trigger] n.attr_link_ok(a) by {
        assert(m.attr_link_ok(a));
    }
    assert forall|i: int, k: int|
        0 <= i < n.nodes.len() && 0 <= k < n.nodes[i].ns_def.len() implies #[trigger] n.ns_def_link_ok(
        i,
        k,
    ) by {
        assert(m.ns_def_link_ok(i, k));
    }
    assert forall|s: int| 0 <= s < n.nss.len() implies #[trigger] n.ns_link_ok(s) by {
        assert(m.ns_link_ok(s));
    }
    assert forall|c: int| 0 <= c < n.nodes.len() implies #[trigger] n.decl_prefixes_distinct(c) by {
        if c < m.nodes.len() {
            assert(m.decl_prefixes_distinct(c));
        }
    }
    assert forall|i: int| 0 <= i < n.nodes.len() implies #[trigger] n.holder_ok(i) by {
        if i < m.nodes.len() {
            assert(m.holder_ok(i));
        }
    }
    assert forall|i: int| 0 <= i < n.nodes.len() implies #[trigger] n.node_ns_ok(i) by {
        if i != i0 {
            assert(m.node_ns_ok(i));
        }
    }
}

/// When nothing before place `k` of `s` satisfies `p` and `s[k]` does, the
/// filtered sequence starts with `s[k]`.
pub(crate) proof fn lemma_filter_first(s: Seq<usize>, p: spec_fn(usize) -> bool, k: int)
    requires
        0 <= k < s.len(),
        s.take(k).filter(p) =~= Seq::<usize>::empty(),
        p(s[k]),
    ensures
        s.filter(p).len() > 0,
        s.filter(p)[0] == s[k],
{
    assert(s =~= s.take(k) + (seq![s[k]] + s.skip(k + 1)));
    Seq::filter_distributes_over_add(s.take(k), seq![s[k]] + s.skip(k + 1), p);
    s.skip(k + 1).lemma_filter_prepend(s[k], p);
    assert(s.filter(p) =~= seq![s[k]] + s.skip(k + 1).filter(p));
}

/// Extending a prefix of `s` by one element extends its filtered image
/// accordingly.
pub(crate) proof fn lemma_filter_take_step(s: Seq<usize>, p: spec_fn(usize) -> bool, k: int)
    requires
        0 <= k < s.len(),
    ensures
        s.take(k + 1).filter(p) == (if p(s[k]) {
            s.take(k).filter(p).push(s[k])
        } else {
            s.take(k).filter(p)
        }),
{
    assert(s.take(k + 1) =~= s.take(k).push(s[k]));
    s.take(k).lemma_filter_push(s[k], p);
}

/// A node comes after its parent.
pub(crate) proof fn lemma_parent_before(m: DocModel, c: int)
    requires
        m.wf(),
        0 <= c < m.nodes.len(),
        m.nodes[c].parent is Some,
    ensures
        (m.nodes[c].parent->0 as int) < c,
{
    assert(m.parent_link_ok(c));
    let p = m.nodes[c].parent->0 as int;
    assert(m.child_link_ok(p, m.nodes[c].pos as int));
}

/// The root element is a child of the document node.
pub(crate) proof fn lemma_root_element_child(m: DocModel)
    requires
        m.wf(),
        m.root_element() is Some,
    ensures
        ({
            let o = m.root_element()->0 as int;
            &&& 0 < o < m.nodes.len()
            &&& m.nodes[o].parent == Some(0usize)
            &&& m.nodes[0].children[m.nodes[o].pos as int] == o as usize
            &&& m.nodes[o].pos < m.nodes[0].children.len()
        }),
{
    let kids = m.nodes[0].children;
    let f = kids.filter(m.element_pred());
    let o = f[0];
    assert(f.contains(o));
    kids.lemma_filter_contains_rev(m.element_pred(), o);
    let k = choose|k: int| 0 <= k < kids.len() && kids[k] == o;
    assert(m.child_link_ok(0, k));
}

/// Setting a detached node as root element keeps the document well formed.
pub(crate) proof fn lemma_with_root_set_wf(m: DocModel, r: int)
    requires
        m.wf(),
        m.detached(r),
        m.nodes[0].children.len() < usize::MAX,
        m.nodes.len() <= usize::MAX,
    ensures
        m.with_root_set(r).wf(),
{
    let n = m.with_root_set(r);
    if m.nodes[r].kind == NAMESPACE_DECL_CODE {
        return;
    }
    if m.root_text_merges(r) {
        let last = m.nodes[0].children.last() as int;
        assert(m.child_link_ok(0, m.nodes[0].children.len() - 1));
        assert(0 <= last < m.nodes.len());
        assert(n.nodes.len() == m.nodes.len());
        assert forall|c: int| 0 <= c < n.nodes.len() implies {
            &&& n.nodes[c].kind == m.nodes[c].kind
            &&& n.nodes[c].parent == m.nodes[c].parent
            &&& n.nodes[c].pos == m.nodes[c].pos
            &&& n.nodes[c].children == m.nodes[c].children
            &&& n.nodes[c].properties == m.nodes[c].properties
            &&& n.nodes[c].ns == m.nodes[c].ns
            &&& n.nodes[c].ns_def == m.nodes[c].ns_def
        } by {
            if c == last {
            }
        }
        assert forall|i: int, k: int|
            0 <= i < n.nodes.len() && 0 <= k < n.nodes[i].children.len() implies #[trigger] n.child_link_ok(
            i,
            k,
        ) by {
            assert(m.child_link_ok(i, k));
        }
        assert forall|c: int| 0 <= c < n.nodes.len() implies #[trigger] n.parent_link_ok(c) by {
            assert(m.parent_link_ok(c));
        }
        assert forall|i: int, k: int|
            0 <= i < n.nodes.len() && 0 <= k < n.nodes[i].properties.len() implies #[trigger] n.prop_link_ok(
            i,
            k,
        ) by {
            assert(m.prop_link_ok(i, k));
        }
        assert forall|a: int| 0 <= a < n.attrs.len() implies #[trigger] n.attr_link_ok(a) by {
            assert(m.attr_link_ok(a));
        }
        assert forall|i: int, k: int|
            0 <= i < n.nodes.len() && 0 <= k < n.nodes[i].ns_def.len() implies #[trigger] n.ns_def_link_ok(
            i,
            k,
        ) by {
            assert(m.ns_def_link_ok(i, k));
        }
        assert forall|s: int| 0 <= s < n.nss.len() implies #[trigger] n.ns_link_ok(s) by {
            assert(m.ns_link_ok(s));
        }
        assert forall|i: int| 0 <= i < n.nodes.len() implies #[trigger] n.node_ns_ok(i) by {
            assert(m.node_ns_ok(i));
        }
        assert forall|c: int| 0 <= c < n.nodes.len() implies #[trigger] n.decl_prefixes_distinct(c) by {
            if c < m.nodes.len() {
                assert(m.decl_prefixes_distinct(c));
            }
        }
        assert forall|i: int| 0 <= i < n.nodes.len() implies #[trigger] n.holder_ok(i) by {
            assert(m.holder_ok(i));
        }
        return;
    }
    assert(m.parent_link_ok(r));
    // A detached node is nobody's child.
    assert forall|i: int, k: int|
        0 <= i < m.nodes.len() && 0 <= k < m.nodes[i].children.len() implies m.nodes[i].children[k]
        != r as usize by {
        assert(m.child_link_ok(i, k));
    }
    match m.root_element() {
        None => {
            let len0 = m.nodes[0].children.len() as int;
            assert forall|i: int, k: int|
                0 <= i < n.nodes.len() && 0 <= k < n.nodes[i].children.len() implies #[trigger] n.child_link_ok(
                i,
                k,
            ) by {
                if i == 0 && k == len0 {
                } else {
                    assert(m.child_link_ok(i, k));
                }
            }
            assert forall|c: int| 0 <= c < n.nodes.len() implies #[trigger] n.parent_link_ok(c) by {
                assert(m.parent_link_ok(c));
                if c != r {
                    match m.nodes[c].parent {
                        Some(q) => {
                            assert(m.child_link_ok(q as int, m.nodes[c].pos as int));
                        },
                        None => {},
                    }
                }
            }
            assert forall|i: int, k: int|
                0 <= i < n.nodes.len() && 0 <= k < n.nodes[i].properties.len() implies #[trigger] n.prop_link_ok(
                i,
                k,
            ) by {
                assert(m.prop_link_ok(i, k));
            }
            assert forall|a: int| 0 <= a < n.attrs.len() implies #[trigger] n.attr_link_ok(a) by {
                assert(m.attr_link_ok(a));
            }
            assert forall|i: int, k: int|
                0 <= i < n.nodes.len() && 0 <= k < n.nodes[i].ns_def.len() implies #[trigger] n.ns_def_link_ok(
                i,
                k,
            ) by {
                assert(m.ns_def_link_ok(i, k));
            }
            assert forall|s: int| 0 <= s < n.nss.len() implies #[trigger] n.ns_link_ok(s) by {
                assert(m.ns_link_ok(s));
            }
            assert forall|c: int| 0 <= c < n.nodes.len() implies #[trigger] n.decl_prefixes_distinct(c) by {
                if c < m.nodes.len() {
                    assert(m.decl_prefixes_distinct(c));
                }
            }
            assert forall|i: int| 0 <= i < n.nodes.len() implies #[trigger] n.holder_ok(i) by {
                if i < m.nodes.len() {
                    assert(m.holder_ok(i));
                }
            }
            assert forall|i: int| 0 <= i < n.nodes.len() implies #[trigger] n.node_ns_ok(i) by {
                assert(m.node_ns_ok(i));
            }
        },
        Some(o0) => {
            lemma_root_element_child(m);
            let o = o0 as int;
            let op = m.nodes[o].pos as int;
            assert forall|i: int, k: int|
                0 <= i < n.nodes.len() && 0 <= k < n.nodes[i].children.len() implies #[trigger] n.child_link_ok(
                i,
                k,
            ) by {
                assert(m.child_link_ok(i, k));
                if i == 0 && k == op {
                } else if i == 0 {
                    assert(m.nodes[0].children[k] != o0);
                } else {
                    assert(m.nodes[i].children[k] != o0);
                }
            }
            assert forall|c: int| 0 <= c < n.nodes.len() implies #[trigger] n.parent_link_ok(c) by {
                assert(m.parent_link_ok(c));
                if c != r && c != o {
                    match m.nodes[c].parent {
                        Some(q) => {
                            assert(m.child_link_ok(q as int, m.nodes[c].pos as int));
                        },
                        None => {},
                    }
                }
            }
            assert forall|i: int, k: int|
                0 <= i < n.nodes.len() && 0 <= k < n.nodes[i].properties.len() implies #[trigger] n.prop_link_ok(
                i,
                k,
            ) by {
                assert(m.prop_link_ok(i, k));
            }
            assert forall|a: int| 0 <= a < n.attrs.len() implies #[trigger] n.attr_link_ok(a) by {
                assert(m.attr_link_ok(a));
            }
            assert forall|i: int, k: int|
                0 <= i < n.nodes.len() && 0 <= k < n.nodes[i].ns_def.len() implies #[trigger] n.ns_def_link_ok(
                i,
                k,
            ) by {
                assert(m.ns_def_link_ok(i, k));
            }
            assert forall|s: int| 0 <= s < n.nss.len() implies #[trigger] n.ns_link_ok(s) by {
                assert(m.ns_link_ok(s));
            }
            assert forall|c: int| 0 <= c < n.nodes.len() implies #[trigger] n.decl_prefixes_distinct(c) by {
                if c < m.nodes.len() {
                    assert(m.decl_prefixes_distinct(c));
                }
            }
            assert forall|i: int| 0 <= i < n.nodes.len() implies #[trigger] n.holder_ok(i) by {
                if i < m.nodes.len() {
                    assert(m.holder_ok(i));
                }
            }
            assert forall|i: int| 0 <= i < n.nodes.len() implies #[trigger] n.node_ns_ok(i) by {
                assert(m.node_ns_ok(i));
            }
        },
    }
}

pub(crate) proof fn lemma_with_attr_unlinked_wf(m: DocModel, a: int)
    requires
        m.wf(),
        0 <= a < m.attrs.len(),
        m.attrs.len() <= usize::MAX,
        m.nodes.len() <= usize::MAX,
    ensures
        m.with_attr_unlinked(a).wf(),
{
    let n = m.with_attr_unlinked(a);
    assert(m.attr_link_ok(a));
    if m.attrs[a].parent is None {
        return;
    }
    let p = m.attrs[a].parent->0 as int;
    let pos = m.attrs[a].pos as int;
    let old_props = m.nodes[p].properties;
    let np = old_props.remove(pos);
    assert(n.nodes[p].properties == np);
    assert(old_props[pos] == a as usize);
    let shifted = m.attrs_shifted(p as usize, pos as usize, old_props.len() as int);
    assert(n.attrs == shifted.update(a, AttrModel { parent: None, pos: 0, ..m.attrs[a] }));
    assert forall|i: int, k: int|
        0 <= i < n.nodes.len() && 0 <= k < n.nodes[i].children.len() implies #[trigger] n.child_link_ok(
        i,
        k,
    ) by {
        assert(m.child_link_ok(i, k));
    }
    assert forall|c: int| 0 <= c < n.nodes.len() implies #[trigger] n.parent_link_ok(c) by {
        assert(m.parent_link_ok(c));
    }
    assert forall|i: int, k: int|
        0 <= i < n.nodes.len() && 0 <= k < n.nodes[i].properties.len() implies #[trigger] n.prop_link_ok(
        i,
        k,
    ) by {
        if i == p {
            if k < pos {
                assert(np[k] == old_props[k]);
                assert(m.prop_link_ok(i, k));
                let b = old_props[k] as int;
                assert(b != a);
                assert(shifted[b] == m.attrs[b]);
                assert(n.attrs[b] == m.attrs[b]);
            } else {
                assert(np[k] == old_props[k + 1]);
                assert(m.prop_link_ok(i, k + 1));
                let b = old_props[k + 1] as int;
                assert(b != a);
                assert(n.attrs[b] == shifted[b]);
                assert(n.attrs[b].pos == k);
            }
        } else {
            assert(m.prop_link_ok(i, k));
            let b = m.nodes[i].properties[k] as int;
            assert(b != a);
            assert(n.attrs[b] == m.attrs[b]);
        }
    }
    assert forall|b: int| 0 <= b < n.attrs.len() implies #[trigger] n.attr_link_ok(b) by {
        assert(m.attr_link_ok(b));
        if b != a {
            match m.attrs[b].parent {
                Some(q) => {
                    let qb = m.attrs[b].pos as int;
                    if q as int == p {
                        assert(m.prop_link_ok(p, qb));
                        assert(old_props[qb] == b as usize);
                        assert(qb != pos);
                        if qb < pos {
                            assert(np[qb] == old_props[qb]);
                        } else {
                            assert(np[qb - 1] == old_props[qb]);
                        }
                    }
                },
                None => {},
            }
        }
    }
    assert forall|i: int, k: int|
        0 <= i < n.nodes.len() && 0 <= k < n.nodes[i].ns_def.len() implies #[trigger] n.ns_def_link_ok(
        i,
        k,
    ) by {
        assert(m.ns_def_link_ok(i, k));
    }
    assert forall|s: int| 0 <= s < n.nss.len() implies #[trigger] n.ns_link_ok(s) by {
        assert(m.ns_link_ok(s));
    }
    assert forall|c: int| 0 <= c < n.nodes.len() implies #[trigger] n.decl_prefixes_distinct(c) by {
        if c < m.nodes.len() {
            assert(m.decl_prefixes_distinct(c));
        }
    }
    assert forall|i: int| 0 <= i < n.nodes.len() implies #[trigger] n.holder_ok(i) by {
        if i < m.nodes.len() {
            assert(m.holder_ok(i));
        }
    }
    assert forall|i: int| 0 <= i < n.nodes.len() implies #[trigger] n.node_ns_ok(i) by {
        assert(m.node_ns_ok(i));
    }
}

/// Removing the namespaces of a subtree keeps the document well formed.
pub(crate) proof fn lemma_ns_removed_below_wf(m: DocModel, i0: int)
    requires
        m.wf(),
        0 <= i0 < m.nodes.len(),
        m.nodes.len() <= usize::MAX,
    ensures
        m.ns_removed_below(i0).wf(),
{
    let n = m.ns_removed_below(i0);
    assert(n.nodes[0] == m.node_without_ns(0, i0));
    assert forall|i: int, k: int|
        0 <= i < n.nodes.len() && 0 <= k < n.nodes[i].children.len() implies #[trigger] n.child_link_ok(
        i,
        k,
    ) by {
        assert(m.child_link_ok(i, k));
        assert(n.nodes[m.nodes[i].children[k] as int] == m.node_without_ns(
            m.nodes[i].children[k] as int,
            i0,
        ));
    }
    assert forall|c: int| 0 <= c < n.nodes.len() implies #[trigger] n.parent_link_ok(c) by {
        assert(m.parent_link_ok(c));
        if let Some(p) = m.nodes[c].parent {
            assert(n.nodes[p as int] == m.node_without_ns(p as int, i0));
        }
    }
    assert forall|i: int, k: int|
        0 <= i < n.nodes.len() && 0 <= k < n.nodes[i].properties.len() implies #[trigger] n.prop_link_ok(
        i,
        k,
    ) by {
        assert(m.prop_link_ok(i, k));
        assert(n.attrs[m.nodes[i].properties[k] as int] == m.attr_without_ns(
            m.nodes[i].properties[k] as int,
            i0,
        ));
    }
    assert forall|a: int| 0 <= a < n.attrs.len() implies #[trigger] n.attr_link_ok(a) by {
        assert(m.attr_link_ok(a));
        if let Some(p) = m.attrs[a].parent {
            assert(n.nodes[p as int] == m.node_without_ns(p as int, i0));
        }
    }
    assert forall|i: int, k: int|
        0 <= i < n.nodes.len() && 0 <= k < n.nodes[i].ns_def.len() implies #[trigger] n.ns_def_link_ok(
        i,
        k,
    ) by {
        assert(n.nodes[i] == m.node_without_ns(i, i0));
        assert(!m.drops_decls(i, i0));
        assert(n.nodes[i].ns_def == m.nodes[i].ns_def);
        assert(m.ns_def_link_ok(i, k));
        let d = m.nodes[i].ns_def[k] as int;
        assert(n.nss[d] == m.decl_without_ns(d, i0));
        assert(m.nss[d].owner == Some(i as usize));
        assert(!m.drops_decls((i as usize) as int, i0));
        assert(n.nss[d] == m.nss[d]);
    }
    assert forall|s: int| 0 <= s < n.nss.len() implies #[trigger] n.ns_link_ok(s) by {
        assert(m.ns_link_ok(s));
        if let Some(o) = m.nss[s].owner {
            assert(n.nodes[o as int] == m.node_without_ns(o as int, i0));
        }
    }
    assert forall|c: int| 0 <= c < n.nodes.len() implies #[trigger] n.decl_prefixes_distinct(c) by {
        assert(m.decl_prefixes_distinct(c));
        assert(n.nodes[c] == m.node_without_ns(c, i0));
        assert forall|x: int| 0 <= x < m.nss.len() implies (#[trigger] n.nss[x]).prefix == m.nss[x].prefix by {
            assert(n.nss[x] == m.decl_without_ns(x, i0));
        }
        let defs = m.nodes[c].ns_def;
        if n.nodes[c].ns_def == defs {
            assert forall|x: int| 0 <= x < defs.len() implies 0 <= #[trigger] defs[x] < m.nss.len() by {
                assert(m.ns_def_link_ok(c, x));
            }
        }
    }
    assert forall|i: int| 0 <= i < n.nodes.len() implies #[trigger] n.holder_ok(i) by {
        if i < m.nodes.len() {
            assert(m.holder_ok(i));
        }
    }
    assert forall|i: int| 0 <= i < n.nodes.len() implies #[trigger] n.node_ns_ok(i) by {
        assert(m.node_ns_ok(i));
    }
}

} // verus!
