use vstd::prelude::*;

use crate::tree::document::empty_doc_model;
use crate::tree::model::{
    class_names_of, dedup_strs, head_opt, nonempty_str, split_spaces, xml_ns_uri, xml_prefix, DocModel, NsQuery, ATTRIBUTE_CODE, ELEMENT_CODE,
    NAMESPACE_DECL_CODE, TEXT_CODE,
};
use crate::tree::model_lemmas::{
    lemma_empty_doc_wf, lemma_filter_first, lemma_root_element_child, lemma_with_attr_unlinked_wf,
};
use crate::tree::node_type::{spec_node_type_from_code, NodeType};

verus! {

/// Filtering with two predicates that agree on the elements of `s` gives
/// the same sequence.
proof fn lemma_filter_congruent(s: Seq<usize>, p1: spec_fn(usize) -> bool, p2: spec_fn(usize) -> bool)
    requires
        forall|k: int| 0 <= k < s.len() ==> p1(s[k]) == p2(s[k]),
    ensures
        s.filter(p1) == s.filter(p2),
    decreases s.len(),
{
    reveal(Seq::filter);
    if s.len() > 0 {
        lemma_filter_congruent(s.drop_last(), p1, p2);
    }
}

/// Filtering a sequence in which nothing satisfies the predicate gives the
/// empty sequence.
proof fn lemma_filter_none(s: Seq<usize>, p: spec_fn(usize) -> bool)
    requires
        forall|k: int| 0 <= k < s.len() ==> !p(s[k]),
    ensures
        s.filter(p) =~= Seq::<usize>::empty(),
    decreases s.len(),
{
    reveal(Seq::filter);
    if s.len() > 0 {
        lemma_filter_none(s.drop_last(), p);
    }
}

/// When `s[k]` satisfies `p`, some place up to `k` is the first one whose
/// element does.
proof fn lemma_first_index(s: Seq<usize>, p: spec_fn(usize) -> bool, k: int)
    requires
        0 <= k < s.len(),
        p(s[k]),
    ensures
        exists|j: int| 0 <= j <= k && p(s[j]) && forall|j2: int| 0 <= j2 < j ==> !p(#[trigger] s[j2]),
    decreases k,
{
    if exists|j: int| 0 <= j < k && p(s[j]) {
        let j = choose|j: int| 0 <= j < k && p(s[j]);
        lemma_first_index(s, p, j);
    } else {
        assert(forall|j2: int| 0 <= j2 < k ==> !p(#[trigger] s[j2]));
    }
}

/// Filtering commutes with reversal.
proof fn lemma_filter_reverse(s: Seq<usize>, p: spec_fn(usize) -> bool)
    ensures
        s.reverse().filter(p) == s.filter(p).reverse(),
    decreases s.len(),
{
    reveal(Seq::filter);
    if s.len() == 0 {
        assert(s.reverse() =~= s);
        assert(s.filter(p).reverse() =~= s.filter(p));
    } else {
        let d = s.drop_last();
        let x = s.last();
        lemma_filter_reverse(d, p);
        assert(s.reverse() =~= seq![x] + d.reverse());
        d.reverse().lemma_filter_prepend(x, p);
        if p(x) {
            assert(s.filter(p) == d.filter(p).push(x));
            assert(d.filter(p).push(x).reverse() =~= seq![x] + d.filter(p).reverse());
        } else {
            assert(s.filter(p) == d.filter(p));
            assert(seq![x] + d.reverse() =~= seq![x] + d.reverse());
            assert((Seq::<usize>::empty() + d.reverse().filter(p)) =~= d.reverse().filter(p));
        }
    }
}

/// The next sibling of a node has that node as previous sibling, and the
/// other way round.
pub proof fn law_sibling_inverse(m: DocModel, i: int)
    requires
        m.wf(),
        0 <= i < m.nodes.len(),
    ensures
        m.next_sibling(i) matches Some(j) ==> m.prev_sibling(j as int) == Some(i as usize),
        m.prev_sibling(i) matches Some(j) ==> m.next_sibling(j as int) == Some(i as usize),
{
    assert(m.parent_link_ok(i));
    match m.nodes[i].parent {
        Some(p) => {
            let q = m.nodes[i].pos as int;
            let sibs = m.nodes[p as int].children;
            if q + 1 < sibs.len() {
                assert(m.child_link_ok(p as int, q + 1));
                assert(m.following_siblings(i)[0] == sibs[q + 1]);
                let j = sibs[q + 1] as int;
                assert(m.preceding_siblings(j)[0] == sibs[q]);
            }
            if q > 0 {
                assert(m.child_link_ok(p as int, q - 1));
                assert(m.preceding_siblings(i)[0] == sibs[q - 1]);
                let j = sibs[q - 1] as int;
                assert(m.following_siblings(j)[0] == sibs[q]);
            }
        },
        None => {},
    }
}

/// Every child of a node has that node as parent, and every node with a
/// parent is among its parent's children.
pub proof fn law_parent_child(m: DocModel, i: int)
    requires
        m.wf(),
        0 <= i < m.nodes.len(),
    ensures
        forall|k: int|
            0 <= k < m.child_nodes(i).len() ==> m.parent_of(#[trigger] m.child_nodes(i)[k] as int)
                == Some(i as usize),
        m.parent_of(i) matches Some(p) ==> m.child_nodes(p as int).contains(i as usize),
{
    assert forall|k: int| 0 <= k < m.child_nodes(i).len() implies m.parent_of(
        #[trigger] m.child_nodes(i)[k] as int,
    ) == Some(i as usize) by {
        assert(m.child_link_ok(i, k));
    }
    assert(m.parent_link_ok(i));
    if let Some(p) = m.parent_of(i) {
        assert(m.child_nodes(p as int)[m.nodes[i].pos as int] == i as usize);
    }
}

/// The first and last child are the ends of the list of children, and the
/// first and last element child the ends of the list of child elements,
/// which holds exactly the children that are elements, in order.
pub proof fn law_children_ends(m: DocModel, i: int)
    requires
        m.wf(),
        0 <= i < m.nodes.len(),
    ensures
        m.first_child(i) == head_opt(m.child_nodes(i)),
        m.last_child(i) == (if m.child_nodes(i).len() > 0 {
            Some(m.child_nodes(i).last())
        } else {
            None
        }),
        m.first_element_child(i) == head_opt(m.child_elements(i)),
        m.last_element_child(i) == (if m.child_elements(i).len() > 0 {
            Some(m.child_elements(i).last())
        } else {
            None
        }),
        m.child_elements(i) == m.child_nodes(i).filter(m.element_pred()),
{
    let kids = m.nodes[i].children;
    lemma_filter_reverse(kids, m.element_pred());
}

/// Setting an element as root element makes it the root element that the
/// document reports, and leaves the element it replaced without a parent.
pub proof fn law_set_root_reads_back(m: DocModel, r: int)
    requires
        m.wf(),
        m.detached(r),
        m.is_element(r),
        m.nodes[0].children.len() < usize::MAX,
        m.nodes.len() <= usize::MAX,
    ensures
        m.with_root_set(r).root_element() == Some(r as usize),
        m.replaced_root(r) matches Some(o) ==> m.with_root_set(r).detached(o as int),
{
    let n = m.with_root_set(r);
    let c0 = m.nodes[0].children;
    let c1 = n.nodes[0].children;
    assert forall|k: int| 0 <= k < c0.len() implies 0 <= c0[k] < m.nodes.len() && c0[k] != r by {
        assert(m.child_link_ok(0, k));
    }
    match m.root_element() {
        None => {
            assert(c1 == c0.push(r as usize));
            assert forall|k: int| 0 <= k < c1.len() implies (n.element_pred())(c1[k]) == (
            m.element_pred())(c1[k]) by {}
            lemma_filter_congruent(c1, n.element_pred(), m.element_pred());
            c0.lemma_filter_push(r as usize, m.element_pred());
            assert(c0.filter(m.element_pred()).len() == 0);
            assert(n.root_element() == head_opt(c1.filter(m.element_pred())));
        },
        Some(o) => {
            lemma_root_element_child(m);
            let op = m.nodes[o as int].pos as int;
            assert(c1 == c0.update(op, r as usize));
            assert forall|k: int| 0 <= k < c1.len() implies (n.element_pred())(c1[k]) == (
            m.element_pred())(c1[k]) by {}
            lemma_filter_congruent(c1, n.element_pred(), m.element_pred());
            // No element comes before the replaced root.
            assert forall|k: int| 0 <= k < op implies !(m.element_pred())(c0[k]) by {
                if (m.element_pred())(c0[k]) {
                    lemma_first_index(c0, m.element_pred(), k);
                    let j = choose|j: int| 0 <= j <= k && (m.element_pred())(c0[j]) && forall|
                        j2: int,
                    | 0 <= j2 < j ==> !(m.element_pred())(c0[j2]);
                    lemma_filter_none(c0.take(j), m.element_pred());
                    lemma_filter_first(c0, m.element_pred(), j);
                    assert(m.child_link_ok(0, j));
                    assert(m.child_link_ok(0, op));
                }
            }
            lemma_filter_none(c1.take(op), m.element_pred());
            lemma_filter_first(c1, m.element_pred(), op);
        },
    }
}

/// A node's type is `TextNode` exactly when its number is that of text
/// nodes, and `ElementNode` exactly when it is that of elements.
pub proof fn law_node_type_predicates(k: u32)
    ensures
        (spec_node_type_from_code(k) == Some(NodeType::TextNode)) == (k == TEXT_CODE),
        (spec_node_type_from_code(k) == Some(NodeType::ElementNode)) == (k == ELEMENT_CODE),
{
}

/// A property is reported present exactly when a value is found for it.
pub proof fn law_has_property_iff_value(m: DocModel, i: int, name: Seq<char>, q: NsQuery)
    ensures
        (m.find_attr(i, name, q) is Some) == (m.attr_value_of(m.find_attr(i, name, q)) is Some),
{
}

/// A new document is well formed and has no root element.
pub proof fn law_new_document()
    ensures
        empty_doc_model().wf(),
        empty_doc_model().root_element() is None,
{
    lemma_empty_doc_wf();
    reveal(Seq::filter);
}

/// The class names gathered from a value hold no name twice and no empty
/// name, and hold exactly the non-empty pieces of the value between spaces.
pub proof fn law_class_names_distinct(v: Seq<char>)
    ensures
        class_names_of(Some(v)).no_duplicates(),
        forall|x: Seq<char>|
            #[trigger] class_names_of(Some(v)).contains(x) <==> (x.len() > 0 && split_spaces(
                v,
            ).contains(x)),
{
    let pieces = split_spaces(v);
    let f = pieces.filter(nonempty_str());
    lemma_dedup_strs(f);
    assert forall|x: Seq<char>|
        #[trigger] class_names_of(Some(v)).contains(x) <==> (x.len() > 0 && split_spaces(v).contains(
            x,
        )) by {
        assert(class_names_of(Some(v)) == dedup_strs(f));
        assert(dedup_strs(f).contains(x) == f.contains(x));
        if f.contains(x) {
            let k = choose|k: int| 0 <= k < f.len() && f[k] == x;
            pieces.lemma_filter_pred(nonempty_str(), k);
            pieces.lemma_filter_contains_rev(nonempty_str(), x);
        }
        if x.len() > 0 && pieces.contains(x) {
            let k = choose|k: int| 0 <= k < pieces.len() && pieces[k] == x;
            pieces.lemma_filter_contains(nonempty_str(), k);
            assert((nonempty_str())(pieces[k]));
        }
    }
}

/// Removing repeats keeps each string once and loses none.
proof fn lemma_dedup_strs(v: Seq<Seq<char>>)
    ensures
        dedup_strs(v).no_duplicates(),
        forall|x: Seq<char>| dedup_strs(v).contains(x) <==> v.contains(x),
    decreases v.len(),
{
    if v.len() > 0 {
        let w = v.drop_last();
        lemma_dedup_strs(w);
        let d = dedup_strs(w);
        assert forall|x: Seq<char>| v.contains(x) <==> (w.contains(x) || x == v.last()) by {
            if v.contains(x) {
                let k = choose|k: int| 0 <= k < v.len() && v[k] == x;
                if k < w.len() {
                    assert(w[k] == x);
                }
            }
            if w.contains(x) {
                let k = choose|k: int| 0 <= k < w.len() && w[k] == x;
                assert(v[k] == x);
            }
            if x == v.last() {
                assert(v[v.len() - 1] == x);
            }
        }
        if !d.contains(v.last()) {
            let e = d.push(v.last());
            assert forall|x: Seq<char>| e.contains(x) <==> (d.contains(x) || x == v.last()) by {
                if e.contains(x) {
                    let k = choose|k: int| 0 <= k < e.len() && e[k] == x;
                    if k < d.len() {
                        assert(d[k] == x);
                    }
                }
                if d.contains(x) {
                    let k = choose|k: int| 0 <= k < d.len() && d[k] == x;
                    assert(e[k] == x);
                }
                if x == v.last() {
                    assert(e[e.len() - 1] == x);
                }
            }
            assert forall|i: int, j: int| 0 <= i < e.len() && 0 <= j < e.len() && i != j implies e[i]
                != e[j] by {
                if i == e.len() - 1 {
                    assert(d[j] == e[j]);
                } else if j == e.len() - 1 {
                    assert(d[i] == e[i]);
                }
            }
        }
    }
}

/// The namespaces in scope on a node hold no prefix twice, each is declared
/// on the node or on an ancestor, and every prefix declared there is among
/// them.
pub proof fn law_ns_list_distinct_prefixes(m: DocModel, i: int)
    requires
        m.wf(),
        0 <= i < m.nodes.len(),
    ensures
        m.ns_list(i) matches Some(d) ==> {
            &&& m.prefixes_of(d).no_duplicates()
            &&& forall|k: int| 0 <= k < d.len() ==> m.ns_candidates(i).contains(#[trigger] d[k])
            &&& forall|k: int|
                0 <= k < m.ns_candidates(i).len() ==> m.prefixes_of(d).contains(
                    m.nss[#[trigger] m.ns_candidates(i)[k] as int].prefix,
                )
        },
{
    lemma_dedup_by_prefix(m, m.ns_candidates(i));
}

/// Keeping the first declaration of each prefix keeps each prefix once,
/// keeps only declarations of the input, and loses no prefix.
pub(crate) proof fn lemma_dedup_by_prefix(m: DocModel, v: Seq<usize>)
    ensures
        m.prefixes_of(m.dedup_by_prefix(v)).no_duplicates(),
        forall|k: int|
            0 <= k < m.dedup_by_prefix(v).len() ==> v.contains(#[trigger] m.dedup_by_prefix(v)[k]),
        forall|k: int|
            0 <= k < v.len() ==> m.prefixes_of(m.dedup_by_prefix(v)).contains(
                m.nss[#[trigger] v[k] as int].prefix,
            ),
    decreases v.len(),
{
    if v.len() > 0 {
        let w = v.drop_last();
        lemma_dedup_by_prefix(m, w);
        let d = m.dedup_by_prefix(w);
        let x = v.last();
        let px = m.nss[x as int].prefix;
        assert forall|k: int| 0 <= k < d.len() implies v.contains(#[trigger] d[k]) by {
            let j = choose|j: int| 0 <= j < w.len() && w[j] == d[k];
            assert(v[j] == d[k]);
        }
        if m.prefixes_of(d).contains(px) {
            assert forall|k: int| 0 <= k < v.len() implies m.prefixes_of(d).contains(
                m.nss[#[trigger] v[k] as int].prefix,
            ) by {
                if k < w.len() {
                    assert(w[k] == v[k]);
                }
            }
        } else {
            let e = d.push(x);
            assert(m.prefixes_of(e) =~= m.prefixes_of(d).push(px));
            assert forall|k: int| 0 <= k < e.len() implies v.contains(#[trigger] e[k]) by {
                if k == d.len() {
                    assert(v[v.len() - 1] == x);
                }
            }
            assert forall|k: int| 0 <= k < v.len() implies m.prefixes_of(e).contains(
                m.nss[#[trigger] v[k] as int].prefix,
            ) by {
                if k < w.len() {
                    assert(w[k] == v[k]);
                    let j = choose|j: int|
                        0 <= j < m.prefixes_of(d).len() && m.prefixes_of(d)[j] == m.nss[w[k] as int].prefix;
                    assert(m.prefixes_of(e)[j] == m.prefixes_of(d)[j]);
                } else {
                    assert(m.prefixes_of(e)[e.len() - 1] == px);
                }
            }
            let pd = m.prefixes_of(d);
            let pe = m.prefixes_of(e);
            assert forall|a: int, b: int| 0 <= a < pe.len() && 0 <= b < pe.len() && a != b implies pe[a]
                != pe[b] by {
                if a == pe.len() - 1 {
                    assert(pd[b] == pe[b]);
                } else if b == pe.len() - 1 {
                    assert(pd[a] == pe[a]);
                }
            }
        }
    }
}

/// The attributes gathered by key hold no key twice, are attributes of the
/// input, and cover every key of the input.
pub proof fn law_first_occurrences_distinct(m: DocModel, props: Seq<usize>, by_ns: bool)
    ensures
        m.keys_of(m.first_occurrences(props, by_ns), by_ns).no_duplicates(),
        forall|k: int|
            0 <= k < m.first_occurrences(props, by_ns).len() ==> props.contains(
                #[trigger] m.first_occurrences(props, by_ns)[k],
            ),
        forall|k: int|
            0 <= k < props.len() ==> m.keys_of(m.first_occurrences(props, by_ns), by_ns).contains(
                m.attr_key(#[trigger] props[k], by_ns),
            ),
    decreases props.len(),
{
    if props.len() > 0 {
        let w = props.drop_last();
        law_first_occurrences_distinct(m, w, by_ns);
        let d = m.first_occurrences(w, by_ns);
        let x = props.last();
        let kx = m.attr_key(x, by_ns);
        assert forall|k: int| 0 <= k < d.len() implies props.contains(#[trigger] d[k]) by {
            let j = choose|j: int| 0 <= j < w.len() && w[j] == d[k];
            assert(props[j] == d[k]);
        }
        if m.keys_of(d, by_ns).contains(kx) {
            assert forall|k: int| 0 <= k < props.len() implies m.keys_of(d, by_ns).contains(
                m.attr_key(#[trigger] props[k], by_ns),
            ) by {
                if k < w.len() {
                    assert(w[k] == props[k]);
                }
            }
        } else {
            let e = d.push(x);
            let kd = m.keys_of(d, by_ns);
            let ke = m.keys_of(e, by_ns);
            assert(ke =~= kd.push(kx));
            assert forall|k: int| 0 <= k < e.len() implies props.contains(#[trigger] e[k]) by {
                if k == d.len() {
                    assert(props[props.len() - 1] == x);
                }
            }
            assert forall|k: int| 0 <= k < props.len() implies ke.contains(
                m.attr_key(#[trigger] props[k], by_ns),
            ) by {
                if k < w.len() {
                    assert(w[k] == props[k]);
                    let j = choose|j: int| 0 <= j < kd.len() && kd[j] == m.attr_key(w[k], by_ns);
                    assert(ke[j] == kd[j]);
                } else {
                    assert(ke[e.len() - 1] == kx);
                }
            }
            assert forall|a: int, b: int| 0 <= a < ke.len() && 0 <= b < ke.len() && a != b implies ke[a]
                != ke[b] by {
                if a == ke.len() - 1 {
                    assert(kd[b] == ke[b]);
                } else if b == ke.len() - 1 {
                    assert(kd[a] == ke[a]);
                }
            }
        }
    }
}

/// Unlinking an attribute leaves it without an element and in no
/// element's attribute list; its element's list loses exactly it, and the
/// other elements' lists stay as they were.
pub proof fn law_unlink_attr(m: DocModel, a: int)
    requires
        m.wf(),
        0 <= a < m.attrs.len(),
        m.attrs.len() <= usize::MAX,
        m.nodes.len() <= usize::MAX,
    ensures
        m.with_attr_unlinked(a).attrs[a].parent is None,
        forall|i: int, k: int|
            0 <= i < m.nodes.len() && 0 <= k < m.with_attr_unlinked(a).nodes[i].properties.len()
                ==> #[trigger] m.with_attr_unlinked(a).nodes[i].properties[k] != a as usize,
        m.attrs[a].parent matches Some(p) ==> m.with_attr_unlinked(a).nodes[p as int].properties
            == m.nodes[p as int].properties.remove(m.attrs[a].pos as int),
        forall|i: int|
            0 <= i < m.nodes.len() && m.attrs[a].parent != Some(i as usize) ==> (
            #[trigger] m.with_attr_unlinked(a).nodes[i]).properties == m.nodes[i].properties,
{
    lemma_with_attr_unlinked_wf(m, a);
    assert(m.attr_link_ok(a));
    let n = m.with_attr_unlinked(a);
    assert(n.nodes.len() == m.nodes.len());
    assert forall|i: int, k: int|
        0 <= i < m.nodes.len() && 0 <= k < n.nodes[i].properties.len() implies #[trigger] n.nodes[i].properties[k]
        != a as usize by {
        assert(n.prop_link_ok(i, k));
    }
}

/// Whether a node lies in a subtree depends only on the parent links.
proof fn lemma_in_subtree_same_parents(m: DocModel, n: DocModel, c: int, i: int)
    requires
        m.nodes.len() == n.nodes.len(),
        forall|x: int| 0 <= x < m.nodes.len() ==> (#[trigger] m.nodes[x]).parent == n.nodes[x].parent,
    ensures
        m.in_subtree(c, i) == n.in_subtree(c, i),
    decreases c,
{
    if c != i && 0 <= c < m.nodes.len() {
        if let Some(p) = m.nodes[c].parent {
            if p < c {
                lemma_in_subtree_same_parents(m, n, p as int, i);
            }
        }
    }
}

/// After the namespaces of a subtree are removed, no element or attribute
/// node there has a namespace, no element there declares one, and no
/// attribute of an element there has one; the shape of the tree, the
/// nodes' kinds, and everything outside the subtree stay as they were.
pub proof fn law_remove_ns_clears_subtree(m: DocModel, i: int)
    requires
        m.wf(),
        0 <= i < m.nodes.len(),
    ensures
        forall|c: int|
            0 <= c < m.nodes.len() && m.in_subtree(c, i) && (m.is_element(c) || m.kind(c) == ATTRIBUTE_CODE)
                ==> (#[trigger] m.ns_removed_below(i).nodes[c]).ns is None,
        forall|c: int|
            0 <= c < m.nodes.len() && m.element_below(c, i) ==> (
            #[trigger] m.ns_removed_below(i).nodes[c]).ns_def.len() == 0,
        forall|a: int|
            0 <= a < m.attrs.len() && (m.attrs[a].parent matches Some(p) && m.element_below(p as int, i))
                ==> (#[trigger] m.ns_removed_below(i).attrs[a]).ns is None,
        forall|c: int|
            0 <= c < m.nodes.len() ==> {
                &&& (#[trigger] m.ns_removed_below(i).nodes[c]).parent == m.nodes[c].parent
                &&& m.ns_removed_below(i).nodes[c].children == m.nodes[c].children
                &&& m.ns_removed_below(i).nodes[c].properties == m.nodes[c].properties
                &&& m.ns_removed_below(i).nodes[c].kind == m.nodes[c].kind
                &&& !m.in_subtree(c, i) ==> m.ns_removed_below(i).nodes[c] == m.nodes[c]
            },
{
}

/// Removing the namespaces of a subtree a second time changes nothing.
pub proof fn law_remove_ns_idempotent(m: DocModel, i: int)
    requires
        m.wf(),
        0 <= i < m.nodes.len(),
    ensures
        m.ns_removed_below(i).ns_removed_below(i) == m.ns_removed_below(i),
{
    let n = m.ns_removed_below(i);
    let n2 = n.ns_removed_below(i);
    assert forall|c: int| 0 <= c < m.nodes.len() implies n.in_subtree(c, i) == m.in_subtree(c, i) by {
        lemma_in_subtree_same_parents(m, n, c, i);
    }
    assert forall|c: int| 0 <= c < m.nodes.len() implies #[trigger] n2.nodes[c] == n.nodes[c] by {
        assert(n2.nodes[c] == n.node_without_ns(c, i));
        assert(n.nodes[c] == m.node_without_ns(c, i));
    }
    assert forall|a: int| 0 <= a < m.attrs.len() implies #[trigger] n2.attrs[a] == n.attrs[a] by {
        assert(n2.attrs[a] == n.attr_without_ns(a, i));
        assert(n.attrs[a] == m.attr_without_ns(a, i));
        if let Some(p) = m.attrs[a].parent {
            assert(m.attr_link_ok(a));
            assert(n.nodes[p as int] == m.node_without_ns(p as int, i));
        }
    }
    assert forall|s: int| 0 <= s < m.nss.len() implies #[trigger] n2.nss[s] == n.nss[s] by {
        assert(n2.nss[s] == n.decl_without_ns(s, i));
        assert(n.nss[s] == m.decl_without_ns(s, i));
    }
    assert(n2.nodes =~= n.nodes);
    assert(n2.attrs =~= n.attrs);
    assert(n2.nss =~= n.nss);
}

/// An attribute found on a node by name has that name, belongs to the node,
/// and is the first of the node's attributes that the lookup accepts.
pub proof fn law_find_attr_belongs(m: DocModel, i: int, name: Seq<char>, q: NsQuery)
    requires
        m.wf(),
        0 <= i < m.nodes.len(),
    ensures
        m.find_attr(i, name, q) matches Some(a) ==> {
            &&& m.attrs[a as int].name == name
            &&& m.attrs[a as int].parent == Some(i as usize)
            &&& m.attr_matches(a, name, q)
            &&& forall|k: int|
                0 <= k < m.attrs[a as int].pos ==> !m.attr_matches(
                    #[trigger] m.nodes[i].properties[k],
                    name,
                    q,
                )
        },
{
    if let Some(a) = m.find_attr(i, name, q) {
        let props = m.nodes[i].properties;
        let pred = m.attr_pred(name, q);
        let f = props.filter(pred);
        assert(f.contains(a));
        props.lemma_filter_contains_rev(pred, a);
        let k = choose|k: int| 0 <= k < props.len() && props[k] == a;
        assert(m.prop_link_ok(i, k));
        assert forall|j: int| 0 <= j < m.attrs[a as int].pos implies !m.attr_matches(
            #[trigger] m.nodes[i].properties[j],
            name,
            q,
        ) by {
            if m.attr_matches(props[j], name, q) {
                assert(pred(props[j]));
                lemma_first_index(props, pred, j);
                let j0 = choose|j0: int|
                    0 <= j0 <= j && pred(props[j0]) && forall|j2: int| 0 <= j2 < j0 ==> !pred(#[trigger] props[j2]);
                lemma_filter_none(props.take(j0), pred);
                lemma_filter_first(props, pred, j0);
                assert(m.prop_link_ok(i, j0));
            }
        }
    }
}

/// An attribute added to an element that had none of its name is the one
/// found for that name, with the value it was given.
pub proof fn law_new_prop_reads_back(
    m: DocModel,
    p: int,
    ns: Option<usize>,
    name: Seq<char>,
    value: Seq<char>,
)
    requires
        m.wf(),
        0 <= p < m.nodes.len(),
        m.is_element(p),
        m.find_attr(p, name, NsQuery::Any) is None,
        m.attrs.len() < usize::MAX,
    ensures
        m.with_new_prop(p, ns, name, value).find_attr(p, name, NsQuery::Any) == Some(
            m.attrs.len() as usize,
        ),
        m.with_new_prop(p, ns, name, value).attr_value_of(
            m.with_new_prop(p, ns, name, value).find_attr(p, name, NsQuery::Any),
        ) == Some(value),
{
    let n = m.with_new_prop(p, ns, name, value);
    let a = m.attrs.len() as usize;
    let props = m.nodes[p].properties;
    let pm = m.attr_pred(name, NsQuery::Any);
    let pn = n.attr_pred(name, NsQuery::Any);
    assert(n.nodes[p].properties == props.push(a));
    assert forall|k: int| 0 <= k < props.len() implies pn(props[k]) == pm(props[k]) by {
        assert(m.prop_link_ok(p, k));
    }
    lemma_filter_congruent(props, pn, pm);
    props.lemma_filter_push(a, pn);
    assert(props.filter(pm).len() == 0);
    assert(n.attrs[a as int].name == name);
}

/// A prefix declared on an element that declared it with no URI before is
/// looked up, from that element, to the URI it was declared with.
pub proof fn law_new_ns_reads_back(m: DocModel, e: int, href: Seq<char>, prefix: Seq<char>)
    requires
        m.wf(),
        0 <= e < m.nodes.len(),
        m.is_element(e),
        prefix.len() > 0,
        prefix != xml_prefix(),
        m.declared_here(e).filter(m.prefix_pred(prefix)).len() == 0,
        m.nss.len() < usize::MAX,
    ensures
        m.with_new_ns(e, Some(href), Some(prefix)).lookup_uri(e, prefix) == Some(href),
{
    let n = m.with_new_ns(e, Some(href), Some(prefix));
    let s = m.nss.len() as usize;
    let defs = m.nodes[e].ns_def;
    let pm = m.prefix_pred(prefix);
    let pn = n.prefix_pred(prefix);
    assert(n.declared_here(e) == defs.push(s));
    assert forall|k: int| 0 <= k < defs.len() implies pn(defs[k]) == pm(defs[k]) by {
        assert(m.ns_def_link_ok(e, k));
    }
    lemma_filter_congruent(defs, pn, pm);
    defs.lemma_filter_push(s, pn);
    assert(n.declared_here(e).filter(pn) =~= seq![s]);
    assert(n.search_ns_prefix(e, e, prefix) == Some(s));
}

/// The attribute found on a node by name is the first of the node's
/// attributes, in order, that the lookup accepts, and there is one exactly
/// when some attribute of the node is accepted.
pub proof fn law_find_attr_first_match(m: DocModel, i: int, name: Seq<char>, q: NsQuery)
    requires
        m.wf(),
        0 <= i < m.nodes.len(),
    ensures
        m.find_attr(i, name, q) == head_opt(m.nodes[i].properties.filter(m.attr_pred(name, q))),
        m.find_attr(i, name, q) is Some <==> exists|k: int|
            0 <= k < m.nodes[i].properties.len() && m.attr_matches(
                #[trigger] m.nodes[i].properties[k],
                name,
                q,
            ),
{
    let props = m.nodes[i].properties;
    let pred = m.attr_pred(name, q);
    assert(m.holder_ok(i));
    if !m.is_element(i) {
        assert(props.len() == 0);
        assert(props.filter(pred) =~= Seq::<usize>::empty()) by {
            reveal(Seq::filter);
        }
    }
    if exists|k: int| 0 <= k < props.len() && m.attr_matches(#[trigger] props[k], name, q) {
        let k = choose|k: int| 0 <= k < props.len() && m.attr_matches(#[trigger] props[k], name, q);
        assert(pred(props[k]));
        props.lemma_filter_contains(pred, k);
    }
    if props.filter(pred).len() > 0 {
        props.lemma_filter_pred(pred, 0);
        props.lemma_filter_contains_rev(pred, props.filter(pred)[0]);
        let k = choose|k: int| 0 <= k < props.len() && props[k] == props.filter(pred)[0];
        assert(m.attr_matches(props[k], name, q));
    }
}

/// The children of a node are its first child followed by the next
/// sibling of each, up to the last child, which has no next sibling; the
/// previous siblings run the same chain backwards.
pub proof fn law_children_chain(m: DocModel, i: int)
    requires
        m.wf(),
        0 <= i < m.nodes.len(),
    ensures
        m.first_child(i) == head_opt(m.child_nodes(i)),
        forall|k: int|
            0 <= k < m.child_nodes(i).len() - 1 ==> m.next_sibling(
                #[trigger] m.child_nodes(i)[k] as int,
            ) == Some(m.child_nodes(i)[k + 1]),
        forall|k: int|
            0 < k < m.child_nodes(i).len() ==> m.prev_sibling(
                #[trigger] m.child_nodes(i)[k] as int,
            ) == Some(m.child_nodes(i)[k - 1]),
        m.child_nodes(i).len() > 0 ==> m.next_sibling(m.child_nodes(i).last() as int) is None,
        m.child_nodes(i).len() > 0 ==> m.prev_sibling(m.child_nodes(i)[0] as int) is None,
{
    let kids = m.nodes[i].children;
    assert forall|k: int| 0 <= k < kids.len() - 1 implies m.next_sibling(#[trigger] kids[k] as int)
        == Some(kids[k + 1]) by {
        assert(m.child_link_ok(i, k));
        assert(m.following_siblings(kids[k] as int)[0] == kids[k + 1]);
    }
    assert forall|k: int| 0 < k < kids.len() implies m.prev_sibling(#[trigger] kids[k] as int)
        == Some(kids[k - 1]) by {
        assert(m.child_link_ok(i, k));
        assert(m.preceding_siblings(kids[k] as int)[0] == kids[k - 1]);
    }
    if kids.len() > 0 {
        assert(m.child_link_ok(i, kids.len() - 1));
        assert(m.child_link_ok(i, 0));
        assert(m.following_siblings(kids.last() as int).len() == 0);
        assert(m.preceding_siblings(kids[0] as int).len() == 0);
    }
}

/// Every attribute of a node has a value collected under its name: the
/// value of the first attribute of the node with that name.
pub proof fn law_collected_values_present(m: DocModel, i: int)
    requires
        m.wf(),
        0 <= i < m.nodes.len(),
    ensures
        forall|k: int|
            0 <= k < m.nodes[i].properties.len() ==> {
                &&& m.collected_value(i, #[trigger] m.nodes[i].properties[k]) is Some
                &&& m.collected_value(i, m.nodes[i].properties[k]) == m.attr_value_of(
                    m.find_attr(i, m.attrs[m.nodes[i].properties[k] as int].name, NsQuery::Any),
                )
            },
{
    assert forall|k: int| 0 <= k < m.nodes[i].properties.len() implies m.collected_value(
        i,
        #[trigger] m.nodes[i].properties[k],
    ) is Some by {
        let a = m.nodes[i].properties[k];
        law_find_attr_first_match(m, i, m.attrs[a as int].name, NsQuery::Any);
        assert(m.attr_matches(m.nodes[i].properties[k], m.attrs[a as int].name, NsQuery::Any));
    }
}

/// The namespace URI that collecting attributes by namespace uses for
/// attribute `a`: that of its namespace, if it has one.
pub open spec fn href_key(m: DocModel, a: usize) -> Option<Option<Seq<char>>> {
    match m.attrs[a as int].ns {
        Some(s) => Some(m.nss[s as int].href),
        None => None,
    }
}

/// When no two attributes of a node share a name and a namespace URI, and
/// every namespace of its attributes has a URI, collecting the attributes
/// by namespace keeps every attribute, in order, each with its own value.
pub proof fn law_properties_ns_own_values(m: DocModel, i: int)
    requires
        m.wf(),
        0 <= i < m.nodes.len(),
        forall|j: int, k: int|
            0 <= j < k < m.nodes[i].properties.len() ==> !(m.attrs[m.nodes[i].properties[j] as int].name
                == m.attrs[m.nodes[i].properties[k] as int].name && href_key(
                m,
                #[trigger] m.nodes[i].properties[j],
            ) == href_key(m, #[trigger] m.nodes[i].properties[k])),
        forall|k: int|
            0 <= k < m.nodes[i].properties.len() ==> (m.attrs[#[trigger] m.nodes[i].properties[k] as int].ns matches Some(
                s,
            ) ==> m.nss[s as int].href is Some),
    ensures
        m.first_occurrences(m.nodes[i].properties, true) == m.nodes[i].properties,
        forall|k: int|
            0 <= k < m.nodes[i].properties.len() ==> m.collected_value_ns(
                i,
                #[trigger] m.nodes[i].properties[k],
            ) == Some(m.attrs[m.nodes[i].properties[k] as int].value),
{
    let props = m.nodes[i].properties;
    assert forall|j: int, k: int|
        0 <= j < props.len() && 0 <= k < props.len() && j != k implies m.attr_key(
        #[trigger] props[j],
        true,
    ) != m.attr_key(#[trigger] props[k], true) by {
        if j < k {
            assert(!(m.attrs[props[j] as int].name == m.attrs[props[k] as int].name && href_key(
                m,
                props[j],
            ) == href_key(m, props[k])));
        } else {
            assert(!(m.attrs[props[k] as int].name == m.attrs[props[j] as int].name && href_key(
                m,
                props[k],
            ) == href_key(m, props[j])));
        }
    }
    lemma_first_occurrences_all(m, props);
    assert forall|k: int| 0 <= k < props.len() implies m.collected_value_ns(i, #[trigger] props[k])
        == Some(m.attrs[props[k] as int].value) by {
        let a = props[k];
        let name = m.attrs[a as int].name;
        let q = match m.attrs[a as int].ns {
            Some(s) => NsQuery::Href(
                match m.nss[s as int].href {
                    Some(h) => h,
                    None => Seq::empty(),
                },
            ),
            None => NsQuery::NoNs,
        };
        law_find_attr_first_match(m, i, name, q);
        assert(m.attr_matches(props[k], name, q));
        let f = props.filter(m.attr_pred(name, q));
        assert(f.len() > 0) by {
            props.lemma_filter_contains(m.attr_pred(name, q), k);
        }
        props.lemma_filter_pred(m.attr_pred(name, q), 0);
        props.lemma_filter_contains_rev(m.attr_pred(name, q), f[0]);
        let j = choose|j: int| 0 <= j < props.len() && props[j] == f[0];
        assert(m.attr_matches(props[j], name, q));
        if j != k {
            assert(href_key(m, props[j]) == href_key(m, props[k]));
            assert(m.attr_key(props[j], true) == m.attr_key(props[k], true));
        }
    }
}

/// When no two attributes of a sequence share a key, gathering the first
/// of each key keeps the whole sequence.
proof fn lemma_first_occurrences_all(m: DocModel, props: Seq<usize>)
    requires
        forall|j: int, k: int|
            0 <= j < props.len() && 0 <= k < props.len() && j != k ==> m.attr_key(
                #[trigger] props[j],
                true,
            ) != m.attr_key(#[trigger] props[k], true),
    ensures
        m.first_occurrences(props, true) == props,
    decreases props.len(),
{
    if props.len() > 0 {
        let w = props.drop_last();
        assert forall|j: int, k: int|
            0 <= j < w.len() && 0 <= k < w.len() && j != k implies m.attr_key(#[trigger] w[j], true)
            != m.attr_key(#[trigger] w[k], true) by {
            assert(w[j] == props[j] && w[k] == props[k]);
        }
        lemma_first_occurrences_all(m, w);
        let kx = m.attr_key(props.last(), true);
        if m.keys_of(w, true).contains(kx) {
            let j = choose|j: int| 0 <= j < m.keys_of(w, true).len() && m.keys_of(w, true)[j] == kx;
            assert(w[j] == props[j]);
            assert(m.attr_key(props[j], true) == m.attr_key(props[props.len() - 1], true));
        }
        assert(w.push(props.last()) =~= props);
    }
}

/// The namespace of every element is one declared on the element or on an
/// ancestor, with no other declaration of its prefix in between.
pub open spec fn element_ns_in_scope(m: DocModel) -> bool {
    forall|c: int|
        0 <= c < m.nodes.len() && m.is_element(c) && (#[trigger] m.nodes[c].ns) is Some ==> {
            let s = m.nodes[c].ns->0;
            &&& m.nss[s as int].owner is Some
            &&& m.in_scope(c, m.nss[s as int].owner->0 as int, m.nss[s as int].prefix)
        }
}

/// No declaration has the empty prefix, and one with the prefix `xml` binds
/// it to the XML namespace.
pub open spec fn prefixes_proper(m: DocModel) -> bool {
    forall|s: int|
        0 <= s < m.nss.len() ==> (#[trigger] m.nss[s]).prefix != Some(Seq::<char>::empty()) && (
        m.nss[s].prefix == Some(xml_prefix()) ==> m.nss[s].href == Some(xml_ns_uri()))
}

/// Two ancestors of a node, each reached before any other declaration of
/// a prefix, that both declare the prefix are the same node.
proof fn lemma_two_scopes(m: DocModel, n: int, a: int, b: int, pf: Option<Seq<char>>)
    requires
        m.in_scope(n, a, pf),
        m.in_scope(n, b, pf),
        m.declares_prefix(a, pf),
        m.declares_prefix(b, pf),
    ensures
        a == b,
    decreases n,
{
    if n != a && n != b {
        let q = m.nodes[n].parent->0 as int;
        lemma_two_scopes(m, q, a, b, pf);
    }
}

/// Reaching `y` from `x` and `z` from `y` reaches `z` from `x`.
proof fn lemma_scope_trans(m: DocModel, x: int, y: int, z: int, pf: Option<Seq<char>>)
    requires
        m.in_scope(x, y, pf),
        m.in_scope(y, z, pf),
    ensures
        m.in_scope(x, z, pf),
    decreases x,
{
    if x != y {
        let q = m.nodes[x].parent->0 as int;
        lemma_scope_trans(m, q, y, z, pf);
    }
}

/// A declaration owned by a node is among the node's declarations, and the
/// node is an element.
proof fn lemma_owner_declares(m: DocModel, s: int)
    requires
        m.wf(),
        0 <= s < m.nss.len(),
        m.nss.len() <= usize::MAX,
        m.nss[s].owner is Some,
    ensures
        ({
            let o = m.nss[s].owner->0 as int;
            &&& 0 <= o < m.nodes.len()
            &&& m.is_element(o)
            &&& m.declared_here(o)[m.nss[s].pos as int] == s as usize
            &&& 0 <= m.nss[s].pos < m.declared_here(o).len()
            &&& m.declares_prefix(o, m.nss[s].prefix)
        }),
{
    assert(m.ns_link_ok(s));
    let o = m.nss[s].owner->0 as int;
    assert(m.holder_ok(o));
    let k = m.nss[s].pos as int;
    assert(m.nss[m.declared_here(o)[k] as int].prefix == m.nss[s].prefix);
}

/// The declaration that a search by URI finds lies on a node that is
/// reached from the searching node before any other declaration of its
/// prefix.
proof fn lemma_href_hit(m: DocModel, orig: int, c: int, u: Seq<char>) -> (h: int)
    requires
        m.wf(),
        m.nss.len() <= usize::MAX,
        element_ns_in_scope(m),
        0 <= orig < m.nodes.len(),
        m.search_ns_href(orig, c, u) is Some,
    ensures
        ({
            let s = m.search_ns_href(orig, c, u)->0;
            &&& 0 <= h < m.nodes.len()
            &&& m.is_element(h)
            &&& m.in_scope(orig, h, m.nss[s as int].prefix)
            &&& m.declared_here(h).contains(s)
            &&& m.nss[s as int].href == Some(u)
            &&& 0 <= s < m.nss.len()
        }),
    decreases c,
{
    let is_attr = m.nodes[orig].kind == ATTRIBUTE_CODE;
    let pred = m.href_pred(orig, c, u, is_attr);
    let here = m.declared_here(c);
    let f = here.filter(pred);
    if f.len() > 0 {
        here.lemma_filter_pred(pred, 0);
        here.lemma_filter_contains_rev(pred, f[0]);
        let k = choose|k: int| 0 <= k < here.len() && here[k] == f[0];
        assert(m.ns_def_link_ok(c, k));
        c
    } else if m.own_ns_hit(orig, c, pred) is Some {
        let s = m.nodes[c].ns->0;
        assert(m.node_ns_ok(c));
        lemma_owner_declares(m, s as int);
        let o = m.nss[s as int].owner->0 as int;
        lemma_scope_trans(m, orig, c, o, m.nss[s as int].prefix);
        assert(here.filter(pred).len() == 0);
        assert(m.declared_here(o)[m.nss[s as int].pos as int] == s);
        o
    } else {
        let q = m.nodes[c].parent->0 as int;
        lemma_href_hit(m, orig, q, u)
    }
}

/// Searching by prefix from a node that reaches `h`, where declaration `s`
/// of that prefix lies, before any other declaration of the prefix finds
/// `s`.
proof fn lemma_prefix_search_finds(
    m: DocModel,
    orig: int,
    n: int,
    h: int,
    p: Seq<char>,
    s: usize,
)
    requires
        m.wf(),
        m.nss.len() <= usize::MAX,
        element_ns_in_scope(m),
        m.in_scope(n, h, Some(p)),
        0 <= h < m.nodes.len(),
        m.is_element(h),
        m.declared_here(h).contains(s),
        m.nss[s as int].prefix == Some(p),
        m.nss[s as int].href is Some,
    ensures
        m.search_ns_prefix(orig, n, p) == Some(s),
    decreases n,
{
    let pred = m.prefix_pred(p);
    assert(m.decl_prefixes_distinct(h));
    let ks = choose|k: int| 0 <= k < m.declared_here(h).len() && m.declared_here(h)[k] == s;
    assert(m.declares_prefix(h, Some(p))) by {
        assert(m.nss[m.declared_here(h)[ks] as int].prefix == Some(p));
    }
    if n == h {
        let here = m.declared_here(h);
        let f = here.filter(pred);
        assert(pred(here[ks]));
        here.lemma_filter_contains(pred, ks);
        here.lemma_filter_pred(pred, 0);
        here.lemma_filter_contains_rev(pred, f[0]);
        let j = choose|j: int| 0 <= j < here.len() && here[j] == f[0];
        if j < ks {
            assert(m.nss[m.nodes[h].ns_def[j] as int].prefix != m.nss[m.nodes[h].ns_def[ks] as int].prefix);
        } else if ks < j {
            assert(m.nss[m.nodes[h].ns_def[ks] as int].prefix != m.nss[m.nodes[h].ns_def[j] as int].prefix);
        }
    } else {
        let here = m.declared_here(n);
        let f = here.filter(pred);
        if f.len() > 0 {
            here.lemma_filter_pred(pred, 0);
            here.lemma_filter_contains_rev(pred, f[0]);
            let j = choose|j: int| 0 <= j < here.len() && here[j] == f[0];
            assert(m.nss[m.declared_here(n)[j] as int].prefix == Some(p));
            assert(m.declares_prefix(n, Some(p)));
        }
        if m.own_ns_hit(orig, n, pred) is Some {
            let s2 = m.nodes[n].ns->0;
            assert(m.node_ns_ok(n));
            lemma_owner_declares(m, s2 as int);
            let o = m.nss[s2 as int].owner->0 as int;
            lemma_two_scopes(m, n, o, h, Some(p));
            let k2 = m.nss[s2 as int].pos as int;
            if k2 < ks {
                assert(m.nss[m.nodes[h].ns_def[k2] as int].prefix != m.nss[m.nodes[h].ns_def[ks] as int].prefix);
            } else if ks < k2 {
                assert(m.nss[m.nodes[h].ns_def[ks] as int].prefix != m.nss[m.nodes[h].ns_def[k2] as int].prefix);
            }
        } else {
            let q = m.nodes[n].parent->0 as int;
            lemma_prefix_search_finds(m, orig, q, h, p, s);
        }
    }
}

/// Looking up the URI of the prefix that a URI was looked up to gives that
/// URI back, and the empty prefix has no URI. The round trip needs every
/// element's namespace to be one in scope on it, and no declaration of the
/// empty prefix or of `xml` for another namespace: an element whose
/// namespace binds `p` to one URI, below a declaration of `p` for another,
/// looks the second up to `p` and `p` up to the first.
pub proof fn law_lookup_round_trip(m: DocModel, i: int, u: Seq<char>)
    requires
        m.wf(),
        0 <= i < m.nodes.len(),
        m.nss.len() <= usize::MAX,
        element_ns_in_scope(m),
        prefixes_proper(m),
    ensures
        m.lookup_uri(i, Seq::empty()) is None,
        m.lookup_prefix(i, u) matches Some(p) ==> m.lookup_uri(i, p) == Some(u),
{
    reveal_strlit("xml");
    reveal_strlit("http://www.w3.org/XML/1998/namespace");
    if m.lookup_prefix(i, u) is Some && u.len() > 0 && m.nodes[i].kind != NAMESPACE_DECL_CODE && u
        != xml_ns_uri() {
        let s = m.search_ns_href(i, i, u)->0;
        let h = lemma_href_hit(m, i, i, u);
        let p = m.nss[s as int].prefix->0;
        assert(m.nss[s as int].prefix != Some(Seq::<char>::empty()));
        if p.len() == 0 {
            assert(p =~= Seq::<char>::empty());
        }
        assert(p != xml_prefix());
        lemma_prefix_search_finds(m, i, i, h, p, s);
    }
}

/// Setting as root a text node that follows a text node of the same name
/// at the end of the document merges it into that node: the children of
/// the document stay as they were, its last child gets the merged content,
/// the text node stays without a parent, and no root element appears.
pub proof fn law_set_root_text_merges(m: DocModel, r: int)
    requires
        m.wf(),
        m.detached(r),
        m.root_text_merges(r),
    ensures
        m.with_root_set(r).nodes[0].children == m.nodes[0].children,
        m.with_root_set(r).nodes[m.nodes[0].children.last() as int].content == m.merged_text(
            m.nodes[0].children.last() as int,
            r,
        ),
        m.with_root_set(r).detached(r),
        m.with_root_set(r).root_element() is None,
        m.replaced_root(r) is None,
{
    let n = m.with_root_set(r);
    let kids = m.nodes[0].children;
    assert(m.child_link_ok(0, kids.len() - 1));
    let last = kids.last() as int;
    assert(n.nodes[0].children == kids);
    assert forall|k: int| 0 <= k < kids.len() implies (n.element_pred())(kids[k]) == (m.element_pred())(
        kids[k],
    ) by {
        assert(m.child_link_ok(0, k));
        if kids[k] as int == last {
        } else {
            assert(n.nodes[kids[k] as int] == m.nodes[kids[k] as int]);
        }
    }
    lemma_filter_congruent(kids, n.element_pred(), m.element_pred());
}

} // verus!
