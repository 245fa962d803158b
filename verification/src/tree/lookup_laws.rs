use vstd::prelude::*;

use crate::tree::laws::lemma_dedup_by_prefix;
use crate::tree::model::{
    class_names_of, dedup_strs, split_spaces, xml_ns_uri, xml_prefix, DocModel, ATTRIBUTE_CODE, CDATA_CODE,
    ELEMENT_CODE, ENTITY_DECL_CODE, NAMESPACE_DECL_CODE, TEXT_CODE,
};

verus! {

/// The head of a filtered sequence is the first element that satisfies the
/// predicate, and the filtered sequence is empty when none does.
proof fn lemma_filter_head(s: Seq<usize>, p: spec_fn(usize) -> bool) -> (t: int)
    ensures
        s.filter(p).len() > 0 ==> {
            &&& 0 <= t < s.len()
            &&& s[t] == s.filter(p)[0]
            &&& p(s[t])
            &&& forall|t2: int| 0 <= t2 < t ==> !p(#[trigger] s[t2])
        },
        s.filter(p).len() == 0 ==> forall|t2: int| 0 <= t2 < s.len() ==> !p(#[trigger] s[t2]),
    decreases s.len(),
{
    reveal(Seq::filter);
    if s.len() == 0 {
        0
    } else {
        let w = s.drop_last();
        let t0 = lemma_filter_head(w, p);
        assert(s.filter(p) == if p(s.last()) {
            w.filter(p).push(s.last())
        } else {
            w.filter(p)
        });
        assert forall|t2: int| 0 <= t2 < w.len() implies w[t2] == s[t2] by {}
        if w.filter(p).len() > 0 {
            assert(s.filter(p)[0] == w.filter(p)[0]);
            t0
        } else {
            if p(s.last()) {
                assert(s.filter(p) =~= seq![s.last()]);
            }
            (s.len() - 1) as int
        }
    }
}

/// The next element sibling of a node is an element that comes after it
/// among its parent's children, with no element between them; there is
/// none exactly when no element comes after the node.
pub proof fn law_next_element_sibling_nearest(m: DocModel, i: int)
    requires
        m.wf(),
        0 <= i < m.nodes.len(),
    ensures
        m.next_element_sibling(i) matches Some(j) ==> {
            &&& m.nodes[j as int].kind == ELEMENT_CODE
            &&& m.nodes[j as int].parent == m.nodes[i].parent
            &&& m.nodes[i].pos < m.nodes[j as int].pos
            &&& forall|k: int|
                m.nodes[i].pos < k < m.nodes[j as int].pos ==> #[trigger] m.nodes[m.nodes[m.nodes[
                    i
                ].parent->0 as int].children[k] as int].kind != ELEMENT_CODE
        },
        m.next_element_sibling(i) is None ==> (m.nodes[i].parent matches Some(p) ==> forall|k: int|
            m.nodes[i].pos < k < m.nodes[p as int].children.len() ==> #[trigger] m.nodes[m.nodes[
                p as int
            ].children[k] as int].kind != ELEMENT_CODE),
{
    assert(m.parent_link_ok(i));
    if let Some(p) = m.nodes[i].parent {
        let sibs = m.nodes[p as int].children;
        let pos = m.nodes[i].pos as int;
        let fs = m.following_siblings(i);
        assert(fs == sibs.subrange(pos + 1, sibs.len() as int));
        let t = lemma_filter_head(fs, m.element_pred());
        if fs.filter(m.element_pred()).len() > 0 {
            let j = fs[t];
            assert(m.child_link_ok(p as int, pos + 1 + t));
            assert forall|k: int| pos < k < m.nodes[j as int].pos implies #[trigger] m.nodes[
                sibs[k] as int
            ].kind != ELEMENT_CODE by {
                assert(fs[k - pos - 1] == sibs[k]);
            }
        } else {
            assert forall|k: int| pos < k < sibs.len() implies #[trigger] m.nodes[
                sibs[k] as int
            ].kind != ELEMENT_CODE by {
                assert(fs[k - pos - 1] == sibs[k]);
            }
        }
    } else {
        assert(m.following_siblings(i).filter(m.element_pred()) =~= Seq::<usize>::empty()) by {
            reveal(Seq::filter);
        }
    }
}

/// The previous element sibling of a node is an element that comes before
/// it among its parent's children, with no element between them; there is
/// none exactly when no element comes before the node.
pub proof fn law_prev_element_sibling_nearest(m: DocModel, i: int)
    requires
        m.wf(),
        0 <= i < m.nodes.len(),
    ensures
        m.prev_element_sibling(i) matches Some(j) ==> {
            &&& m.nodes[j as int].kind == ELEMENT_CODE
            &&& m.nodes[j as int].parent == m.nodes[i].parent
            &&& m.nodes[j as int].pos < m.nodes[i].pos
            &&& forall|k: int|
                m.nodes[j as int].pos < k < m.nodes[i].pos ==> #[trigger] m.nodes[m.nodes[m.nodes[
                    i
                ].parent->0 as int].children[k] as int].kind != ELEMENT_CODE
        },
        m.prev_element_sibling(i) is None ==> (m.nodes[i].parent matches Some(p) ==> forall|k: int|
            0 <= k < m.nodes[i].pos ==> #[trigger] m.nodes[m.nodes[p as int].children[
                k
            ] as int].kind != ELEMENT_CODE),
{
    assert(m.parent_link_ok(i));
    if let Some(p) = m.nodes[i].parent {
        let sibs = m.nodes[p as int].children;
        let pos = m.nodes[i].pos as int;
        let ps = m.preceding_siblings(i);
        assert(ps == sibs.subrange(0, pos).reverse());
        assert forall|x: int| 0 <= x < pos implies ps[x] == sibs[pos - 1 - x] by {}
        let t = lemma_filter_head(ps, m.element_pred());
        if ps.filter(m.element_pred()).len() > 0 {
            let j = ps[t];
            assert(m.child_link_ok(p as int, pos - 1 - t));
            assert forall|k: int| m.nodes[j as int].pos < k < pos implies #[trigger] m.nodes[
                sibs[k] as int
            ].kind != ELEMENT_CODE by {
                assert(ps[pos - 1 - k] == sibs[k]);
            }
        } else {
            assert forall|k: int| 0 <= k < pos implies #[trigger] m.nodes[sibs[k] as int].kind
                != ELEMENT_CODE by {
                assert(ps[pos - 1 - k] == sibs[k]);
            }
        }
    } else {
        assert(m.preceding_siblings(i).filter(m.element_pred()) =~= Seq::<usize>::empty()) by {
            reveal(Seq::filter);
        }
    }
}

/// The pieces of a sequence of strings joined back with single spaces.
pub open spec fn join_spaces(pieces: Seq<Seq<char>>) -> Seq<char>
    decreases pieces.len(),
{
    if pieces.len() == 0 {
        Seq::empty()
    } else if pieces.len() == 1 {
        pieces[0]
    } else {
        join_spaces(pieces.drop_last()) + seq![' '] + pieces.last()
    }
}

/// Splitting a value at its spaces gives at least one piece, no piece holds
/// a space, and joining the pieces with single spaces gives the value back.
pub proof fn law_split_spaces_join(v: Seq<char>)
    ensures
        split_spaces(v).len() >= 1,
        forall|k: int| 0 <= k < split_spaces(v).len() ==> !(#[trigger] split_spaces(v)[k]).contains(' '),
        join_spaces(split_spaces(v)) == v,
    decreases v.len(),
{
    if v.len() == 0 {
        assert(split_spaces(v) =~= seq![Seq::<char>::empty()]);
        assert forall|k: int| 0 <= k < split_spaces(v).len() implies !(
        #[trigger] split_spaces(v)[k]).contains(' ') by {
            assert(split_spaces(v)[k] =~= Seq::<char>::empty());
        }
    } else {
        let w = v.drop_last();
        law_split_spaces_join(w);
        let prev = split_spaces(w);
        let c = v.last();
        assert(w.push(c) =~= v);
        if c == ' ' {
            let n = prev.push(Seq::<char>::empty());
            assert(split_spaces(v) == n);
            assert(n.drop_last() =~= prev);
            assert forall|k: int| 0 <= k < n.len() implies !(#[trigger] n[k]).contains(' ') by {
                if k < prev.len() {
                    assert(n[k] == prev[k]);
                } else {
                    assert(n[k] =~= Seq::<char>::empty());
                }
            }
            assert(join_spaces(n) =~= w + seq![' '] + Seq::<char>::empty());
        } else {
            let last = prev.last().push(c);
            let n = prev.update(prev.len() - 1, last);
            assert(split_spaces(v) == n);
            assert forall|k: int| 0 <= k < n.len() implies !(#[trigger] n[k]).contains(' ') by {
                if k < prev.len() - 1 {
                    assert(n[k] == prev[k]);
                } else {
                    assert(!prev[prev.len() - 1].contains(' '));
                    if last.contains(' ') {
                        let x = choose|x: int| 0 <= x < last.len() && last[x] == ' ';
                        if x < prev.last().len() {
                            assert(prev.last()[x] == ' ');
                        }
                    }
                }
            }
            if prev.len() == 1 {
                assert(join_spaces(n) == n[0]);
                assert(join_spaces(prev) == prev[0]);
            } else {
                assert(n.drop_last() =~= prev.drop_last());
                assert(join_spaces(n) == join_spaces(prev.drop_last()) + seq![' '] + last);
                assert(join_spaces(prev) == join_spaces(prev.drop_last()) + seq![' '] + prev.last());
            }
            assert(join_spaces(n) =~= join_spaces(prev).push(c));
        }
    }
}

/// A value without spaces is its own single class name, kept whole.
pub proof fn law_class_name_kept_whole(v: Seq<char>)
    requires
        v.len() > 0,
        !v.contains(' '),
    ensures
        class_names_of(Some(v)) == seq![v],
{
    law_split_spaces_join(v);
    let pieces = split_spaces(v);
    if pieces.len() > 1 {
        lemma_join_has_space(pieces);
    }
    assert(pieces.len() == 1);
    assert(pieces =~= seq![v]);
    reveal(Seq::filter);
    assert(seq![v].drop_last().filter(crate::tree::model::nonempty_str()) =~= Seq::<Seq<char>>::empty());
    assert(pieces.filter(crate::tree::model::nonempty_str()) =~= seq![v]);
    assert(seq![v].drop_last() =~= Seq::<Seq<char>>::empty());
    assert(dedup_strs(Seq::<Seq<char>>::empty()) == Seq::<Seq<char>>::empty());
    assert(dedup_strs(seq![v]) == Seq::<Seq<char>>::empty().push(v));
    assert(Seq::<Seq<char>>::empty().push(v) =~= seq![v]);
}

/// Joining two or more pieces puts a space in the result.
proof fn lemma_join_has_space(pieces: Seq<Seq<char>>)
    requires
        pieces.len() > 1,
    ensures
        join_spaces(pieces).contains(' '),
{
    let a = join_spaces(pieces.drop_last());
    let j = a + seq![' '] + pieces.last();
    assert(j[a.len() as int] == ' ');
}

/// The declarations made on a node or on any ancestor are among those that
/// a search for the namespaces in scope on the node goes through.
proof fn lemma_candidates_hold_ancestors(m: DocModel, i: int, h: int, k: int)
    requires
        m.in_subtree(i, h),
        0 <= i < m.nodes.len(),
        0 <= k < m.declared_here(h).len(),
    ensures
        m.ns_candidates(i).contains(m.declared_here(h)[k]),
    decreases i,
{
    if i == h {
        let here = m.declared_here(i);
        assert(m.ns_candidates(i).subrange(0, here.len() as int) =~= here);
        assert(m.ns_candidates(i)[k] == here[k]);
    } else {
        let q = m.nodes[i].parent->0 as int;
        lemma_candidates_hold_ancestors(m, q, h, k);
        let here = m.declared_here(i);
        let rest = m.ns_candidates(q);
        assert(m.ns_candidates(i) == here + rest);
        let x = choose|x: int| 0 <= x < rest.len() && rest[x] == m.declared_here(h)[k];
        assert((here + rest)[here.len() + x] == rest[x]);
    }
}

/// Every prefix declared on a node or on any of its ancestors is the prefix
/// of one of the namespaces in scope on the node.
pub proof fn law_ns_list_covers_ancestors(m: DocModel, i: int, h: int, k: int)
    requires
        m.wf(),
        0 <= i < m.nodes.len(),
        m.nodes[i].kind != NAMESPACE_DECL_CODE,
        m.in_subtree(i, h),
        0 <= k < m.declared_here(h).len(),
    ensures
        m.ns_list(i) matches Some(d) && m.prefixes_of(d).contains(
            m.nss[m.declared_here(h)[k] as int].prefix,
        ),
{
    let c = m.ns_candidates(i);
    lemma_candidates_hold_ancestors(m, i, h, k);
    lemma_dedup_by_prefix(m, c);
    let x = choose|x: int| 0 <= x < c.len() && c[x] == m.declared_here(h)[k];
    let d = m.dedup_by_prefix(c);
    assert(m.prefixes_of(d).contains(m.nss[c[x] as int].prefix));
    assert(d.len() > 0);
}

/// Node `x` lies on the way up from node `n` to its ancestor `h`, both ends
/// included.
pub open spec fn on_path(m: DocModel, n: int, x: int, h: int) -> bool {
    m.in_subtree(n, x) && m.in_subtree(x, h)
}

/// A node below `c` is also below the parent of `c`.
proof fn lemma_below_parent(m: DocModel, n: int, c: int)
    requires
        m.in_subtree(n, c),
        0 <= c < m.nodes.len(),
        m.nodes[c].parent is Some,
        m.nodes[c].parent->0 < c,
    ensures
        m.in_subtree(n, m.nodes[c].parent->0 as int),
    decreases n,
{
    let q = m.nodes[c].parent->0 as int;
    assert(m.in_subtree(q, q));
    if n != c && n != q {
        let r = m.nodes[n].parent->0 as int;
        lemma_below_parent(m, r, c);
    }
}

/// Walking up from `x` to `h` without meeting an entity or another
/// declaration of prefix `pf` reaches `h` in scope.
proof fn lemma_scope_from_path(m: DocModel, n: int, x: int, h: int, pf: Option<Seq<char>>)
    requires
        on_path(m, n, x, h),
        0 <= h < m.nodes.len(),
        forall|y: int|
            #[trigger] on_path(m, n, y, h) && y != h ==> !m.blocks_search(y) && !m.declares_prefix(y, pf),
    ensures
        m.in_scope(x, h, pf),
    decreases x,
{
    if x != h {
        let q = m.nodes[x].parent->0 as int;
        assert(!m.declares_prefix(x, pf));
        lemma_below_parent(m, n, x);
        lemma_scope_from_path(m, n, q, h, pf);
    }
}

/// The search by URI from `n`, having reached node `c` on the way up to
/// `h`, finds a declaration with a prefix.
proof fn lemma_href_walk(m: DocModel, n: int, c: int, h: int, s: usize, u: Seq<char>)
    requires
        m.wf(),
        0 <= n < m.nodes.len(),
        0 <= h < m.nodes.len(),
        on_path(m, n, c, h),
        m.declared_here(h).contains(s),
        m.nss[s as int].href == Some(u),
        m.nss[s as int].prefix is Some,
        forall|y: int|
            #[trigger] on_path(m, n, y, h) && y != h ==> !m.blocks_search(y) && !m.declares_prefix(
                y,
                m.nss[s as int].prefix,
            ),
        forall|y: int, j: int|
            on_path(m, n, y, h) && 0 <= j < m.declared_here(y).len() && m.nss[#[trigger] m.declared_here(
                y,
            )[j] as int].href == Some(u) ==> m.nss[m.declared_here(y)[j] as int].prefix is Some,
        forall|y: int|
            #[trigger] on_path(m, n, y, h) && y != n && m.is_element(y) && (m.nodes[y].ns matches Some(t)
                && m.nss[t as int].href == Some(u)) ==> m.nss[m.nodes[y].ns->0 as int].prefix is Some,
    ensures
        m.search_ns_href(n, c, u) matches Some(r) && m.nss[r as int].prefix is Some,
    decreases c,
{
    let is_attr = m.nodes[n].kind == ATTRIBUTE_CODE;
    let pred = m.href_pred(n, c, u, is_attr);
    let here = m.declared_here(c);
    let f = here.filter(pred);
    if c == h {
        lemma_scope_from_path(m, n, n, h, m.nss[s as int].prefix);
        let ks = choose|k: int| 0 <= k < here.len() && here[k] == s;
        assert(pred(here[ks]));
        here.lemma_filter_contains(pred, ks);
        assert(m.nodes[h].kind == ELEMENT_CODE);
    }
    if f.len() > 0 {
        here.lemma_filter_pred(pred, 0);
        here.lemma_filter_contains_rev(pred, f[0]);
        let j = choose|j: int| 0 <= j < here.len() && here[j] == f[0];
        assert(m.nss[m.declared_here(c)[j] as int].href == Some(u));
    } else if m.own_ns_hit(n, c, pred) is Some {
        assert(m.nodes[c].ns matches Some(t) && m.nss[t as int].href == Some(u));
    } else {
        assert(c != h);
        let q = m.nodes[c].parent->0 as int;
        lemma_below_parent(m, n, c);
        lemma_href_walk(m, n, q, h, s, u);
    }
}

/// Looking up the prefix of a URI that an ancestor declares with a prefix
/// finds one, however far up the ancestor is, when nothing on the way up
/// stops the search (an entity, another declaration of that prefix) or
/// binds the URI without a prefix.
pub proof fn law_prefix_lookup_reaches_ancestors(m: DocModel, n: int, h: int, k: int, u: Seq<char>)
    requires
        m.wf(),
        0 <= n < m.nodes.len(),
        m.nodes[n].kind != NAMESPACE_DECL_CODE,
        0 <= h < m.nodes.len(),
        m.in_subtree(n, h),
        0 <= k < m.declared_here(h).len(),
        m.nss[m.declared_here(h)[k] as int].href == Some(u),
        m.nss[m.declared_here(h)[k] as int].prefix is Some,
        u.len() > 0,
        u != xml_ns_uri(),
        forall|y: int|
            #[trigger] on_path(m, n, y, h) && y != h ==> !m.blocks_search(y) && !m.declares_prefix(
                y,
                m.nss[m.declared_here(h)[k] as int].prefix,
            ),
        forall|y: int, j: int|
            on_path(m, n, y, h) && 0 <= j < m.declared_here(y).len() && m.nss[#[trigger] m.declared_here(
                y,
            )[j] as int].href == Some(u) ==> m.nss[m.declared_here(y)[j] as int].prefix is Some,
        forall|y: int|
            #[trigger] on_path(m, n, y, h) && y != n && m.is_element(y) && (m.nodes[y].ns matches Some(t)
                && m.nss[t as int].href == Some(u)) ==> m.nss[m.nodes[y].ns->0 as int].prefix is Some,
    ensures
        m.lookup_prefix(n, u) is Some,
{
    let s = m.declared_here(h)[k];
    assert(m.declared_here(h).contains(s));
    lemma_href_walk(m, n, n, h, s, u);
}

/// `a` occurs in `whole` as a contiguous piece.
pub open spec fn occurs_in(a: Seq<char>, whole: Seq<char>) -> bool {
    exists|i: int| 0 <= i && i + a.len() <= whole.len() && #[trigger] whole.subrange(i, i + a.len()) == a
}

/// A child whose text is its whole string value: an element, or a text or
/// CDATA node without children.
pub open spec fn text_child(m: DocModel, c: int) -> bool {
    ||| m.nodes[c].kind == ELEMENT_CODE
    ||| ((m.nodes[c].kind == TEXT_CODE || m.nodes[c].kind == CDATA_CODE) && m.nodes[c].children.len() == 0)
}

/// `x + a + y` holds `a` as a contiguous piece.
proof fn lemma_occurs_mid(x: Seq<char>, a: Seq<char>, y: Seq<char>)
    ensures
        occurs_in(a, x + a + y),
{
    let w = x + a + y;
    assert(w.subrange(x.len() as int, (x.len() + a.len()) as int) =~= a);
}

/// The text of the first `n2` children extends that of the first `j`.
proof fn lemma_children_text_extend(m: DocModel, p: int, j: int, n2: int) -> (y: Seq<char>)
    requires
        0 <= p < m.nodes.len(),
        0 <= j <= n2 <= m.nodes[p].children.len(),
    ensures
        m.children_text(p, n2) == m.children_text(p, j) + y,
    decreases n2 - j,
{
    if n2 == j {
        assert(m.children_text(p, j) + Seq::<char>::empty() =~= m.children_text(p, j));
        Seq::empty()
    } else {
        let y0 = lemma_children_text_extend(m, p, j, n2 - 1);
        let c = m.nodes[p].children[n2 - 1] as int;
        let piece = if p < c < m.nodes.len() {
            m.subtree_text(c)
        } else {
            Seq::empty()
        };
        assert(m.children_text(p, n2) == m.children_text(p, n2 - 1) + piece);
        assert(m.children_text(p, j) + (y0 + piece) =~= m.children_text(p, j) + y0 + piece);
        y0 + piece
    }
}

/// The string value of a text child is the text of its subtree.
proof fn lemma_text_child_value(m: DocModel, c: int)
    requires
        0 <= c < m.nodes.len(),
        text_child(m, c),
    ensures
        m.string_value(c) == m.subtree_text(c),
{
    if m.nodes[c].kind != ELEMENT_CODE {
        assert(m.children_text(c, 0) == Seq::<char>::empty());
        assert(m.walks_below(c));
        assert(m.subtree_text(c) =~= m.own_text(c));
    }
}

/// The string value of an element holds the string value of each of its
/// element children, and of each text or CDATA child, in full, wherever the
/// child stands among the children, when the walk goes below the element
/// (its first child, if any, is not an entity declaration).
pub proof fn law_content_holds_each_child(m: DocModel, p: int, k: int)
    requires
        m.wf(),
        0 <= p < m.nodes.len(),
        m.nodes[p].kind == ELEMENT_CODE,
        !(m.nodes[p].children.len() > 0 && m.nodes[m.nodes[p].children[0] as int].kind
            == ENTITY_DECL_CODE),
        0 <= k < m.nodes[p].children.len(),
        text_child(m, m.nodes[p].children[k] as int),
    ensures
        occurs_in(m.string_value(m.nodes[p].children[k] as int), m.string_value(p)),
{
    let n = m.nodes[p].children.len() as int;
    let c = m.nodes[p].children[k] as int;
    assert(m.child_link_ok(p, k));
    lemma_text_child_value(m, c);
    let y = lemma_children_text_extend(m, p, k + 1, n);
    assert(m.children_text(p, k + 1) == m.children_text(p, k) + m.subtree_text(c));
    assert(m.string_value(p) == m.own_text(p) + m.children_text(p, n));
    let x = m.own_text(p) + m.children_text(p, k);
    assert(m.string_value(p) =~= x + m.subtree_text(c) + y);
    lemma_occurs_mid(x, m.subtree_text(c), y);
}

/// Two neighbouring children of an element, each an element or a text or
/// CDATA node, give their string values one right after the other in the
/// string value of the element, when the walk goes below it.
pub proof fn law_content_keeps_children_in_order(m: DocModel, p: int, k: int)
    requires
        m.wf(),
        0 <= p < m.nodes.len(),
        m.nodes[p].kind == ELEMENT_CODE,
        !(m.nodes[p].children.len() > 0 && m.nodes[m.nodes[p].children[0] as int].kind
            == ENTITY_DECL_CODE),
        0 <= k && k + 1 < m.nodes[p].children.len(),
        text_child(m, m.nodes[p].children[k] as int),
        text_child(m, m.nodes[p].children[k + 1] as int),
    ensures
        occurs_in(
            m.string_value(m.nodes[p].children[k] as int) + m.string_value(
                m.nodes[p].children[k + 1] as int,
            ),
            m.string_value(p),
        ),
{
    let n = m.nodes[p].children.len() as int;
    let a = m.nodes[p].children[k] as int;
    let b = m.nodes[p].children[k + 1] as int;
    assert(m.child_link_ok(p, k));
    assert(m.child_link_ok(p, k + 1));
    lemma_text_child_value(m, a);
    lemma_text_child_value(m, b);
    let y = lemma_children_text_extend(m, p, k + 2, n);
    assert(m.children_text(p, k + 1) == m.children_text(p, k) + m.subtree_text(a));
    assert(m.children_text(p, k + 2) == m.children_text(p, k + 1) + m.subtree_text(b));
    assert(m.string_value(p) == m.own_text(p) + m.children_text(p, n));
    let x = m.own_text(p) + m.children_text(p, k);
    let ab = m.subtree_text(a) + m.subtree_text(b);
    assert(m.string_value(p) =~= x + ab + y);
    lemma_occurs_mid(x, ab, y);
}

/// Two documents that agree on every node after `lo` give the same text for
/// the subtree of each such node.
proof fn lemma_subtree_text_agree(m: DocModel, n: DocModel, lo: int, x: int)
    requires
        m.wf(),
        m.nodes.len() <= n.nodes.len(),
        0 <= lo < x < m.nodes.len(),
        forall|y: int| lo < y < m.nodes.len() ==> #[trigger] n.nodes[y] == m.nodes[y],
    ensures
        n.subtree_text(x) == m.subtree_text(x),
    decreases m.nodes.len() - x, m.nodes[x].children.len() + 1,
{
    let cnt = m.nodes[x].children.len() as int;
    assert(n.nodes[x] == m.nodes[x]);
    if cnt > 0 {
        assert(m.child_link_ok(x, 0));
        let c0 = m.nodes[x].children[0] as int;
        assert(n.nodes[c0] == m.nodes[c0]);
    }
    lemma_children_text_agree(m, n, lo, x, cnt);
}

/// Two documents that agree on every node after `lo` give the same text for
/// the first `k` children of each such node.
proof fn lemma_children_text_agree(m: DocModel, n: DocModel, lo: int, x: int, k: int)
    requires
        m.wf(),
        m.nodes.len() <= n.nodes.len(),
        0 <= lo < x < m.nodes.len(),
        0 <= k <= m.nodes[x].children.len(),
        forall|y: int| lo < y < m.nodes.len() ==> #[trigger] n.nodes[y] == m.nodes[y],
    ensures
        n.children_text(x, k) == m.children_text(x, k),
    decreases m.nodes.len() - x, k,
{
    assert(n.nodes[x] == m.nodes[x]);
    if k > 0 {
        lemma_children_text_agree(m, n, lo, x, k - 1);
        assert(m.child_link_ok(x, k - 1));
        let c = m.nodes[x].children[k - 1] as int;
        lemma_subtree_text_agree(m, n, lo, c);
    }
}

/// Adding a text node as the last child of an element appends its content
/// to the string value of the element, and changes nothing else of it.
pub proof fn law_text_child_appends(
    m: DocModel,
    p: int,
    name: Option<Seq<char>>,
    content: Option<Seq<char>>,
)
    requires
        m.wf(),
        0 <= p < m.nodes.len(),
        m.nodes[p].kind == ELEMENT_CODE,
        !(m.nodes[p].children.len() > 0 && m.nodes[m.nodes[p].children[0] as int].kind
            == ENTITY_DECL_CODE),
        m.nodes.len() < usize::MAX,
    ensures
        m.with_new_child(p, TEXT_CODE, name, content).string_value(p) == m.string_value(p) + match content {
            Some(t) => t,
            None => Seq::<char>::empty(),
        },
{
    let n = m.with_new_child(p, TEXT_CODE, name, content);
    let cnt = m.nodes[p].children.len() as int;
    let id = m.nodes.len() as int;
    assert forall|y: int| p < y < m.nodes.len() implies #[trigger] n.nodes[y] == m.nodes[y] by {}
    assert forall|k: int| 0 <= k <= cnt implies n.children_text(p, k) == m.children_text(p, k) by {
        lemma_prefix_children_agree(m, n, p, k);
    }
    assert(n.nodes[p].children == m.nodes[p].children.push(id as usize));
    assert(n.nodes[id].children.len() == 0);
    assert(n.children_text(id, 0) == Seq::<char>::empty());
    assert(n.subtree_text(id) =~= n.own_text(id));
    assert(n.children_text(p, cnt + 1) == n.children_text(p, cnt) + n.subtree_text(id));
    if cnt > 0 {
        assert(n.nodes[p].children[0] == m.nodes[p].children[0]);
        assert(m.child_link_ok(p, 0));
        let c0 = m.nodes[p].children[0] as int;
        assert(n.nodes[c0] == m.nodes[c0]);
    }
    assert(n.walks_below(p));
    assert(n.string_value(p) =~= m.string_value(p) + match content {
        Some(t) => t,
        None => Seq::<char>::empty(),
    });
}

/// The text of the first `k` old children of `p` is the same once a node
/// is added as last child of `p`.
proof fn lemma_prefix_children_agree(m: DocModel, n: DocModel, p: int, k: int)
    requires
        m.wf(),
        0 <= p < m.nodes.len(),
        n.nodes.len() == m.nodes.len() + 1,
        0 <= k <= m.nodes[p].children.len(),
        n.nodes[p].children.len() == m.nodes[p].children.len() + 1,
        forall|j: int| 0 <= j < m.nodes[p].children.len() ==> n.nodes[p].children[j] == m.nodes[p].children[j],
        forall|y: int| p < y < m.nodes.len() ==> #[trigger] n.nodes[y] == m.nodes[y],
    ensures
        n.children_text(p, k) == m.children_text(p, k),
    decreases k,
{
    if k > 0 {
        lemma_prefix_children_agree(m, n, p, k - 1);
        assert(m.child_link_ok(p, k - 1));
        let c = m.nodes[p].children[k - 1] as int;
        lemma_subtree_text_agree(m, n, p, c);
    }
}

/// The search by prefix from `n`, having reached node `c` on the way up to
/// `h`, finds the declaration `s` that `h` makes.
proof fn lemma_prefix_walk(m: DocModel, n: int, c: int, h: int, s: usize, p: Seq<char>)
    requires
        m.wf(),
        0 <= n < m.nodes.len(),
        0 <= h < m.nodes.len(),
        on_path(m, n, c, h),
        m.declared_here(h).contains(s),
        m.nss[s as int].prefix == Some(p),
        m.nss[s as int].href is Some,
        forall|y: int|
            #[trigger] on_path(m, n, y, h) && y != h ==> !m.blocks_search(y) && !m.declares_prefix(
                y,
                Some(p),
            ),
        forall|y: int|
            #[trigger] on_path(m, n, y, h) && y != n && y != h && m.is_element(y) && (
            m.nodes[y].ns matches Some(t)) ==> m.nss[m.nodes[y].ns->0 as int].prefix != Some(p),
    ensures
        m.search_ns_prefix(n, c, p) == Some(s),
    decreases c,
{
    let pred = m.prefix_pred(p);
    let here = m.declared_here(c);
    let f = here.filter(pred);
    if c == h {
        let ks = choose|k: int| 0 <= k < here.len() && here[k] == s;
        assert(pred(here[ks]));
        here.lemma_filter_contains(pred, ks);
        here.lemma_filter_pred(pred, 0);
        here.lemma_filter_contains_rev(pred, f[0]);
        let j = choose|j: int| 0 <= j < here.len() && here[j] == f[0];
        assert(m.nodes[h].kind == ELEMENT_CODE);
        assert(m.decl_prefixes_distinct(h));
        if j < ks {
            assert(m.nss[m.nodes[h].ns_def[j] as int].prefix != m.nss[m.nodes[h].ns_def[ks] as int].prefix);
        } else if ks < j {
            assert(m.nss[m.nodes[h].ns_def[ks] as int].prefix != m.nss[m.nodes[h].ns_def[j] as int].prefix);
        }
    } else {
        if f.len() > 0 {
            here.lemma_filter_pred(pred, 0);
            here.lemma_filter_contains_rev(pred, f[0]);
            let j = choose|j: int| 0 <= j < here.len() && here[j] == f[0];
            assert(m.nss[m.declared_here(c)[j] as int].prefix == Some(p));
            assert(m.declares_prefix(c, Some(p)));
        }
        let q = m.nodes[c].parent->0 as int;
        lemma_below_parent(m, n, c);
        lemma_prefix_walk(m, n, q, h, s, p);
    }
}

/// Looking up the URI of a prefix that an ancestor declares gives the URI
/// of that declaration, however far up the ancestor is, when nothing on the
/// way up stops the search (an entity, another declaration of the prefix,
/// an element whose own namespace has the prefix).
pub proof fn law_uri_lookup_reaches_ancestors(m: DocModel, n: int, h: int, k: int, p: Seq<char>)
    requires
        m.wf(),
        0 <= n < m.nodes.len(),
        0 <= h < m.nodes.len(),
        m.nodes[n].kind != NAMESPACE_DECL_CODE,
        m.in_subtree(n, h),
        0 <= k < m.declared_here(h).len(),
        m.nss[m.declared_here(h)[k] as int].prefix == Some(p),
        m.nss[m.declared_here(h)[k] as int].href is Some,
        p.len() > 0,
        p != xml_prefix(),
        forall|y: int|
            #[trigger] on_path(m, n, y, h) && y != h ==> !m.blocks_search(y) && !m.declares_prefix(
                y,
                Some(p),
            ),
        forall|y: int|
            #[trigger] on_path(m, n, y, h) && y != n && y != h && m.is_element(y) && (
            m.nodes[y].ns matches Some(t)) ==> m.nss[m.nodes[y].ns->0 as int].prefix != Some(p),
    ensures
        m.lookup_uri(n, p) == m.nss[m.declared_here(h)[k] as int].href,
{
    let s = m.declared_here(h)[k];
    assert(m.declared_here(h).contains(s));
    lemma_prefix_walk(m, n, n, h, s, p);
}

/// The first element child of a node is an element child with no element
/// before it among the children; there is none exactly when no child is an
/// element. The last element child is the element child with no element
/// after it.
pub proof fn law_first_last_element_child(m: DocModel, i: int)
    requires
        m.wf(),
        0 <= i < m.nodes.len(),
    ensures
        m.first_element_child(i) matches Some(j) ==> {
            &&& m.nodes[j as int].kind == ELEMENT_CODE
            &&& m.nodes[j as int].parent == Some(i as usize)
            &&& forall|k: int| 0 <= k < m.nodes[j as int].pos ==> #[trigger] m.nodes[m.nodes[i].children[
                k
            ] as int].kind != ELEMENT_CODE
        },
        m.last_element_child(i) matches Some(j) ==> {
            &&& m.nodes[j as int].kind == ELEMENT_CODE
            &&& m.nodes[j as int].parent == Some(i as usize)
            &&& forall|k: int|
                m.nodes[j as int].pos < k < m.nodes[i].children.len() ==> #[trigger] m.nodes[m.nodes[
                    i
                ].children[k] as int].kind != ELEMENT_CODE
        },
        m.first_element_child(i) is None <==> m.last_element_child(i) is None,
        m.first_element_child(i) is None ==> forall|k: int|
            0 <= k < m.nodes[i].children.len() ==> #[trigger] m.nodes[m.nodes[i].children[k] as int].kind
                != ELEMENT_CODE,
{
    let kids = m.nodes[i].children;
    let rk = kids.reverse();
    let t = lemma_filter_head(kids, m.element_pred());
    let t2 = lemma_filter_head(rk, m.element_pred());
    assert forall|x: int| 0 <= x < kids.len() implies rk[x] == kids[kids.len() - 1 - x] by {}
    if kids.filter(m.element_pred()).len() > 0 {
        assert(m.child_link_ok(i, t));
        if rk.filter(m.element_pred()).len() == 0 {
            assert(!(m.element_pred())(rk[kids.len() - 1 - t]));
        }
    }
    if rk.filter(m.element_pred()).len() > 0 {
        let j = rk[t2];
        assert(m.child_link_ok(i, kids.len() - 1 - t2));
        assert forall|k: int| m.nodes[j as int].pos < k < kids.len() implies #[trigger] m.nodes[
            kids[k] as int
        ].kind != ELEMENT_CODE by {
            assert(rk[kids.len() - 1 - k] == kids[k]);
        }
        if kids.filter(m.element_pred()).len() == 0 {
            assert(!(m.element_pred())(kids[kids.len() - 1 - t2]));
        }
    }
}

} // verus!
