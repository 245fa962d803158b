use libxml_core::tree::{Document, NodeType};

/// `outer` (node 1) declares `a` = `urn:a1`, a default namespace
/// `urn:d`, and `b` = `urn:b`; its child `inner` (node 2) declares
/// `a` = `urn:a2` and sits in namespace `urn:a2`; `inner` has a text child
/// (node 3).
fn sample() -> Document {
    let mut doc = Document::new(None).unwrap();
    let d = doc.as_doc_mut();
    let outer = d.new_child(0, NodeType::ElementNode, Some("outer"), None);
    assert_eq!(d.new_ns(outer, Some("urn:a1"), Some("a")), Some(0));
    assert_eq!(d.new_ns(outer, Some("urn:d"), None), Some(1));
    assert_eq!(d.new_ns(outer, Some("urn:b"), Some("b")), Some(2));
    let inner = d.new_child(outer, NodeType::ElementNode, Some("inner"), None);
    assert_eq!(d.new_ns(inner, Some("urn:a2"), Some("a")), Some(3));
    d.set_ns(inner, Some(3));
    d.new_child(inner, NodeType::TextNode, Some("text"), Some("t"));
    doc
}

#[test]
fn declarations_of_a_node() {
    let doc = sample();
    let d = doc.as_doc_ref();
    let outer = d.get_node(1).unwrap();
    let decls = outer.get_namespace_declarations();
    let ids: Vec<usize> = decls.iter().map(|n| n.as_ptr()).collect();
    assert_eq!(ids, vec![0, 1, 2]);
    assert_eq!(decls[0].get_prefix(), Some("a"));
    assert_eq!(decls[0].get_href(), Some("urn:a1"));
    assert_eq!(decls[1].get_prefix(), None);
    assert_eq!(decls[0].get_next().unwrap().as_ptr(), 1);
    assert!(decls[2].get_next().is_none());
    let text = d.get_node(3).unwrap();
    assert!(text.get_namespace_declarations().is_empty());
}

#[test]
fn empty_declarations_are_left_out() {
    let mut doc = Document::new(None).unwrap();
    let d = doc.as_doc_mut();
    let e = d.new_child(0, NodeType::ElementNode, Some("e"), None);
    assert_eq!(d.new_ns(e, None, None), Some(0));
    assert_eq!(d.new_ns(e, Some("urn:x"), Some("x")), Some(1));
    let decls = d.get_node(e).unwrap().get_namespace_declarations();
    assert_eq!(decls.len(), 1);
    assert_eq!(decls[0].as_ptr(), 1);
}

#[test]
fn namespace_of_a_node() {
    let doc = sample();
    let d = doc.as_doc_ref();
    let inner = d.get_node(2).unwrap();
    let ns = inner.get_namespace().unwrap();
    assert_eq!(ns.as_ptr(), 3);
    assert_eq!(ns.get_href(), Some("urn:a2"));
    assert!(d.get_node(1).unwrap().get_namespace().is_none());
}

#[test]
fn namespaces_in_scope_nearest_first_one_per_prefix() {
    let doc = sample();
    let d = doc.as_doc_ref();
    let inner = d.get_node(2).unwrap();
    let list = inner.get_namespaces(d).unwrap();
    let ids: Vec<usize> = list.as_slice().iter().map(|n| n.as_ptr()).collect();
    assert_eq!(ids, vec![3, 1, 2]);
    assert_eq!(list.len(), 3);
    assert_eq!(list.get(0).get_href(), Some("urn:a2"));
    let outer = d.get_node(1).unwrap();
    let ids: Vec<usize> = outer.get_namespaces(d).unwrap().as_slice().iter().map(|n| n.as_ptr()).collect();
    assert_eq!(ids, vec![0, 1, 2]);
    // A text node declares nothing but sees its ancestors' declarations.
    let text = d.get_node(3).unwrap();
    assert_eq!(text.get_namespaces(d).unwrap().len(), 3);
    // Nothing is in scope on the document node.
    assert!(d.get_node(0).unwrap().get_namespaces(d).is_none());
}

#[test]
fn prefixes_in_scope_are_distinct() {
    let doc = sample();
    let d = doc.as_doc_ref();
    for i in 0..4 {
        if let Some(list) = d.get_node(i).unwrap().get_namespaces(d) {
            let prefixes: Vec<Option<&str>> = list.as_slice().iter().map(|n| n.get_prefix()).collect();
            for x in 0..prefixes.len() {
                for y in (x + 1)..prefixes.len() {
                    assert_ne!(prefixes[x], prefixes[y]);
                }
            }
        }
    }
}

#[test]
fn lookup_uri_by_prefix() {
    let doc = sample();
    let d = doc.as_doc_ref();
    let inner = d.get_node(2).unwrap();
    assert_eq!(inner.lookup_namespace_uri("a"), Some("urn:a2"));
    assert_eq!(inner.lookup_namespace_uri("b"), Some("urn:b"));
    assert_eq!(inner.lookup_namespace_uri("c"), None);
    assert_eq!(inner.lookup_namespace_uri(""), None);
    assert_eq!(inner.lookup_namespace_uri("xml"), Some("http://www.w3.org/XML/1998/namespace"));
    let outer = d.get_node(1).unwrap();
    assert_eq!(outer.lookup_namespace_uri("a"), Some("urn:a1"));
    let text = d.get_node(3).unwrap();
    assert_eq!(text.lookup_namespace_uri("a"), Some("urn:a2"));
}

#[test]
fn lookup_prefix_by_uri() {
    let doc = sample();
    let d = doc.as_doc_ref();
    let inner = d.get_node(2).unwrap();
    assert_eq!(inner.lookup_namespace_prefix("urn:a2"), Some("a"));
    assert_eq!(inner.lookup_namespace_prefix("urn:b"), Some("b"));
    // `a` is declared again below `outer`, so `urn:a1` has no prefix here.
    assert_eq!(inner.lookup_namespace_prefix("urn:a1"), None);
    // The default namespace is found, and has no prefix.
    assert_eq!(inner.lookup_namespace_prefix("urn:d"), None);
    assert_eq!(inner.lookup_namespace_prefix(""), None);
    assert_eq!(inner.lookup_namespace_prefix("http://www.w3.org/XML/1998/namespace"), Some("xml"));
    let outer = d.get_node(1).unwrap();
    assert_eq!(outer.lookup_namespace_prefix("urn:a1"), Some("a"));
}

#[test]
fn namespace_equality_compares_prefix_and_uri() {
    let mut doc = Document::new(None).unwrap();
    let d = doc.as_doc_mut();
    let e = d.new_child(0, NodeType::ElementNode, Some("e"), None);
    let f = d.new_child(0, NodeType::ElementNode, Some("f"), None);
    let g = d.new_child(0, NodeType::ElementNode, Some("g"), None);
    d.new_ns(e, Some("urn:x"), Some("x")).unwrap();
    d.new_ns(f, Some("urn:x"), Some("x")).unwrap();
    d.new_ns(g, Some("urn:y"), Some("x")).unwrap();
    let de = d.get_node(e).unwrap().get_namespace_declarations();
    let df = d.get_node(f).unwrap().get_namespace_declarations();
    let dg = d.get_node(g).unwrap().get_namespace_declarations();
    assert!(de[0].eq(&df[0]));
    assert!(!de[0].eq(&dg[0]));
    assert!(dg[0].eq(&dg[0]));
}

#[test]
fn lookup_sees_the_namespace_of_an_ancestor() {
    let mut doc = Document::new(None).unwrap();
    let d = doc.as_doc_mut();
    let r = d.new_child(0, NodeType::ElementNode, Some("r"), None);
    let x = d.new_child(r, NodeType::ElementNode, Some("x"), None);
    let p = d.new_ns(x, Some("urn:p"), Some("p")).unwrap();
    let y = d.new_child(r, NodeType::ElementNode, Some("y"), None);
    d.set_ns(y, Some(p));
    let z = d.new_child(y, NodeType::ElementNode, Some("z"), None);
    let zn = d.get_node(z).unwrap();
    assert_eq!(zn.lookup_namespace_uri("p"), Some("urn:p"));
    assert_eq!(zn.lookup_namespace_prefix("urn:p"), Some("p"));
    // A node's own namespace is not searched, only its ancestors'.
    let yn = d.get_node(y).unwrap();
    assert_eq!(yn.lookup_namespace_uri("p"), None);
    assert_eq!(yn.lookup_namespace_prefix("urn:p"), None);
}

#[test]
fn prefix_found_for_a_uri_looks_up_to_that_uri() {
    let doc = sample();
    let d = doc.as_doc_ref();
    for i in 0..4 {
        let n = d.get_node(i).unwrap();
        for u in ["urn:a1", "urn:a2", "urn:b", "urn:d", "urn:none", "http://www.w3.org/XML/1998/namespace"] {
            if let Some(p) = n.lookup_namespace_prefix(u) {
                assert_eq!(n.lookup_namespace_uri(p), Some(u));
            }
        }
        assert_eq!(n.lookup_namespace_uri(""), None);
    }
}

#[test]
fn declaring_a_prefix_twice_or_the_xml_namespace_is_refused() {
    let mut doc = Document::new(None).unwrap();
    let d = doc.as_doc_mut();
    let e = d.new_child(0, NodeType::ElementNode, Some("e"), None);
    assert_eq!(d.new_ns(e, Some("urn:x"), Some("x")), Some(0));
    assert_eq!(d.new_ns(e, Some("urn:y"), Some("x")), None);
    assert_eq!(d.new_ns(e, Some("urn:d"), None), Some(1));
    assert_eq!(d.new_ns(e, Some("urn:other"), None), None);
    assert_eq!(d.new_ns(e, Some("http://www.w3.org/XML/1998/namespace"), Some("xml")), None);
    let decls = d.get_node(e).unwrap().get_namespace_declarations();
    assert_eq!(decls.len(), 2);
    assert_eq!(decls[0].get_href(), Some("urn:x"));
}
