use libxml_core::tree::document::xmlNodeRecursivelyRemoveNs;
use libxml_core::tree::{Document, NodeType};

/// `top` (1) declares `t` = `urn:t` and is in it; its child `mid` (2)
/// declares `m` = `urn:m`, is in it and has attribute `m:a` (0); `mid` has
/// a child `leaf` (3) in `urn:t` with attribute `t:b` (1); `top` has
/// attribute `t:c` (2).
fn sample() -> Document {
    let mut doc = Document::new(None).unwrap();
    let d = doc.as_doc_mut();
    let top = d.new_child(0, NodeType::ElementNode, Some("top"), None);
    let t = d.new_ns(top, Some("urn:t"), Some("t")).unwrap();
    d.set_ns(top, Some(t));
    let mid = d.new_child(top, NodeType::ElementNode, Some("mid"), None);
    let m = d.new_ns(mid, Some("urn:m"), Some("m")).unwrap();
    d.set_ns(mid, Some(m));
    d.new_prop(mid, Some(m), "a", "1");
    let leaf = d.new_child(mid, NodeType::ElementNode, Some("leaf"), None);
    d.set_ns(leaf, Some(t));
    d.new_prop(leaf, Some(t), "b", "2");
    d.new_prop(top, Some(t), "c", "3");
    d.new_child(leaf, NodeType::TextNode, Some("text"), Some("x"));
    doc
}

#[test]
fn removing_namespaces_below_a_node() {
    let mut doc = sample();
    xmlNodeRecursivelyRemoveNs(doc.as_doc_mut(), 2);
    let d = doc.as_doc_ref();
    let top = d.get_node(1).unwrap();
    let mid = d.get_node(2).unwrap();
    let leaf = d.get_node(3).unwrap();
    // Above the subtree nothing changes.
    assert_eq!(top.get_namespace().unwrap().get_href(), Some("urn:t"));
    assert_eq!(top.get_namespace_declarations().len(), 1);
    assert!(top.get_property_node("c").unwrap().get_namespace().is_some());
    // Inside it every namespace is gone.
    assert!(mid.get_namespace().is_none());
    assert!(mid.get_namespace_declarations().is_empty());
    assert!(mid.get_property_node("a").unwrap().get_namespace().is_none());
    assert!(leaf.get_namespace().is_none());
    assert!(leaf.get_property_node("b").unwrap().get_namespace().is_none());
    // The attributes can now be found without a namespace.
    assert!(leaf.has_property_no_ns("b"));
    assert!(!leaf.has_property_ns("b", "urn:t"));
    // The shape of the tree is kept.
    assert_eq!(mid.get_parent().unwrap().as_ptr(), 1);
    assert_eq!(leaf.get_content().unwrap().to_string(), "x");
    // `m` is no longer declared, `t` still is.
    assert_eq!(leaf.lookup_namespace_uri("m"), None);
    assert_eq!(leaf.lookup_namespace_uri("t"), Some("urn:t"));
}

#[test]
fn removing_namespaces_twice_changes_nothing_more() {
    let mut doc = sample();
    xmlNodeRecursivelyRemoveNs(doc.as_doc_mut(), 1);
    xmlNodeRecursivelyRemoveNs(doc.as_doc_mut(), 1);
    let d = doc.as_doc_ref();
    for i in 1..4 {
        let n = d.get_node(i).unwrap();
        assert!(n.get_namespace().is_none());
        assert!(n.get_namespace_declarations().is_empty());
        for a in n.iter_properties() {
            assert!(a.get_namespace().is_none());
        }
    }
    assert!(d.get_node(3).unwrap().get_namespaces(d).is_none());
}

#[test]
fn removing_namespaces_of_a_leaf() {
    let mut doc = sample();
    xmlNodeRecursivelyRemoveNs(doc.as_doc_mut(), 4);
    let d = doc.as_doc_ref();
    assert_eq!(d.get_node(3).unwrap().get_namespace().unwrap().get_href(), Some("urn:t"));
    assert_eq!(d.get_node(2).unwrap().get_namespace_declarations().len(), 1);
}
