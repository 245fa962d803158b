use libxml_core::error::Error;
use libxml_core::tree::{Document, NodeType};

#[test]
fn new_document_has_no_root() {
    let doc = Document::new(None).unwrap();
    let d = doc.as_doc_ref();
    assert!(d.get_root_element().is_none());
    let docnode = d.get_node(0).unwrap();
    assert_eq!(docnode.get_type(), Some(NodeType::DocumentNode));
    assert!(docnode.get_child_nodes().is_empty());
    assert!(d.get_node(1).is_none());
}

#[test]
fn new_document_with_version() {
    let doc = Document::new(Some("1.1")).unwrap();
    assert!(doc.as_doc_ref().get_root_element().is_none());
}

#[test]
fn new_document_rejects_nul_in_version() {
    match Document::new(Some("1.\0")) {
        Err(e) => assert_eq!(e, Error::CStr(2)),
        Ok(_) => panic!("a version with a NUL byte is refused"),
    }
    match Document::new(Some("\0")) {
        Err(e) => assert_eq!(e, Error::CStr(0)),
        Ok(_) => panic!("a version with a NUL byte is refused"),
    }
}

#[test]
fn set_root_element_reads_back() {
    let mut doc = Document::new(None).unwrap();
    let d = doc.as_doc_mut();
    let a = d.new_node(NodeType::ElementNode, Some("a"), None);
    assert_eq!(a.node_ptr(), 1);
    let prev = d.set_root_element(a).unwrap();
    assert!(prev.is_none());
    assert_eq!(d.get_root_element().unwrap().as_ptr(), 1);
    assert_eq!(d.get_root_element().unwrap().get_name(), Some("a"));
    assert_eq!(d.get_root_element_mut().unwrap().as_ptr(), 1);

    let b = d.new_node(NodeType::ElementNode, Some("b"), None);
    assert_eq!(b.node_ptr(), 2);
    let prev = d.set_root_element(b).unwrap().unwrap();
    assert_eq!(prev.node_ptr(), 1);
    let root = d.get_root_element().unwrap();
    assert_eq!(root.as_ptr(), 2);
    assert_eq!(root.get_name(), Some("b"));
    // The replaced root has left the tree.
    assert!(d.get_node(1).unwrap().get_parent().is_none());
    assert_eq!(d.get_node(0).unwrap().get_child_nodes().len(), 1);
}

#[test]
fn set_root_element_keeps_place_among_other_children() {
    let mut doc = Document::new(None).unwrap();
    let d = doc.as_doc_mut();
    let c = d.new_child(0, NodeType::CommentNode, Some("comment"), Some("before"));
    assert_eq!(c, 1);
    let a = d.new_node(NodeType::ElementNode, Some("a"), None);
    d.set_root_element(a).unwrap();
    let t = d.new_child(0, NodeType::CommentNode, Some("comment"), Some("after"));
    assert_eq!(t, 3);
    let b = d.new_node(NodeType::ElementNode, Some("b"), None);
    let old = d.set_root_element(b).unwrap().unwrap();
    assert_eq!(old.node_ptr(), 2);
    let kids: Vec<usize> = d.get_node(0).unwrap().get_child_nodes().iter().map(|n| n.as_ptr()).collect();
    assert_eq!(kids, vec![1, 4, 3]);
}

#[test]
fn set_root_element_refuses_namespace_node() {
    let mut doc = Document::new(None).unwrap();
    let d = doc.as_doc_mut();
    let n = d.new_node(NodeType::NamespaceDecl, None, None);
    assert!(d.set_root_element(n).unwrap().is_none());
    assert!(d.get_root_element().is_none());
    assert!(d.get_node(1).unwrap().get_parent().is_none());
}

#[test]
fn root_element_skips_non_elements() {
    let mut doc = Document::new(None).unwrap();
    let d = doc.as_doc_mut();
    d.new_child(0, NodeType::CommentNode, Some("comment"), Some("c"));
    d.new_child(0, NodeType::PiNode, Some("pi"), Some("x"));
    assert!(d.get_root_element().is_none());
    d.new_child(0, NodeType::ElementNode, Some("first"), None);
    d.new_child(0, NodeType::ElementNode, Some("second"), None);
    assert_eq!(d.get_root_element().unwrap().as_ptr(), 3);
}

#[test]
fn unlink_attr_removes_it_from_its_element() {
    let mut doc = Document::new(None).unwrap();
    let d = doc.as_doc_mut();
    let e = d.new_child(0, NodeType::ElementNode, Some("e"), None);
    let a0 = d.new_prop(e, None, "x", "1");
    let a1 = d.new_prop(e, None, "y", "2");
    let a2 = d.new_prop(e, None, "z", "3");
    assert_eq!((a0, a1, a2), (0, 1, 2));
    let unlinked = d.unlink_attr(a1);
    assert_eq!(unlinked.as_ptr(), 1);
    let node = d.get_node(e).unwrap();
    let names: Vec<&str> = node.iter_properties().iter().map(|a| a.get_name()).collect();
    assert_eq!(names, vec!["x", "z"]);
    assert!(!node.has_property("y"));
    assert!(node.get_property("y").is_none());
    // The attribute after the removed one still follows the first one.
    let first = node.get_property_node("x").unwrap();
    assert_eq!(first.get_next().unwrap().get_name(), "z");
    assert!(first.get_next().unwrap().get_next().is_none());
    // Unlinking it again changes nothing.
    let mut doc2 = doc;
    let d2 = doc2.as_doc_mut();
    d2.unlink_attr(1);
    let node = d2.get_node(e).unwrap();
    assert_eq!(node.iter_properties().len(), 2);
}

#[test]
fn added_attribute_and_declaration_read_back() {
    let mut doc = Document::new(None).unwrap();
    let d = doc.as_doc_mut();
    let e = d.new_child(0, NodeType::ElementNode, Some("e"), None);
    let a = d.new_prop(e, None, "k", "v");
    let node = d.get_node(e).unwrap();
    assert_eq!(node.get_property_node("k").unwrap().as_ptr(), a);
    assert_eq!(node.get_property("k").unwrap().to_string(), "v");
    d.new_ns(e, Some("urn:n"), Some("n")).unwrap();
    assert_eq!(d.get_node(e).unwrap().lookup_namespace_uri("n"), Some("urn:n"));
}

#[test]
fn set_root_element_takes_text_nodes_where_nothing_merges() {
    let mut doc = Document::new(None).unwrap();
    let d = doc.as_doc_mut();
    let a = d.new_node(NodeType::ElementNode, Some("a"), None);
    d.set_root_element(a).unwrap();
    // With a root element in place, a text node takes its place.
    let t = d.new_node(NodeType::TextNode, Some("text"), Some("t"));
    let old = d.set_root_element(t).unwrap().unwrap();
    assert_eq!(old.node_ptr(), 1);
    assert!(d.get_root_element().is_none());
    let kids: Vec<usize> = d.get_node(0).unwrap().get_child_nodes().iter().map(|n| n.as_ptr()).collect();
    assert_eq!(kids, vec![2]);
    // In a document without children, a text node becomes the only child.
    let mut doc2 = Document::new(None).unwrap();
    let d2 = doc2.as_doc_mut();
    let u = d2.new_node(NodeType::TextNode, Some("text"), Some("u"));
    assert!(d2.set_root_element(u).unwrap().is_none());
    assert_eq!(d2.get_node(1).unwrap().get_parent().unwrap().as_ptr(), 0);
}

#[test]
fn set_root_element_merges_text_into_last_text_child() {
    let mut doc = Document::new(None).unwrap();
    let d = doc.as_doc_mut();
    let t = d.new_child(0, NodeType::TextNode, Some("text"), Some("ab"));
    let u = d.new_node(NodeType::TextNode, Some("text"), Some("cd"));
    assert_eq!(u.node_ptr(), 2);
    assert!(d.set_root_element(u).unwrap().is_none());
    let kids: Vec<usize> = d.get_node(0).unwrap().get_child_nodes().iter().map(|n| n.as_ptr()).collect();
    assert_eq!(kids, vec![t]);
    assert_eq!(d.get_node(t).unwrap().get_content().unwrap().to_string(), "abcd");
    assert!(d.get_node(2).unwrap().get_parent().is_none());
    assert!(d.get_root_element().is_none());
    // An empty text node adds nothing.
    let v = d.new_node(NodeType::TextNode, Some("text"), Some(""));
    d.set_root_element(v).unwrap();
    assert_eq!(d.get_node(t).unwrap().get_content().unwrap().to_string(), "abcd");
}
