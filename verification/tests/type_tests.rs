use libxml_core::parser::{HtmlParserOptions, ParseFormat, XmlParserOptions};
use libxml_core::tree::{Document, NodeType};

#[test]
fn node_type_numbers() {
    assert_eq!(NodeType::from_int(1), Some(NodeType::ElementNode));
    assert_eq!(NodeType::from_int(2), Some(NodeType::AttributeNode));
    assert_eq!(NodeType::from_int(3), Some(NodeType::TextNode));
    assert_eq!(NodeType::from_int(9), Some(NodeType::DocumentNode));
    assert_eq!(NodeType::from_int(13), Some(NodeType::HtmlDocumentNode));
    assert_eq!(NodeType::from_int(18), Some(NodeType::NamespaceDecl));
    assert_eq!(NodeType::from_int(21), Some(NodeType::DOCBDocumentNode));
    assert_eq!(NodeType::from_int(0), None);
    assert_eq!(NodeType::from_int(22), None);
    assert_eq!(NodeType::CommentNode.to_int(), 8);
    assert_eq!(NodeType::XIncludeEnd.to_int(), 20);
}

#[test]
fn node_type_round_trip() {
    for k in 0u32..30 {
        if let Some(t) = NodeType::from_int(k) {
            assert_eq!(t.to_int(), k);
        } else {
            assert!(k == 0 || k > 21);
        }
    }
}

#[test]
fn parser_option_defaults() {
    assert_eq!(XmlParserOptions::default().0, 0);
    assert_eq!(HtmlParserOptions::default().0, 0);
    assert_ne!(ParseFormat::Xml, ParseFormat::Html);
}

#[test]
fn xml_strings() {
    let mut doc = Document::new(None).unwrap();
    let d = doc.as_doc_mut();
    let e = d.new_child(0, NodeType::ElementNode, Some("e"), None);
    d.new_prop(e, None, "a", "value");
    d.new_prop(e, None, "b", "value");
    d.new_prop(e, None, "c", "other");
    let n = d.get_node(e).unwrap();
    let a = n.get_property("a").unwrap();
    let b = n.get_property("b").unwrap();
    let c = n.get_property("c").unwrap();
    assert_eq!(a.as_str(), "value");
    assert_eq!(a.to_string(), "value".to_string());
    assert!(a.eq_str("value"));
    assert!(!a.eq_str("valu"));
    assert!(a.eq(&b));
    assert!(!a.eq(&c));
}

#[test]
fn handles_report_their_indices() {
    let mut doc = Document::new(None).unwrap();
    let d = doc.as_doc_mut();
    let n = d.new_node(NodeType::ElementNode, Some("x"), None);
    assert_eq!(n.node_ptr(), 1);
    let e = d.new_child(0, NodeType::ElementNode, Some("e"), None);
    assert_eq!(e, 2);
    let a = d.new_prop(e, None, "k", "v");
    let s = d.new_ns(e, Some("urn:s"), Some("s")).unwrap();
    let node = d.get_node(e).unwrap();
    assert_eq!(node.as_ptr(), 2);
    assert_eq!(node.get_property_node("k").unwrap().as_ptr(), a);
    assert_eq!(node.get_namespace_declarations()[0].as_ptr(), s);
    // A node made without a parent is not among the document's children.
    assert!(d.get_node(1).unwrap().get_parent().is_none());
    let kids: Vec<usize> = d.get_node(0).unwrap().get_child_nodes().iter().map(|c| c.as_ptr()).collect();
    assert_eq!(kids, vec![2]);
}
