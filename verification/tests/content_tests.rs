use libxml_core::tree::{Document, NodeType};

fn content(doc: &Document, i: usize) -> Option<String> {
    doc.as_doc_ref().get_node(i).unwrap().get_content().map(|s| s.to_string())
}

/// `p` (node 1) holds "Hello, ", `b` (node 3) with "world", a comment, a
/// CDATA section "<raw>" and "!".
fn sample() -> Document {
    let mut doc = Document::new(None).unwrap();
    let d = doc.as_doc_mut();
    let p = d.new_child(0, NodeType::ElementNode, Some("p"), None);
    d.new_child(p, NodeType::TextNode, Some("text"), Some("Hello, "));
    let b = d.new_child(p, NodeType::ElementNode, Some("b"), None);
    d.new_child(b, NodeType::TextNode, Some("text"), Some("world"));
    d.new_child(p, NodeType::CommentNode, Some("comment"), Some("ignored"));
    d.new_child(p, NodeType::CDataSectionNode, Some("cdata"), Some("<raw>"));
    d.new_child(p, NodeType::TextNode, Some("text"), Some("!"));
    d.new_child(0, NodeType::CommentNode, Some("comment"), Some("top"));
    doc
}

#[test]
fn element_content_is_text_of_subtree() {
    let doc = sample();
    assert_eq!(content(&doc, 1), Some("Hello, world<raw>!".to_string()));
    assert_eq!(content(&doc, 3), Some("world".to_string()));
}

#[test]
fn leaf_content_is_own_content() {
    let doc = sample();
    assert_eq!(content(&doc, 2), Some("Hello, ".to_string()));
    assert_eq!(content(&doc, 5), Some("ignored".to_string()));
    assert_eq!(content(&doc, 6), Some("<raw>".to_string()));
}

#[test]
fn document_content_skips_comments() {
    let doc = sample();
    assert_eq!(content(&doc, 0), Some("Hello, world<raw>!".to_string()));
}

#[test]
fn empty_element_has_empty_content() {
    let mut doc = Document::new(None).unwrap();
    let d = doc.as_doc_mut();
    let e = d.new_child(0, NodeType::ElementNode, Some("e"), None);
    let t = d.new_child(e, NodeType::TextNode, Some("text"), None);
    assert_eq!(d.get_node(e).unwrap().get_content().unwrap().to_string(), "");
    assert!(d.get_node(t).unwrap().get_content().is_none());
    let x = d.new_child(e, NodeType::EntityDecl, Some("ent"), Some("v"));
    assert!(d.get_node(x).unwrap().get_content().is_none());
}

#[test]
fn class_names_split_on_spaces() {
    let mut doc = Document::new(None).unwrap();
    let d = doc.as_doc_mut();
    let e = d.new_child(0, NodeType::ElementNode, Some("e"), None);
    d.new_prop(e, None, "class", "a b a  c");
    d.new_prop(e, None, "class", "ignored");
    let names = d.get_node(e).unwrap().get_class_names();
    assert_eq!(names, vec!["a".to_string(), "b".to_string(), "c".to_string()]);
}

#[test]
fn class_names_of_plain_value() {
    let mut doc = Document::new(None).unwrap();
    let d = doc.as_doc_mut();
    let e = d.new_child(0, NodeType::ElementNode, Some("e"), None);
    d.new_prop(e, None, "class", "solo");
    assert_eq!(d.get_node(e).unwrap().get_class_names(), vec!["solo".to_string()]);
    let f = d.new_child(0, NodeType::ElementNode, Some("f"), None);
    d.new_prop(f, None, "class", "");
    assert!(d.get_node(f).unwrap().get_class_names().is_empty());
    let h = d.new_child(0, NodeType::ElementNode, Some("h"), None);
    d.new_prop(h, None, "class", " x  y ");
    assert_eq!(d.get_node(h).unwrap().get_class_names(), vec!["x".to_string(), "y".to_string()]);
    let g = d.new_child(0, NodeType::ElementNode, Some("g"), None);
    assert!(d.get_node(g).unwrap().get_class_names().is_empty());
}

#[test]
fn walk_does_not_go_below_entity_declarations() {
    let mut doc = Document::new(None).unwrap();
    let d = doc.as_doc_mut();
    let e = d.new_child(0, NodeType::ElementNode, Some("e"), None);
    let holder = d.new_child(e, NodeType::ElementNode, Some("holder"), None);
    d.new_child(holder, NodeType::EntityDecl, Some("ent"), Some("hidden"));
    d.new_child(holder, NodeType::TextNode, Some("text"), Some("skipped"));
    d.new_child(e, NodeType::TextNode, Some("text"), Some("seen"));
    assert_eq!(d.get_node(e).unwrap().get_content().unwrap().to_string(), "seen");
    assert_eq!(d.get_node(holder).unwrap().get_content().unwrap().to_string(), "");
}

#[test]
fn attribute_node_content_is_its_list_of_values() {
    let mut doc = Document::new(None).unwrap();
    let d = doc.as_doc_mut();
    let a = d.new_node(NodeType::AttributeNode, Some("a"), None).node_ptr();
    d.new_child(a, NodeType::TextNode, Some("text"), Some("x"));
    d.new_child(a, NodeType::EntityRefNode, Some("amp"), Some("&"));
    let inner = d.new_child(a, NodeType::ElementNode, Some("i"), None);
    d.new_child(inner, NodeType::TextNode, Some("text"), Some("not a value"));
    d.new_child(a, NodeType::CDataSectionNode, Some("cdata"), Some("y"));
    assert_eq!(d.get_node(a).unwrap().get_content().unwrap().to_string(), "x&y");
}

#[test]
fn document_content_takes_only_content_of_text_children() {
    let mut doc = Document::new(None).unwrap();
    let d = doc.as_doc_mut();
    let t = d.new_child(0, NodeType::TextNode, Some("text"), Some("a"));
    d.new_child(t, NodeType::TextNode, Some("text"), Some("below"));
    let e = d.new_child(0, NodeType::ElementNode, Some("e"), None);
    d.new_child(e, NodeType::TextNode, Some("text"), Some("b"));
    d.new_child(0, NodeType::PiNode, Some("pi"), Some("c"));
    assert_eq!(d.get_node(0).unwrap().get_content().unwrap().to_string(), "ab");
    // Inside an element the walk does go below a text node.
    let f = d.new_child(0, NodeType::ElementNode, Some("f"), None);
    let u = d.new_child(f, NodeType::TextNode, Some("text"), Some("u"));
    d.new_child(u, NodeType::TextNode, Some("text"), Some("v"));
    assert_eq!(d.get_node(f).unwrap().get_content().unwrap().to_string(), "uv");
}
