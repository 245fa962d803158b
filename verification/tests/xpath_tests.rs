use libxml_core::tree::{Document, NodeType};
use libxml_core::xpath::node_set::NodeSetRef;
use libxml_core::xpath::object::{xmlXPathObjectNumberOfNodes, XPathObjectRef};

fn sample() -> Document {
    let mut doc = Document::new(None).unwrap();
    let d = doc.as_doc_mut();
    let r = d.new_child(0, NodeType::ElementNode, Some("r"), None);
    let a = d.new_child(r, NodeType::ElementNode, Some("a"), None);
    d.new_child(a, NodeType::TextNode, Some("text"), Some("one"));
    let b = d.new_child(r, NodeType::ElementNode, Some("b"), None);
    d.new_child(b, NodeType::TextNode, Some("text"), Some("two"));
    d.new_child(r, NodeType::CommentNode, Some("comment"), Some("three"));
    doc
}

#[test]
fn node_set_results() {
    let doc = sample();
    let d = doc.as_doc_ref();
    let nodes = vec![d.get_node(2).unwrap(), d.get_node(4).unwrap(), d.get_node(6).unwrap()];
    let set = NodeSetRef::new(nodes);
    assert_eq!(set.len(), 3);
    assert!(!set.is_empty());
    let obj = XPathObjectRef::new(Some(set));
    assert_eq!(obj.get_number_of_nodes(), 3);
    assert!(obj.get_node_set().is_some());
    let ids: Vec<usize> = obj.get_nodes().iter().map(|n| n.as_ptr()).collect();
    assert_eq!(ids, vec![2, 4, 6]);
    let ids: Vec<usize> = obj.get_nodes_as_vec().iter().map(|n| n.as_ptr()).collect();
    assert_eq!(ids, vec![2, 4, 6]);
    let strs: Vec<String> = obj.get_nodes_as_str().iter().map(|s| s.to_string()).collect();
    assert_eq!(strs, vec!["one".to_string(), "two".to_string(), "three".to_string()]);
}

#[test]
fn result_without_node_set() {
    let obj = XPathObjectRef::new(None);
    assert_eq!(obj.get_number_of_nodes(), 0);
    assert!(obj.get_node_set().is_none());
    assert!(obj.get_nodes().is_empty());
    assert!(obj.get_nodes_as_vec().is_empty());
    assert!(obj.get_nodes_as_str().is_empty());
}

#[test]
fn empty_node_set() {
    let set = NodeSetRef::new(Vec::new());
    assert!(set.is_empty());
    assert_eq!(set.as_slice().len(), 0);
    let obj = XPathObjectRef::new(Some(set));
    assert_eq!(obj.get_number_of_nodes(), 0);
    assert!(obj.get_node_set().unwrap().is_empty());
}

#[test]
fn string_value_of_node_without_content_is_empty() {
    let mut doc = Document::new(None).unwrap();
    let d = doc.as_doc_mut();
    let e = d.new_child(0, NodeType::EntityRefNode, Some("ent"), None);
    let obj = XPathObjectRef::new(Some(NodeSetRef::new(vec![d.get_node(e).unwrap()])));
    let strs: Vec<String> = obj.get_nodes_as_str().iter().map(|s| s.to_string()).collect();
    assert_eq!(strs, vec!["".to_string()]);
}

#[test]
fn number_of_nodes_with_sentinels() {
    let doc = sample();
    let d = doc.as_doc_ref();
    assert_eq!(xmlXPathObjectNumberOfNodes(None), -1);
    let none = XPathObjectRef::new(None);
    assert_eq!(xmlXPathObjectNumberOfNodes(Some(&none)), -2);
    let two = XPathObjectRef::new(Some(NodeSetRef::new(vec![d.get_node(1).unwrap(), d.get_node(2).unwrap()])));
    assert_eq!(xmlXPathObjectNumberOfNodes(Some(&two)), 2);
    let empty = XPathObjectRef::new(Some(NodeSetRef::new(Vec::new())));
    assert_eq!(xmlXPathObjectNumberOfNodes(Some(&empty)), 0);
}
