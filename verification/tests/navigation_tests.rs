use libxml_core::tree::{Document, NodeRef, NodeType};

/// Builds this document, node indices in brackets:
///
/// ```text
/// [0] document
///   [1] html
///     [2] text "\n"
///     [3] head
///       [4] title
///         [5] text "Example"
///     [6] text "\n"
///     [7] comment " note "
///     [8] body
///       [9] p
///         [10] text "Hello, "
///         [11] b
///           [12] text "world"
///       [13] text "!"
///     [14] text "\n"
/// ```
fn sample() -> Document {
    let mut doc = Document::new(None).unwrap();
    let d = doc.as_doc_mut();
    let html = d.new_node(NodeType::ElementNode, Some("html"), None);
    assert!(d.set_root_element(html).unwrap().is_none());
    assert_eq!(d.new_child(1, NodeType::TextNode, Some("text"), Some("\n")), 2);
    assert_eq!(d.new_child(1, NodeType::ElementNode, Some("head"), None), 3);
    assert_eq!(d.new_child(3, NodeType::ElementNode, Some("title"), None), 4);
    assert_eq!(d.new_child(4, NodeType::TextNode, Some("text"), Some("Example")), 5);
    assert_eq!(d.new_child(1, NodeType::TextNode, Some("text"), Some("\n")), 6);
    assert_eq!(d.new_child(1, NodeType::CommentNode, Some("comment"), Some(" note ")), 7);
    assert_eq!(d.new_child(1, NodeType::ElementNode, Some("body"), None), 8);
    assert_eq!(d.new_child(8, NodeType::ElementNode, Some("p"), None), 9);
    assert_eq!(d.new_child(9, NodeType::TextNode, Some("text"), Some("Hello, ")), 10);
    assert_eq!(d.new_child(9, NodeType::ElementNode, Some("b"), None), 11);
    assert_eq!(d.new_child(11, NodeType::TextNode, Some("text"), Some("world")), 12);
    assert_eq!(d.new_child(8, NodeType::TextNode, Some("text"), Some("!")), 13);
    assert_eq!(d.new_child(1, NodeType::TextNode, Some("text"), Some("\n")), 14);
    doc
}

fn ids(v: &[NodeRef]) -> Vec<usize> {
    v.iter().map(|n| n.as_ptr()).collect()
}

fn count_nodes(node: &NodeRef) -> i32 {
    1 + node.get_child_nodes().iter().map(count_nodes).sum::<i32>()
}

fn count_elements(node: &NodeRef) -> i32 {
    1 + node.get_child_elements().iter().map(count_elements).sum::<i32>()
}

#[test]
fn scan_of_built_document() {
    let doc = sample();
    let d = doc.as_doc_ref();
    let root = d.get_root_element().unwrap();
    assert_eq!(root.get_name().unwrap(), "html");
    assert_eq!(count_nodes(&root), 14);
    assert_eq!(count_elements(&root), 6);

    let text = root.get_first_child().expect("first child is a text node");
    assert_eq!(text.get_name().unwrap(), "text");
    let head = root.get_first_element_child().expect("head is first child of html");
    assert_eq!(head.get_name().unwrap(), "head");

    let mut sibling = head.get_next_sibling().expect("head should be followed by text");
    assert_eq!(sibling.get_name().unwrap(), "text");
    while let Some(next) = sibling.get_next_sibling() {
        sibling = next;
        if next.get_type() == Some(NodeType::ElementNode) {
            break;
        }
    }
    assert_eq!(sibling.get_type(), Some(NodeType::ElementNode));
    assert_eq!(sibling.get_name().unwrap(), "body");
}

#[test]
fn siblings_and_parents() {
    let doc = sample();
    let d = doc.as_doc_ref();
    let head = d.get_node(3).unwrap();
    assert_eq!(head.get_next_sibling().unwrap().as_ptr(), 6);
    assert_eq!(head.get_prev_sibling().unwrap().as_ptr(), 2);
    assert_eq!(head.get_parent().unwrap().as_ptr(), 1);
    assert_eq!(head.get_next_element_sibling().unwrap().as_ptr(), 8);
    assert!(head.get_prev_element_sibling().is_none());
    let body = d.get_node(8).unwrap();
    assert_eq!(body.get_prev_element_sibling().unwrap().as_ptr(), 3);
    assert!(body.get_next_element_sibling().is_none());
    assert_eq!(ids(&head.iter_next_siblings()), vec![6, 7, 8, 14]);
    assert_eq!(ids(&body.iter_prev_siblings()), vec![7, 6, 3, 2]);
    let last = d.get_node(14).unwrap();
    assert!(last.get_next_sibling().is_none());
    assert!(last.iter_next_siblings().is_empty());
    let root = d.get_node(1).unwrap();
    assert_eq!(root.get_parent().unwrap().as_ptr(), 0);
    assert!(d.get_node(0).unwrap().get_parent().is_none());
}

#[test]
fn sibling_inverse_on_every_node() {
    let doc = sample();
    let d = doc.as_doc_ref();
    for i in 0..15 {
        let n = d.get_node(i).unwrap();
        if let Some(next) = n.get_next_sibling() {
            assert_eq!(next.get_prev_sibling().unwrap().as_ptr(), i);
        }
        if let Some(prev) = n.get_prev_sibling() {
            assert_eq!(prev.get_next_sibling().unwrap().as_ptr(), i);
        }
        for c in n.get_child_nodes() {
            assert_eq!(c.get_parent().unwrap().as_ptr(), i);
        }
    }
}

#[test]
fn children_and_ends() {
    let doc = sample();
    let d = doc.as_doc_ref();
    let root = d.get_node(1).unwrap();
    assert_eq!(ids(&root.get_child_nodes()), vec![2, 3, 6, 7, 8, 14]);
    assert_eq!(ids(&root.iter_child_nodes()), vec![2, 3, 6, 7, 8, 14]);
    assert_eq!(ids(&root.get_child_elements()), vec![3, 8]);
    assert_eq!(root.get_first_child().unwrap().as_ptr(), 2);
    assert_eq!(root.get_last_child().unwrap().as_ptr(), 14);
    assert_eq!(root.get_first_element_child().unwrap().as_ptr(), 3);
    assert_eq!(root.get_last_element_child().unwrap().as_ptr(), 8);
    let leaf = d.get_node(5).unwrap();
    assert!(leaf.get_first_child().is_none());
    assert!(leaf.get_last_child().is_none());
    assert!(leaf.get_first_element_child().is_none());
    assert!(leaf.get_last_element_child().is_none());
    assert!(leaf.get_child_nodes().is_empty());
    assert!(leaf.get_child_elements().is_empty());
}

#[test]
fn node_types_and_names() {
    let doc = sample();
    let d = doc.as_doc_ref();
    let docnode = d.get_node(0).unwrap();
    assert_eq!(docnode.get_type(), Some(NodeType::DocumentNode));
    assert!(docnode.get_name().is_none());
    let text = d.get_node(2).unwrap();
    assert!(text.is_text_node());
    assert!(!text.is_element_node());
    let body = d.get_node(8).unwrap();
    assert!(body.is_element_node());
    assert!(!body.is_text_node());
    assert!(!body.is_null());
    assert_eq!(d.get_node(7).unwrap().get_type(), Some(NodeType::CommentNode));
    assert!(d.get_node(15).is_none());
    assert_eq!(body.get_document().get_root_element().unwrap().as_ptr(), 1);
}
