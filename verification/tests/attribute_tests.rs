use libxml_core::tree::{Document, NodeType};

/// An element `e` (node 1) with attributes, in order:
/// `id="a"`, `p:lang="en"` (namespace `urn:p`), `class="x y"`,
/// `id="b"`, `q:lang="fr"` (namespace `urn:q`), `lang="none"`.
fn sample() -> Document {
    let mut doc = Document::new(None).unwrap();
    let d = doc.as_doc_mut();
    let e = d.new_child(0, NodeType::ElementNode, Some("e"), None);
    let p = d.new_ns(e, Some("urn:p"), Some("p")).unwrap();
    let q = d.new_ns(e, Some("urn:q"), Some("q")).unwrap();
    assert_eq!(d.new_prop(e, None, "id", "a"), 0);
    assert_eq!(d.new_prop(e, Some(p), "lang", "en"), 1);
    assert_eq!(d.new_prop(e, None, "class", "x y"), 2);
    assert_eq!(d.new_prop(e, None, "id", "b"), 3);
    assert_eq!(d.new_prop(e, Some(q), "lang", "fr"), 4);
    assert_eq!(d.new_prop(e, None, "lang", "none"), 5);
    d.new_child(e, NodeType::TextNode, Some("text"), Some("body"));
    doc
}

fn val(v: Option<libxml_core::string::XmlString>) -> Option<String> {
    v.map(|s| s.to_string())
}

#[test]
fn property_lookup_takes_first_match() {
    let doc = sample();
    let e = doc.as_doc_ref().get_node(1).unwrap();
    assert_eq!(val(e.get_property("id")), Some("a".to_string()));
    assert_eq!(val(e.get_attribute("id")), Some("a".to_string()));
    assert_eq!(val(e.get_property("lang")), Some("en".to_string()));
    assert_eq!(val(e.get_property("missing")), None);
    assert!(e.has_property("class"));
    assert!(e.has_attribute("class"));
    assert!(!e.has_property("missing"));
    assert!(!e.has_attribute("missing"));
}

#[test]
fn property_lookup_by_namespace() {
    let doc = sample();
    let e = doc.as_doc_ref().get_node(1).unwrap();
    assert_eq!(val(e.get_property_ns("lang", "urn:q")), Some("fr".to_string()));
    assert_eq!(val(e.get_attribute_ns("lang", "urn:p")), Some("en".to_string()));
    assert_eq!(val(e.get_property_ns("lang", "urn:r")), None);
    assert_eq!(val(e.get_property_no_ns("lang")), Some("none".to_string()));
    assert_eq!(val(e.get_attribute_no_ns("id")), Some("a".to_string()));
    assert!(e.has_property_ns("lang", "urn:p"));
    assert!(e.has_attribute_ns("lang", "urn:q"));
    assert!(!e.has_property_ns("id", "urn:p"));
    assert!(e.has_property_no_ns("lang"));
    assert!(e.has_attribute_no_ns("class"));
    assert!(!e.has_attribute_no_ns("missing"));
}

#[test]
fn property_nodes() {
    let doc = sample();
    let e = doc.as_doc_ref().get_node(1).unwrap();
    let a = e.get_property_node("lang").unwrap();
    assert_eq!(a.as_ptr(), 1);
    assert_eq!(a.get_name(), "lang");
    assert_eq!(a.get_type(), Some(NodeType::AttributeNode));
    assert_eq!(a.get_namespace().unwrap().get_href(), Some("urn:p"));
    assert_eq!(e.get_attribute_node("lang").unwrap().as_ptr(), 1);
    assert_eq!(e.get_property_node_ns("lang", "urn:q").unwrap().as_ptr(), 4);
    assert_eq!(e.get_attribute_node_ns("lang", "urn:q").unwrap().as_ptr(), 4);
    assert_eq!(e.get_property_node_no_ns("lang").unwrap().as_ptr(), 5);
    assert_eq!(e.get_attribute_node_no_ns("lang").unwrap().as_ptr(), 5);
    assert!(e.get_property_node("missing").is_none());
    assert!(e.get_property_node("id").unwrap().get_namespace().is_none());
    // The value found for an attribute is that of the first attribute with its name.
    let second_id = e.iter_properties()[3];
    assert_eq!(second_id.get_name(), "id");
    assert_eq!(val(e.get_property_by_node(&second_id)), Some("a".to_string()));
}

#[test]
fn attribute_chain() {
    let doc = sample();
    let e = doc.as_doc_ref().get_node(1).unwrap();
    let props = e.iter_properties();
    let names: Vec<&str> = props.iter().map(|a| a.get_name()).collect();
    assert_eq!(names, vec!["id", "lang", "class", "id", "lang", "lang"]);
    let mut cur = props[0];
    let mut count = 1;
    while let Some(n) = cur.get_next() {
        assert_eq!(n.as_ptr(), props[count].as_ptr());
        cur = n;
        count += 1;
    }
    assert_eq!(count, 6);
}

#[test]
fn non_elements_have_no_properties() {
    let doc = sample();
    let text = doc.as_doc_ref().get_node(2).unwrap();
    assert!(text.get_property("id").is_none());
    assert!(!text.has_property("id"));
    assert!(text.iter_properties().is_empty());
    assert!(text.get_properties().is_empty());
}

#[test]
fn properties_keep_first_of_each_name() {
    let doc = sample();
    let e = doc.as_doc_ref().get_node(1).unwrap();
    let props = e.get_properties();
    let got: Vec<(&str, Option<String>)> = props.into_iter().map(|(k, v)| (k, val(v))).collect();
    assert_eq!(
        got,
        vec![
            ("id", Some("a".to_string())),
            ("lang", Some("en".to_string())),
            ("class", Some("x y".to_string())),
        ]
    );
    let owned: Vec<(String, Option<String>)> =
        e.get_properties_owned().into_iter().map(|(k, v)| (k, val(v))).collect();
    assert_eq!(owned[0], ("id".to_string(), Some("a".to_string())));
    assert_eq!(owned.len(), 3);
    assert_eq!(e.get_attributes().len(), 3);
}

#[test]
fn properties_by_namespace() {
    let doc = sample();
    let e = doc.as_doc_ref().get_node(1).unwrap();
    let props = e.get_properties_ns();
    let got: Vec<(&str, Option<&str>, Option<String>)> = props
        .into_iter()
        .map(|((name, ns), v)| (name, ns.and_then(|n| n.get_href()), val(v)))
        .collect();
    assert_eq!(
        got,
        vec![
            ("id", None, Some("a".to_string())),
            ("lang", Some("urn:p"), Some("en".to_string())),
            ("class", None, Some("x y".to_string())),
            ("lang", Some("urn:q"), Some("fr".to_string())),
            ("lang", None, Some("none".to_string())),
        ]
    );
    assert_eq!(e.get_attributes_ns().len(), 5);
}

#[test]
fn attribute_namespace_without_href_is_looked_up_under_empty_uri() {
    let mut doc = Document::new(None).unwrap();
    let d = doc.as_doc_mut();
    let e = d.new_child(0, NodeType::ElementNode, Some("e"), None);
    let s = d.new_ns(e, None, Some("p")).unwrap();
    d.new_prop(e, Some(s), "a", "1");
    let node = d.get_node(e).unwrap();
    let props = node.get_properties_ns();
    assert_eq!(props.len(), 1);
    assert_eq!((props[0].0).0, "a");
    assert!(props[0].1.is_none());
}

#[test]
fn presence_agrees_with_value_and_node() {
    let doc = sample();
    let e = doc.as_doc_ref().get_node(1).unwrap();
    for name in ["id", "lang", "class", "missing", ""] {
        assert_eq!(e.has_property(name), e.get_property(name).is_some());
        assert_eq!(e.has_property_no_ns(name), e.get_property_no_ns(name).is_some());
        assert_eq!(e.has_property_ns(name, "urn:q"), e.get_property_ns(name, "urn:q").is_some());
        if let Some(a) = e.get_property_node(name) {
            assert_eq!(a.get_name(), name);
            let owner: Vec<usize> = e.iter_properties().iter().map(|p| p.as_ptr()).collect();
            assert!(owner.contains(&a.as_ptr()));
        }
    }
}

#[test]
fn distinct_attributes_keep_their_own_values_by_namespace() {
    let mut doc = Document::new(None).unwrap();
    let d = doc.as_doc_mut();
    let e = d.new_child(0, NodeType::ElementNode, Some("e"), None);
    let p = d.new_ns(e, Some("urn:p"), Some("p")).unwrap();
    d.new_prop(e, None, "a", "1");
    d.new_prop(e, Some(p), "a", "2");
    d.new_prop(e, None, "b", "3");
    let node = d.get_node(e).unwrap();
    let got: Vec<(&str, Option<&str>, Option<String>)> = node
        .get_properties_ns()
        .into_iter()
        .map(|((name, ns), v)| (name, ns.and_then(|n| n.get_href()), val(v)))
        .collect();
    assert_eq!(
        got,
        vec![
            ("a", None, Some("1".to_string())),
            ("a", Some("urn:p"), Some("2".to_string())),
            ("b", None, Some("3".to_string())),
        ]
    );
    let kids: Vec<usize> = node.get_child_nodes().iter().map(|c| c.as_ptr()).collect();
    assert!(kids.is_empty());
}

#[test]
fn children_are_first_child_then_next_siblings() {
    let doc = sample();
    let e = doc.as_doc_ref().get_node(1).unwrap();
    let mut chain = Vec::new();
    let mut cur = e.get_first_child();
    while let Some(c) = cur {
        chain.push(c.as_ptr());
        cur = c.get_next_sibling();
    }
    let kids: Vec<usize> = e.get_child_nodes().iter().map(|c| c.as_ptr()).collect();
    assert_eq!(chain, kids);
}
