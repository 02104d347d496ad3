use biosurf::dom::{
    BinaryDomSerializer, DomDiffOperation, DomDiffer, DomError, DomNode, DomNodeType,
    DomPatchApplier, DomSnapshot,
};

#[test]
fn test_new_element_and_text() {
    let mut node = DomNode::new_element("html");
    assert_eq!(node.node_type, DomNodeType::Element);
    assert_eq!(node.tag_name.as_deref(), Some("html"));
    node.add_attribute("lang", "en");
    node.add_child(DomNode::new_text("Hello, Machine-HTTP!"));
    node.set_id(7);
    assert_eq!(node.attributes, vec![("lang".to_string(), "en".to_string())]);
    assert_eq!(node.children.len(), 1);
    assert_eq!(node.children[0].text_content.as_deref(), Some("Hello, Machine-HTTP!"));
    assert_eq!(node.id, Some(7));
}

#[test]
fn test_serialize_exact_bytes() {
    let node = DomNode::new_element("a");
    let mut out: Vec<u8> = Vec::new();
    BinaryDomSerializer::serialize(&node, &mut out);
    assert_eq!(
        out,
        vec![
            0, // element
            1, 0, b'a', // tag string: length one, then the byte
            0, 0, // no attributes
            0, // no text
            0, // not self-closing
            0, // no id
            0, 0, 0, 0, // no children
        ]
    );
}

#[test]
fn test_serialize_with_attribute_and_id() {
    let mut node = DomNode::new_element("a");
    node.add_attribute("k", "v");
    node.set_id(0x01020304);
    let mut out: Vec<u8> = Vec::new();
    BinaryDomSerializer::serialize(&node, &mut out);
    assert_eq!(
        out,
        vec![
            0, 1, 0, b'a', // element, tag
            1, 0, // one attribute
            1, 0, b'k', 1, 0, b'v', // the pair
            0, // no text
            0, // not self-closing
            1, 4, 3, 2, 1, // id present, little-endian
            0, 0, 0, 0, // no children
        ]
    );
}

#[test]
fn test_deserialize_element() {
    // What the reader accepts for an element without unused fields.
    let buf: Vec<u8> = vec![
        0, // element
        1, 0, b'x', // tag
        0, 0, // no attributes
        0, // self-closing flag read directly: elements carry no text field
        0, // no id
        0, 0, 0, 0, // no children
    ];
    let node = BinaryDomSerializer::deserialize(&buf).unwrap();
    assert_eq!(node.node_type, DomNodeType::Element);
    assert_eq!(node.tag_name.as_deref(), Some("x"));
    assert!(node.attributes.is_empty());
    assert!(!node.is_self_closing);
    assert_eq!(node.id, None);
    assert!(node.children.is_empty());
}

#[test]
fn test_deserialize_rejects_bad_type() {
    assert!(matches!(
        BinaryDomSerializer::deserialize(&[9, 0, 0]),
        Err(DomError::Malformed)
    ));
    assert!(matches!(
        BinaryDomSerializer::deserialize(&[]),
        Err(DomError::Malformed)
    ));
}

#[test]
fn test_snapshot_counts_and_size() {
    let mut root = DomNode::new_element("html");
    let mut body = DomNode::new_element("body");
    body.add_child(DomNode::new_text("Hello, Machine-HTTP!"));
    root.add_child(body);
    let snapshot = DomSnapshot::new(root);
    assert_eq!(snapshot.node_count, 3);
    let mut bytes: Vec<u8> = Vec::new();
    snapshot.serialize(&mut bytes);
    // the header, three fixed fields, then the tree
    assert_eq!(&bytes[..11], b"BIOSURF-DOM");
    assert_eq!(bytes.len(), 11 + 4 + 8 + 4 + snapshot.size_in_bytes as usize);
}

#[test]
fn test_snapshot_deserialize_header_check() {
    let mut bytes: Vec<u8> = Vec::new();
    bytes.extend_from_slice(b"BIOSURF-XXX");
    bytes.extend_from_slice(&[0; 20]);
    assert!(matches!(
        DomSnapshot::deserialize(&bytes),
        Err(DomError::Malformed)
    ));

    let mut good: Vec<u8> = Vec::new();
    good.extend_from_slice(b"BIOSURF-DOM");
    good.extend_from_slice(&5u32.to_le_bytes());
    good.extend_from_slice(&77u64.to_le_bytes());
    good.extend_from_slice(&1u32.to_le_bytes());
    good.extend_from_slice(&[0, 1, 0, b'x', 0, 0, 0, 0, 0, 0, 0, 0]);
    let snapshot = DomSnapshot::deserialize(&good).unwrap();
    assert_eq!(snapshot.version, 5);
    assert_eq!(snapshot.timestamp, 77);
    assert_eq!(snapshot.node_count, 1);
    assert_eq!(snapshot.root.tag_name.as_deref(), Some("x"));
}

#[test]
fn test_diff_equal_text_nodes_is_empty() {
    let a = DomNode::new_text("same");
    let b = DomNode::new_text("same");
    assert!(DomDiffer::diff_nodes(&a, &b).is_empty());
}

#[test]
fn test_diff_text_change() {
    let a = DomNode::new_text("old");
    let b = DomNode::new_text("new");
    let ops = DomDiffer::diff_nodes(&a, &b);
    assert_eq!(ops.len(), 1);
    match &ops[0] {
        DomDiffOperation::UpdateText { index, new_text } => {
            assert_eq!(*index, 0);
            assert_eq!(new_text, "new");
        }
        other => panic!("expected a text update, got {:?}", other),
    }
}

#[test]
fn test_diff_tag_change_replaces_node() {
    let a = DomNode::new_element("div");
    let b = DomNode::new_element("span");
    let ops = DomDiffer::diff_nodes(&a, &b);
    assert_eq!(ops.len(), 2);
    assert!(matches!(ops[0], DomDiffOperation::DeleteNode { index: 0 }));
    match &ops[1] {
        DomDiffOperation::InsertNode { index, node } => {
            assert_eq!(*index, 0);
            assert_eq!(node.tag_name.as_deref(), Some("span"));
        }
        other => panic!("expected an insert, got {:?}", other),
    }
}

#[test]
fn test_diff_attribute_changes() {
    let mut a = DomNode::new_element("div");
    a.add_attribute("kept", "1");
    a.add_attribute("gone", "2");
    a.add_attribute("changed", "old");
    let mut b = DomNode::new_element("div");
    b.add_attribute("kept", "1");
    b.add_attribute("changed", "new");
    b.add_attribute("fresh", "3");
    let ops = DomDiffer::diff_nodes(&a, &b);
    assert_eq!(ops.len(), 1);
    match &ops[0] {
        DomDiffOperation::UpdateNode { index, changes } => {
            assert_eq!(*index, 0);
            assert_eq!(changes.added_attributes, vec![("fresh".to_string(), "3".to_string())]);
            assert_eq!(changes.removed_attributes, vec!["gone".to_string()]);
            assert_eq!(
                changes.updated_attributes,
                vec![("changed".to_string(), "new".to_string())]
            );
        }
        other => panic!("expected an update, got {:?}", other),
    }
}

#[test]
fn test_diff_children_inserts_and_deletes() {
    let none: Vec<DomNode> = Vec::new();
    let two = vec![DomNode::new_text("a"), DomNode::new_text("b")];
    let inserts = DomDiffer::diff_children(&none, &two);
    assert_eq!(inserts.len(), 2);
    assert!(matches!(&inserts[0], DomDiffOperation::InsertNode { index: 0, .. }));
    assert!(matches!(&inserts[1], DomDiffOperation::InsertNode { index: 1, .. }));
    let deletes = DomDiffer::diff_children(&two, &none);
    assert_eq!(deletes.len(), 2);
    assert!(matches!(deletes[0], DomDiffOperation::DeleteNode { index: 0 }));
    assert!(matches!(deletes[1], DomDiffOperation::DeleteNode { index: 1 }));
}

#[test]
fn test_nodes_are_similar() {
    let mut a = DomNode::new_element("div");
    let mut b = DomNode::new_element("div");
    a.set_id(4);
    b.set_id(4);
    assert!(DomDiffer::nodes_are_similar(&a, &b));
    b.set_id(5);
    assert!(!DomDiffer::nodes_are_similar(&a, &b));

    let mut c = DomNode::new_element("p");
    let mut d = DomNode::new_element("p");
    c.add_attribute("class", "x");
    d.add_attribute("class", "x");
    assert!(DomDiffer::nodes_are_similar(&c, &d));
    let e = DomNode::new_element("p");
    let f = DomNode::new_element("p");
    assert!(
        !DomDiffer::nodes_are_similar(&e, &f),
        "plain elements without id or class are not considered similar"
    );
    assert!(DomDiffer::nodes_are_similar(&DomNode::new_text("t"), &DomNode::new_text("u")));
}

#[test]
fn test_patch_applier_advances_snapshot() {
    let snapshot = DomSnapshot::new(DomNode::new_element("html"));
    let next = DomPatchApplier::apply(&snapshot, &[]);
    assert_eq!(next.timestamp, snapshot.timestamp + 1);
    assert_eq!(next.version, snapshot.version + 1);
    assert_eq!(next.node_count, snapshot.node_count);
    assert_eq!(next.size_in_bytes, snapshot.size_in_bytes);
    assert_eq!(next.root.tag_name, snapshot.root.tag_name);
}
