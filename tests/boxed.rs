use compressed_tree::basic_tree::{
    basic_test_tree, from_root, BasicFieldsCursor, BasicNode, BasicNodesCursor, BasicTree,
};
use compressed_tree::cursor::{EitherCursor, GenericNodesCursor};
use compressed_tree::tree::{FieldKey, Indexable, NodeData, NodeNav, TreeType};
use compressed_tree::walk::{walk_all, walk_all_field};

fn node(def: &str, payload: Option<Vec<u8>>) -> BasicNode {
    BasicNode {
        def: TreeType::new(def),
        payload,
        fields: vec![],
    }
}

#[test]
fn boxed_payload_value_and_missing_field() {
    let mut root = node("root", Some(vec![5]));
    root.fields.push((
        FieldKey::new("n"),
        vec![node("a", Some(vec![0x34, 0x12])), node("b", None)],
    ));
    let tree = from_root(root);
    let cursor: BasicNodesCursor = GenericNodesCursor::new(tree.view());
    assert_eq!(cursor.value().0, Some(5));
    let fields: BasicFieldsCursor = match cursor.enter_field(FieldKey::new("missing")) {
        EitherCursor::Fields(f) => f,
        EitherCursor::Nodes(_) => panic!("enter_field always selects a field"),
    };
    assert_eq!(fields.get_field_length(), 0);
    let fields = match fields.first_node() {
        EitherCursor::Fields(f) => f,
        EitherCursor::Nodes(_) => panic!("an empty field has no first node"),
    };
    let cursor = fields.exit_field();
    let fields = match cursor.enter_field(FieldKey::new("n")) {
        EitherCursor::Fields(f) => f,
        EitherCursor::Nodes(_) => panic!("enter_field always selects a field"),
    };
    let first = fields.enter_node(0);
    assert_eq!(first.value().0, Some(0x1234));
    assert_eq!(first.node_type().name(), "a");
    let second = match first.next_node() {
        EitherCursor::Nodes(n) => n,
        EitherCursor::Fields(_) => panic!("the field has two nodes"),
    };
    assert_eq!(second.value().0, None);
}

#[test]
fn boxed_node_views() {
    let tree = BasicTree(basic_test_tree(3, 2));
    let root = tree.view();
    assert_eq!(root.len(), 1);
    assert!(root.index(1).is_none());
    assert_eq!(root.position(), 0);
    assert_eq!(root.field_count(), 3);
    assert_eq!(root.field_key(2).0, "2");
    assert!(!root.is_leaf());
    assert_eq!(root.get_def().name(), "");
    assert!(root.get_payload().is_none());
    let second = root.field_at(1);
    assert_eq!(second.len(), 2);
    assert!(second.is_leaf());
    let by_key = root.get_field(&FieldKey::new("1"));
    assert_eq!(by_key.len(), 2);
    assert_eq!(root.get_field(&FieldKey::new("7")).len(), 0);
    assert_eq!(walk_all(root), 7);
    assert_eq!(walk_all_field(tree.view()), 7);
}

#[test]
fn test_tree_without_children_has_no_fields() {
    let tree = BasicTree(basic_test_tree(4, 0));
    assert!(tree.view().is_leaf());
    assert_eq!(walk_all(tree.view()), 1);
}
