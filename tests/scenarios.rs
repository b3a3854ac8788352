use std::rc::Rc;

use compressed_tree::basic_tree::{BasicNode, BasicNodes, BasicTree};
use compressed_tree::cursor::{EitherCursor, GenericFieldsCursor, GenericNodesCursor};
use compressed_tree::handle::WasmCursor;
use compressed_tree::tree::{FieldKey, TreeType};
use compressed_tree::uniform_chunk::{ChunkSchema, OffsetSchema, UniformChunk};
use compressed_tree::walk::inner;

fn leaf(def: &str) -> BasicNode {
    BasicNode {
        def: TreeType::new(def),
        payload: None,
        fields: vec![],
    }
}

fn nodes_of(c: EitherCursor<BasicNodes<'_>>) -> GenericNodesCursor<BasicNodes<'_>> {
    match c {
        EitherCursor::Nodes(n) => n,
        EitherCursor::Fields(_) => panic!("expected nodes mode"),
    }
}

fn fields_of(c: EitherCursor<BasicNodes<'_>>) -> GenericFieldsCursor<BasicNodes<'_>> {
    match c {
        EitherCursor::Fields(f) => f,
        EitherCursor::Nodes(_) => panic!("expected fields mode"),
    }
}

fn rgba_chunk() -> UniformChunk {
    let channel = Rc::new(ChunkSchema::new_leaf(TreeType::new("channel"), 1, Some(1)));
    let fields: Vec<(FieldKey, OffsetSchema)> = ["r", "g", "b", "a"]
        .iter()
        .enumerate()
        .map(|(i, k)| {
            (
                FieldKey::new(k),
                OffsetSchema {
                    schema: channel.clone(),
                    byte_offset: i as u32,
                },
            )
        })
        .collect();
    let schema = ChunkSchema::new(TreeType::new("rgba"), 2, 4, None, &fields);
    UniformChunk::new(Rc::new(schema), vec![1, 2, 3, 4, 10, 20, 30, 40])
}

#[test]
fn single_leaf() {
    let tree = BasicTree(vec![leaf("L")]);
    let cursor = GenericNodesCursor::new(tree.view());
    assert!(cursor.is_leaf());
    // first_field on a leaf stays in nodes mode
    let cursor = nodes_of(cursor.first_field());
    let mut count = 0usize;
    let cursor = inner(cursor, &mut count);
    assert_eq!(count, 1);
    assert_eq!(cursor.node_type().name(), "L");
}

#[test]
fn one_field_three_children() {
    let mut root = leaf("root");
    root.fields.push((FieldKey::new("a"), vec![leaf("x"), leaf("y"), leaf("z")]));
    let tree = BasicTree(vec![root]);
    let cursor = GenericNodesCursor::new(tree.view());
    let fields = fields_of(cursor.enter_field(FieldKey::new("a")));
    assert_eq!(fields.get_field_length(), 3);
    let nodes = nodes_of(fields.first_node());
    assert_eq!(nodes.node_type().name(), "x");
    let nodes = nodes_of(nodes.next_node());
    assert_eq!(nodes.field_index(), 1);
    let nodes = nodes_of(nodes.next_node());
    assert_eq!(nodes.node_type().name(), "z");
    let fields = fields_of(nodes.next_node());
    assert_eq!(fields.get_field_length(), 3);
    let back = fields.exit_field();
    assert_eq!(back.node_type().name(), "root");
    assert_eq!(back.field_index(), 0);
}

#[test]
fn one_field_three_children_through_handle() {
    let mut cursor = WasmCursor::new_from_test_data(1, 3);
    assert!(cursor.enter_field("0".to_string()));
    assert_eq!(cursor.get_field_length(), 3);
    assert!(cursor.first_node());
    assert!(cursor.next_node());
    assert!(cursor.next_node());
    assert!(!cursor.next_node());
    assert_eq!(cursor.mode(), 1);
    cursor.exit_field();
    assert_eq!(cursor.mode(), 0);
}

#[test]
fn uniform_chunk_rgba() {
    let mut cursor = WasmCursor::new(rgba_chunk());
    assert_eq!(cursor.field_index(), 0);
    assert!(cursor.enter_field("g".to_string()));
    assert!(cursor.first_node());
    assert_eq!(cursor.value().0, Some(2));
    cursor.exit_node();
    cursor.exit_field();
    assert!(cursor.next_node());
    assert_eq!(cursor.field_index(), 1);
    assert!(cursor.enter_field("a".to_string()));
    assert!(cursor.first_node());
    assert_eq!(cursor.value().0, Some(40));
    assert_eq!(cursor.node_type(), "channel");
}

#[test]
fn walk_count() {
    let mut cursor = WasmCursor::new_from_test_data(10, 10);
    assert_eq!(compressed_tree::handle::walk_subtree(&mut cursor), 101);
}

#[test]
fn seek_past_end() {
    let mut cursor = WasmCursor::new_from_test_data(1, 3);
    assert!(cursor.enter_field("0".to_string()));
    cursor.enter_node(2);
    assert_eq!(cursor.field_index(), 2);
    assert!(!cursor.seek_nodes(1));
    assert_eq!(cursor.mode(), 1);
    assert_eq!(cursor.get_field_length(), 3);
}

#[test]
fn empty_field() {
    let mut cursor = WasmCursor::new_from_test_data(2, 2);
    assert!(!cursor.enter_field("z".to_string()));
    assert_eq!(cursor.mode(), 1);
    assert_eq!(cursor.get_field_length(), 0);
    assert!(!cursor.first_node());
    assert_eq!(cursor.mode(), 1);
    cursor.exit_field();
    assert_eq!(cursor.mode(), 0);
}
