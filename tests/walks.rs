use std::rc::Rc;

use compressed_tree::basic_tree::{basic_test_tree, BasicNode, BasicTree};
use compressed_tree::chunk::Chunk;
use compressed_tree::handle::{
    chunked_test_tree, walk_subtree, walk_subtree_depth, walk_subtree_internal,
    walk_subtree_internal2, WasmCursor,
};
use compressed_tree::tree::{FieldKey, Indexable, Tree, TreeType};
use compressed_tree::uniform_chunk::{ChunkSchema, OffsetSchema, UniformChunk};
use compressed_tree::walk::{walk_all, walk_all_field};
use rand::Rng;

/// A chunk of `chunk_size` colours, each a node with four one-byte channel fields
/// under random keys.
fn big_tree(chunk_size: usize) -> UniformChunk {
    let mut rng = rand::thread_rng();
    let mut new_label = || FieldKey(rng.gen::<u128>().to_string());
    let sub_schema = Rc::new(ChunkSchema::new_leaf(TreeType::new("channel"), 1, Some(1)));
    let fields: Vec<(FieldKey, OffsetSchema)> = (0..4u32)
        .map(|i| {
            (
                new_label(),
                OffsetSchema {
                    schema: sub_schema.clone(),
                    byte_offset: i,
                },
            )
        })
        .collect();
    let schema = ChunkSchema::new(TreeType::new("rgba"), chunk_size as u32, 4, None, &fields);
    let data: Vec<u8> = std::iter::repeat([1u8, 2, 3, 4])
        .take(chunk_size)
        .flatten()
        .collect();
    assert_eq!(data.len(), chunk_size * 4);
    UniformChunk::new(Rc::new(schema), data)
}

fn leaf() -> BasicNode {
    BasicNode {
        def: TreeType::new(""),
        payload: None,
        fields: vec![],
    }
}

#[test]
fn walk_chunk() {
    let chunk: UniformChunk = big_tree(1);
    let view = chunk.view();
    assert_eq!(walk_all_field(view.index(0).unwrap()), 5);
}

#[test]
fn walk_basic() {
    let tree = BasicTree(vec![leaf()]);
    assert_eq!(walk_all(tree.view()), 1);
}

#[test]
fn print_sizes() {
    println!("UniformChunk:{}", std::mem::size_of::<UniformChunk>(),);
}

#[test]
fn basic_test() {
    assert_eq!(0, 0);
}

#[test]
fn walk_wasm_cursor() {
    let mut cursor = WasmCursor::new_from_test_data(10, 10);
    assert_eq!(walk_subtree(&mut cursor), 101);
}

#[test]
fn walk_wasm_cursor_internal() {
    let mut cursor = WasmCursor::new_from_test_data(10, 10);
    assert_eq!(walk_subtree_internal(&mut cursor), 101);
}

#[test]
fn walk_wasm_cursor_internal2() {
    let mut cursor = WasmCursor::new_from_test_data(10, 10);
    assert_eq!(walk_subtree_internal2(&mut cursor), 101);
}

#[test]
fn walk_count_of_test_tree() {
    let mut cursor = WasmCursor::new_from_test_data(10, 10);
    assert_eq!(walk_subtree(&mut cursor), 101);
    // the walk puts the cursor back on the root
    assert_eq!(cursor.mode(), 0);
    assert_eq!(cursor.field_index(), 0);
    assert_eq!(walk_subtree(&mut cursor), 101);
}

#[test]
fn walks_agree_on_test_trees() {
    for (fields, per_field) in [(0usize, 0usize), (3, 0), (0, 5), (1, 1), (4, 7)] {
        let expected = 1 + if per_field == 0 { 0 } else { fields * per_field };
        let mut cursor = WasmCursor::new_from_test_data(fields, per_field);
        assert_eq!(walk_subtree(&mut cursor), expected);
        assert_eq!(walk_subtree_internal(&mut cursor), expected);
        assert_eq!(walk_subtree_internal2(&mut cursor), expected);
        let basic = BasicTree(basic_test_tree(fields, per_field));
        assert_eq!(walk_all(basic.view()), expected);
        assert_eq!(basic.total_nodes(), expected);
        assert_eq!(chunked_test_tree(fields, per_field).total_nodes(), expected);
    }
}

#[test]
fn walk_depth_limits_levels() {
    let mut cursor = WasmCursor::new_from_test_data(3, 4);
    assert_eq!(walk_subtree_depth(&mut cursor, 0), 1);
    assert_eq!(walk_subtree_depth(&mut cursor, 1), 13);
    assert_eq!(walk_subtree_depth(&mut cursor, 5), 13);
    assert_eq!(cursor.mode(), 0);
}

#[test]
fn total_nodes_of_colour_chunk() {
    assert_eq!(big_tree(3).total_nodes(), 15);
    assert_eq!(big_tree(3).get_count(), 3);
}

fn count_through_view<T: Tree>(tree: &T) -> usize {
    walk_all_field(Tree::view(tree))
}

#[test]
fn tree_views_agree() {
    let chunk = chunked_test_tree(2, 3);
    let basic = BasicTree(basic_test_tree(2, 3));
    assert_eq!(count_through_view(&chunk), 7);
    assert_eq!(count_through_view(&basic), 7);
    assert_eq!(count_through_view(&big_tree(2)), 10);
}
