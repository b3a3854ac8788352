use std::rc::Rc;

use compressed_tree::dummy_cursor::{DummyCursor, DummyFields, DummyNodes};
use compressed_tree::handle::WasmCursor;
use compressed_tree::tree::{read_value, FieldKey, Indexable, NodeData, NodeNav, TreeType};
use compressed_tree::uniform_chunk::{ChunkSchema, OffsetSchema, UniformChunk};

fn rgba_chunk() -> UniformChunk {
    let channel = Rc::new(ChunkSchema::new_leaf(TreeType::new("channel"), 1, Some(1)));
    // given out of byte-offset order on purpose
    let fields: Vec<(FieldKey, OffsetSchema)> = [("a", 3u32), ("b", 2), ("r", 0), ("g", 1)]
        .iter()
        .map(|(k, o)| {
            (
                FieldKey::new(k),
                OffsetSchema {
                    schema: channel.clone(),
                    byte_offset: *o,
                },
            )
        })
        .collect();
    let schema = ChunkSchema::new(TreeType::new("rgba"), 2, 4, None, &fields);
    UniformChunk::new(Rc::new(schema), vec![1, 2, 3, 4, 10, 20, 30, 40])
}

#[test]
fn schema_fields_sorted_by_offset() {
    let channel = Rc::new(ChunkSchema::new_leaf(TreeType::new("c"), 1, Some(1)));
    let fields: Vec<(FieldKey, OffsetSchema)> = [("x", 2u32), ("y", 0), ("z", 1), ("w", 0)]
        .iter()
        .map(|(k, o)| {
            (
                FieldKey::new(k),
                OffsetSchema {
                    schema: channel.clone(),
                    byte_offset: *o,
                },
            )
        })
        .collect();
    let schema = ChunkSchema::new(TreeType::new("p"), 1, 3, None, &fields);
    let keys: Vec<String> = schema.field_list.iter().map(|f| f.0 .0.clone()).collect();
    assert_eq!(keys, vec!["y", "w", "z", "x"]);
}

#[test]
fn new_leaf_takes_payload_as_node_size() {
    let s = ChunkSchema::new_leaf(TreeType::new("n"), 5, Some(3));
    assert_eq!(s.bytes_per_top_level_node, 3);
    assert_eq!(s.top_level_length, 5);
    assert!(s.field_list.is_empty());
    let s = ChunkSchema::new_leaf(TreeType::new("n"), 5, None);
    assert_eq!(s.bytes_per_top_level_node, 0);
}

#[test]
fn field_iteration_visits_each_field_once() {
    let mut cursor = WasmCursor::new(rgba_chunk());
    let mut seen = vec![];
    assert!(cursor.first_field());
    loop {
        assert_eq!(cursor.get_field_length(), 1);
        assert!(cursor.first_node());
        seen.push(cursor.value().0.unwrap());
        cursor.exit_node();
        if !cursor.next_field() {
            break;
        }
    }
    assert_eq!(seen, vec![1, 2, 3, 4]);
    assert_eq!(cursor.mode(), 0);
    assert_eq!(cursor.field_index(), 0);
}

#[test]
fn enter_then_exit_field_returns_to_node() {
    let mut cursor = WasmCursor::new(rgba_chunk());
    assert!(cursor.next_node());
    assert!(cursor.enter_field("b".to_string()));
    cursor.exit_field();
    assert_eq!(cursor.mode(), 0);
    assert_eq!(cursor.field_index(), 1);
    assert_eq!(cursor.node_type(), "rgba");
}

#[test]
fn first_field_then_exit_returns_to_node() {
    let mut cursor = WasmCursor::new(rgba_chunk());
    assert!(cursor.first_field());
    assert_eq!(cursor.mode(), 1);
    cursor.exit_field();
    assert_eq!(cursor.mode(), 0);
    assert_eq!(cursor.field_index(), 0);
}

#[test]
fn next_field_after_enter_field_exits() {
    let mut cursor = WasmCursor::new(rgba_chunk());
    assert!(cursor.enter_field("r".to_string()));
    assert!(!cursor.next_field());
    assert_eq!(cursor.mode(), 0);
}

#[test]
fn node_iteration_over_field() {
    let mut cursor = WasmCursor::new_from_test_data(1, 4);
    assert!(cursor.enter_field("0".to_string()));
    assert!(cursor.first_node());
    for i in 1..4u32 {
        assert!(cursor.next_node());
        assert_eq!(cursor.field_index(), i);
    }
    assert!(!cursor.next_node());
    assert_eq!(cursor.mode(), 1);
}

#[test]
fn seek_there_and_back() {
    let mut cursor = WasmCursor::new_from_test_data(1, 6);
    assert!(cursor.enter_field("0".to_string()));
    cursor.enter_node(1);
    assert!(cursor.seek_nodes(3));
    assert_eq!(cursor.field_index(), 4);
    assert!(cursor.seek_nodes(-3));
    assert_eq!(cursor.field_index(), 1);
    assert!(cursor.seek_nodes(0));
    assert_eq!(cursor.field_index(), 1);
    assert_eq!(cursor.chunk_start(), 1);
    assert_eq!(cursor.chunk_length(), 1);
}

#[test]
fn seek_before_start_exits() {
    let mut cursor = WasmCursor::new_from_test_data(1, 6);
    assert!(cursor.enter_field("0".to_string()));
    cursor.enter_node(1);
    assert!(!cursor.seek_nodes(-2));
    assert_eq!(cursor.mode(), 1);
    assert_eq!(cursor.get_field_length(), 6);
}

#[test]
fn seek_far_out_does_not_wrap() {
    let mut cursor = WasmCursor::new_from_test_data(1, 6);
    assert!(cursor.enter_field("0".to_string()));
    cursor.enter_node(5);
    assert!(!cursor.seek_nodes(i32::MAX));
    cursor.enter_node(0);
    assert!(!cursor.seek_nodes(i32::MIN));
    assert_eq!(cursor.get_field_length(), 6);
}

#[test]
fn seek_by_remaining_length_exits() {
    let mut cursor = WasmCursor::new_from_test_data(1, 5);
    assert!(cursor.enter_field("0".to_string()));
    cursor.enter_node(2);
    let len = 5i32;
    let index = cursor.field_index() as i32;
    assert!(!cursor.seek_nodes(len - index));
}

#[test]
fn enter_node_then_exit_node_returns_to_field() {
    let mut cursor = WasmCursor::new_from_test_data(2, 3);
    assert!(cursor.enter_field("1".to_string()));
    cursor.enter_node(2);
    cursor.exit_node();
    assert_eq!(cursor.mode(), 1);
    assert_eq!(cursor.get_field_length(), 3);
    assert!(cursor.first_node());
    assert_eq!(cursor.field_index(), 0);
}

#[test]
fn leaf_has_no_first_field() {
    let mut cursor = WasmCursor::new_from_test_data(0, 0);
    assert!(!cursor.first_field());
    assert_eq!(cursor.mode(), 0);
    let mut cursor = WasmCursor::new_from_test_data(2, 2);
    assert!(cursor.enter_field("0".to_string()));
    assert!(cursor.first_node());
    assert!(!cursor.first_field());
}

#[test]
fn pending_and_skip() {
    let mut cursor = WasmCursor::new_from_test_data(2, 2);
    assert!(!cursor.pending());
    assert!(cursor.first_field());
    assert!(cursor.skip_pending_fields());
    assert_eq!(cursor.mode(), 1);
    assert_eq!(cursor.get_field_length(), 2);
}

#[test]
fn node_type_of_test_tree_is_empty() {
    let cursor = WasmCursor::new_from_test_data(1, 1);
    assert_eq!(cursor.node_type(), "");
    assert_eq!(cursor.value().0, None);
}

#[test]
fn payload_values() {
    assert_eq!(read_value(None).0, None);
    assert_eq!(read_value(Some(&[])).0, Some(0));
    assert_eq!(read_value(Some(&[7])).0, Some(7));
    assert_eq!(read_value(Some(&[1, 2])).0, Some(513));
    assert_eq!(read_value(Some(&[255; 8])).0, Some(u64::MAX));
    assert_eq!(read_value(Some(&[0; 9])).0, None);
}

#[test]
fn decimal_keys() {
    assert_eq!(FieldKey::from_index(0).0, "0");
    assert_eq!(FieldKey::from_index(7).0, "7");
    assert_eq!(FieldKey::from_index(10).0, "10");
    assert_eq!(FieldKey::from_index(4096).0, "4096");
}

#[test]
fn multi_byte_payload_in_chunk() {
    let leaf = Rc::new(ChunkSchema::new_leaf(TreeType::new("v"), 2, Some(2)));
    let fields = vec![(
        FieldKey::new("v"),
        OffsetSchema {
            schema: leaf,
            byte_offset: 1,
        },
    )];
    let root = ChunkSchema::new(TreeType::new("pair"), 1, 5, Some(1), &fields);
    let chunk = UniformChunk::new(Rc::new(root), vec![9, 1, 0, 0, 1]);
    let mut cursor = WasmCursor::new(chunk);
    assert_eq!(cursor.value().0, Some(9));
    assert!(cursor.enter_field("v".to_string()));
    assert_eq!(cursor.get_field_length(), 2);
    assert!(cursor.first_node());
    assert_eq!(cursor.value().0, Some(1));
    assert!(cursor.next_node());
    assert_eq!(cursor.value().0, Some(256));
}

#[test]
fn dummy_cursor_moves() {
    let n = DummyNodes {};
    assert_eq!(n.field_index(), 0);
    assert_eq!(n.chunk_start(), 0);
    assert_eq!(n.chunk_length(), 1);
    assert_eq!(n.value().0, Some(42));
    assert_eq!(n.node_type().name(), "dummy");
    assert!(matches!(n.seek_nodes(5), DummyCursor::Nodes(_)));
    assert!(matches!(DummyNodes {}.first_field(), DummyCursor::Fields(_)));
    assert!(matches!(DummyNodes {}.enter_field(FieldKey::new("k")), DummyCursor::Fields(_)));
    let f = DummyNodes {}.exit_node();
    assert_eq!(f.get_field_length(), 1);
    assert!(matches!(f.skip_pending_fields(), DummyCursor::Fields(_)));
    assert!(matches!(DummyFields {}.next_field(), DummyCursor::Nodes(_)));
    assert!(matches!(DummyFields {}.first_node(), DummyCursor::Nodes(_)));
    let _n: DummyNodes = DummyFields {}.enter_node(3);
    let _n: DummyNodes = DummyFields {}.exit_field();
}

#[test]
fn chunk_node_bytes_and_fields() {
    let chunk = rgba_chunk();
    let view = chunk.view();
    assert_eq!(view.len(), 2);
    assert!(view.index(2).is_none());
    let second = view.index(1).unwrap();
    assert_eq!(second.data(), &[10, 20, 30, 40]);
    assert_eq!(second.field_count(), 4);
    let keys: Vec<String> = (0..4).map(|k| second.field_key(k).0).collect();
    assert_eq!(keys, vec!["r", "g", "b", "a"]);
    let blue = second.get_field(&FieldKey::new("b"));
    assert_eq!(blue.len(), 1);
    assert_eq!(blue.get_payload(), Some(&[30u8][..]));
    assert_eq!(blue.data(), &[30]);
    assert!(blue.is_leaf());
    assert_eq!(blue.get_def().name(), "channel");
    let alpha = second.field_at(3);
    assert_eq!(alpha.get_payload(), Some(&[40u8][..]));
    let absent = second.get_field(&FieldKey::new("x"));
    assert_eq!(absent.len(), 0);
    assert!(absent.index(0).is_none());
    assert!(second.get_payload().is_none());
}
