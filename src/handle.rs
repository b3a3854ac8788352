//! A single mutable cursor handle for callers that cannot hold a move-only cursor.
use std::rc::Rc;
use vstd::prelude::*;

use crate::cursor::{
    enter_field_spec, enter_node_spec, exit_field_spec, exit_node_spec, first_field_spec,
    first_node_spec, next_field_spec, seek_nodes_spec, CursorModel, EitherCursor,
    GenericFieldsCursor, GenericNodesCursor,
};
use crate::cursor::FrameModel;
use crate::tree::{
    decimal, field_nodes, fields_size, fields_size_within, lemma_decimal_injective, node_size,
    node_size_within, nodes_size, nodes_size_within, selected, value_of, FieldKey, Indexable, Node,
    NodeModel, TreeType, Value,
};
use crate::walk::{
    lemma_fields_size_prefix, lemma_fields_size_step, lemma_fields_within_prefix,
    lemma_fields_within_step, lemma_nodes_size_prefix, lemma_nodes_size_step,
    lemma_nodes_within_prefix, lemma_nodes_within_step, walk_all, inner,
};
use crate::uniform_chunk::{
    field_model, lemma_entries_model, lemma_field_model, node_model, node_window, sub_window,
    entry_ok, field_bytes, lemma_chunk_bounds, schema_wf, ChunkSchema, OffsetSchema,
    UniformChunk, UniformChunkNode,
};

verus! {

/// The cursor inside a handle. `Empty` stands only for the moment of a move.
pub enum CursorState {
    Nodes(GenericNodesCursor<UniformChunkNode>),
    Fields(GenericFieldsCursor<UniformChunkNode>),
    Empty,
}

/// Owns a tree and a cursor over it.
pub struct WasmCursor {
    pub tree: UniformChunk,
    pub state: CursorState,
}

/// Nodes in `t` fields of `p` leaves each.
proof fn lemma_uniform_fields_size(fs: Seq<(Seq<char>, Seq<NodeModel>)>, p: nat)
    requires
        forall|i: int| 0 <= i < fs.len() ==> nodes_size(#[trigger] fs[i].1) == p,
    ensures
        fields_size(fs) == fs.len() * p,
    decreases fs.len(),
{
    if fs.len() > 0 {
        lemma_uniform_fields_size(fs.drop_last(), p);
        assert(fields_size(fs) == (fs.len() - 1) * p + p);
        assert((fs.len() - 1) * p + p == fs.len() * p) by (nonlinear_arith);
    }
}

/// A field of `n` nodes of a leaf schema holds `n` nodes in all.
proof fn lemma_leaf_field_size(s: ChunkSchema, w: Seq<u8>, n: nat)
    requires
        s.field_list@.len() == 0,
    ensures
        nodes_size(field_model(s, w, n)) == n,
    decreases n,
{
    lemma_field_model(s, w, n);
    if n > 0 {
        lemma_leaf_field_size(s, w, (n - 1) as nat);
        let ns = field_model(s, w, n);
        assert(ns.drop_last() =~= field_model(s, w, (n - 1) as nat));
        let leaf = node_model(s, w, n - 1);
        lemma_entries_model(s, node_window(s, w, n - 1), 0);
        assert(leaf.fields.len() == 0);
        assert(fields_size(leaf.fields) == 0);
        assert(ns.last() == leaf);
        assert(node_size(leaf) == 1);
        assert(nodes_size(ns) == nodes_size(ns.drop_last()) + node_size(ns.last()));
    }
}

/// A chunk with one root node, which has `fields` fields of `per_field` leaves each
/// (no field where `per_field` is `0`). Field `f` is keyed by the decimal notation of `f`.
pub fn chunked_test_tree(fields: usize, per_field: usize) -> (r: UniformChunk)
    requires
        per_field <= u32::MAX,
    ensures
        r.chunk_wf(),
        r.model().len() == 1,
        r.model()[0].fields.len() == (if per_field == 0 { 0 } else { fields as int }),
        forall|i: int| 0 <= i < r.model()[0].fields.len() ==> (#[trigger] r.model()[0].fields[i]).1.len() == per_field,
        node_size(r.model()[0]) == 1 + (if per_field == 0 { 0 } else { fields * per_field }),
{
    let sub = Rc::new(ChunkSchema::new_leaf(TreeType::new(""), per_field as u32, None));
    let mut list: Vec<(FieldKey, OffsetSchema)> = Vec::new();
    if per_field > 0 {
        let mut f: usize = 0;
        while f < fields
            invariant
                f <= fields,
                list@.len() == f,
                schema_wf(*sub),
                sub.top_level_length == per_field,
                sub.bytes_per_top_level_node == 0,
                per_field > 0,
                forall|i: int| 0 <= i < f ==> (#[trigger] list@[i]).0@ == decimal(i as nat),
                forall|i: int| 0 <= i < f ==> (#[trigger] list@[i]).1.schema == sub,
                forall|i: int| 0 <= i < f ==> (#[trigger] list@[i]).1.byte_offset == 0,
            decreases fields - f,
        {
            list.push((FieldKey::from_index(f), OffsetSchema { schema: sub.clone(), byte_offset: 0 }));
            f = f + 1;
        }
    }
    proof {
        assert forall|i: int| 0 <= i < list@.len() implies entry_ok(#[trigger] list@[i].1, 0) by {
            assert(field_bytes(*sub) == 0);
        }
        assert forall|i: int, j: int| 0 <= i < list@.len() && 0 <= j < list@.len() && i != j
            implies list@[i].0@ != list@[j].0@ by {
            if list@[i].0@ == list@[j].0@ {
                lemma_decimal_injective(i as nat, j as nat);
            }
        }
    }
    let root = Rc::new(ChunkSchema::new(TreeType::new(""), 1, 0, None, list.as_slice()));
    let data: Vec<u8> = Vec::new();
    proof {
        let rs = *root;
        lemma_field_model(rs, data@, 1);
        let nd = node_window(rs, data@, 0);
        lemma_entries_model(rs, nd, rs.field_list@.len());
        let fs = node_model(rs, data@, 0).fields;
        assert forall|i: int| 0 <= i < fs.len() implies nodes_size(#[trigger] fs[i].1) == per_field
            && fs[i].1.len() == per_field by {
            let e = rs.field_list@[i];
            assert(list@.contains(e));
            let k = choose|k: int| 0 <= k < list@.len() && list@[k] == e;
            assert(e.1.schema == sub);
            lemma_leaf_field_size(*sub, sub_window(nd, e.1), per_field as nat);
            lemma_field_model(*sub, sub_window(nd, e.1), per_field as nat);
        }
        lemma_uniform_fields_size(fs, per_field as nat);
    }
    UniformChunk::new(root, data)
}

impl WasmCursor {
    /// Abstract state of the cursor.
    pub open spec fn model(&self) -> CursorModel {
        match self.state {
            CursorState::Nodes(c) => c.model(),
            CursorState::Fields(c) => c.model(),
            CursorState::Empty => CursorModel::Nodes { field: Seq::empty(), index: 0, parents: Seq::empty() },
        }
    }

    /// The cursor is in place: never `Empty` between calls.
    pub open spec fn wf(&self) -> bool {
        match self.state {
            CursorState::Nodes(c) => c.wf(),
            CursorState::Fields(c) => c.wf(),
            CursorState::Empty => false,
        }
    }

    /// A node is selected.
    pub open spec fn in_nodes(&self) -> bool {
        self.state is Nodes
    }

    /// The nodes of the tree that the handle owns.
    pub closed spec fn tree_model(&self) -> Seq<NodeModel> {
        self.tree.model()
    }

    /// The tree is consistent with its schema.
    pub closed spec fn tree_wf(&self) -> bool {
        self.tree.chunk_wf()
    }

    fn take(&mut self) -> (r: CursorState)
        ensures
            r == old(self).state,
            final(self).state is Empty,
            final(self).tree == old(self).tree,
    {
        let mut state = CursorState::Empty;
        std::mem::swap(&mut self.state, &mut state);
        state
    }

    /// A handle on the first node of `tree`.
    pub fn new(tree: UniformChunk) -> (r: WasmCursor)
        requires
            tree.chunk_wf(),
            tree.model().len() > 0,
        ensures
            r.wf(),
            r.tree_wf(),
            r.tree_model() == tree.model(),
            r.model() == (CursorModel::Nodes { field: tree.model(), index: 0, parents: Seq::empty() }),
    {
        let root = tree.view().index(0).unwrap();
        let cursor = GenericNodesCursor::new(root);
        WasmCursor { tree, state: CursorState::Nodes(cursor) }
    }

    /// A tree of test data (see `chunked_test_tree`) and a handle on its root.
    pub fn new_from_test_data(fields: usize, per_field: usize) -> (r: WasmCursor)
        requires
            per_field <= u32::MAX,
        ensures
            r.wf(),
            r.tree_wf(),
            r.model() == (CursorModel::Nodes { field: r.tree_model(), index: 0, parents: Seq::empty() }),
            r.tree_model().len() == 1,
            r.tree_model()[0].fields.len() == (if per_field == 0 { 0 } else { fields as int }),
            forall|i: int| 0 <= i < r.tree_model()[0].fields.len() ==> (#[trigger] r.tree_model()[0].fields[i]).1.len() == per_field,
            node_size(r.tree_model()[0]) == 1 + (if per_field == 0 { 0 } else { fields * per_field }),
    {
        WasmCursor::new(chunked_test_tree(fields, per_field))
    }

    /// `0` where a node is selected, `1` where a field is.
    pub fn mode(&self) -> (r: i32)
        requires
            self.wf(),
        ensures
            r == (if self.in_nodes() { 0i32 } else { 1i32 }),
    {
        match &self.state {
            CursorState::Nodes(_) => 0,
            _ => 1,
        }
    }

    /// Number of ancestor levels above the selection.
    pub fn depth(&self) -> (r: usize)
        requires
            self.wf(),
        ensures
            r == self.model().parents().len(),
    {
        match &self.state {
            CursorState::Nodes(n) => n.parents.len(),
            CursorState::Fields(f) => f.parents.len(),
            CursorState::Empty => 0,
        }
    }

    /// Whether `seek_nodes(offset)` may be called: the move stays in the field, or there
    /// is a field above to go up to.
    pub fn can_seek(&self, offset: i32) -> (r: bool)
        requires
            self.wf(),
            self.in_nodes(),
        ensures
            r == (0 <= self.model().index() + offset < self.model().field().len()
                || self.model().parents().len() > 0),
    {
        match &self.state {
            CursorState::Nodes(n) => {
                if n.parents.len() > 0 {
                    return true;
                }
                let index = n.current.position() as i64;
                let len = n.current.len();
                proof {
                    lemma_chunk_bounds(&n.current);
                }
                let target = index + offset as i64;
                0 <= target && target < len as i64
            },
            _ => false,
        }
    }

    /// Whether the selection is pending: never, here.
    pub fn pending(&self) -> (r: bool)
        ensures
            !r,
    {
        false
    }

    /// Position of the selected node in its field.
    pub fn field_index(&self) -> (r: u32)
        requires
            self.wf(),
            self.in_nodes(),
        ensures
            r == self.model().index(),
    {
        match &self.state {
            CursorState::Nodes(n) => {
                proof {
                    lemma_chunk_bounds(&n.current);
                }
                n.field_index()
            },
            _ => 0,
        }
    }

    /// First position of the chunk that holds the selected node.
    pub fn chunk_start(&self) -> (r: u32)
        requires
            self.wf(),
            self.in_nodes(),
        ensures
            r == self.model().index(),
    {
        match &self.state {
            CursorState::Nodes(n) => {
                proof {
                    lemma_chunk_bounds(&n.current);
                }
                n.chunk_start()
            },
            _ => 0,
        }
    }

    /// Number of nodes in the chunk that holds the selected node: always one.
    pub fn chunk_length(&self) -> (r: u32)
        requires
            self.wf(),
            self.in_nodes(),
        ensures
            r == 1,
    {
        match &self.state {
            CursorState::Nodes(n) => n.chunk_length(),
            _ => 1,
        }
    }

    /// Move `offset` nodes; `false` where that left the field (the field is then selected).
    pub fn seek_nodes(&mut self, offset: i32) -> (r: bool)
        requires
            old(self).wf(),
            old(self).in_nodes(),
            0 <= old(self).model().index() + offset < old(self).model().field().len()
                || old(self).model().parents().len() > 0,
        ensures
            final(self).wf(),
            final(self).model() == seek_nodes_spec(old(self).model(), offset as int),
            r == final(self).in_nodes(),
            r == (0 <= old(self).model().index() + offset < old(self).model().field().len()),
            final(self).tree == old(self).tree,
    {
        match self.take() {
            CursorState::Nodes(n) => match n.seek_nodes(offset) {
                EitherCursor::Nodes(n) => {
                    self.state = CursorState::Nodes(n);
                    true
                },
                EitherCursor::Fields(f) => {
                    self.state = CursorState::Fields(f);
                    false
                },
            },
            _ => false,
        }
    }

    /// The same as `seek_nodes(1)`.
    pub fn next_node(&mut self) -> (r: bool)
        requires
            old(self).wf(),
            old(self).in_nodes(),
            old(self).model().index() + 1 < old(self).model().field().len()
                || old(self).model().parents().len() > 0,
        ensures
            final(self).wf(),
            final(self).model() == seek_nodes_spec(old(self).model(), 1),
            r == final(self).in_nodes(),
            r == (old(self).model().index() + 1 < old(self).model().field().len()),
            final(self).tree == old(self).tree,
    {
        match self.take() {
            CursorState::Nodes(n) => match n.next_node() {
                EitherCursor::Nodes(n) => {
                    self.state = CursorState::Nodes(n);
                    true
                },
                EitherCursor::Fields(f) => {
                    self.state = CursorState::Fields(f);
                    false
                },
            },
            _ => false,
        }
    }

    /// Go up to the field that holds the selected node.
    pub fn exit_node(&mut self)
        requires
            old(self).wf(),
            old(self).in_nodes(),
            old(self).model().parents().len() > 0,
        ensures
            final(self).wf(),
            final(self).model() == exit_node_spec(old(self).model().field(), old(self).model().parents()),
            final(self).tree == old(self).tree,
    {
        match self.take() {
            CursorState::Nodes(n) => {
                self.state = CursorState::Fields(n.exit_node());
            },
            _ => {},
        }
    }

    /// The value of the selected node.
    pub fn value(&self) -> (r: Value)
        requires
            self.wf(),
            self.in_nodes(),
        ensures
            r.0.is_some() == value_of(self.model().node()).is_some(),
            r.0 matches Some(v) ==> v == value_of(self.model().node())->0,
    {
        match &self.state {
            CursorState::Nodes(n) => n.value(),
            _ => Value(None),
        }
    }

    /// Enter the first field of the selected node: `false` on a leaf, which stays selected.
    pub fn first_field(&mut self) -> (r: bool)
        requires
            old(self).wf(),
            old(self).in_nodes(),
        ensures
            final(self).wf(),
            final(self).model() == first_field_spec(old(self).model()),
            r == !final(self).in_nodes(),
            r == (old(self).model().node().fields.len() > 0),
            final(self).tree == old(self).tree,
    {
        match self.take() {
            CursorState::Nodes(n) => match n.first_field() {
                EitherCursor::Nodes(n) => {
                    self.state = CursorState::Nodes(n);
                    false
                },
                EitherCursor::Fields(f) => {
                    self.state = CursorState::Fields(f);
                    true
                },
            },
            _ => false,
        }
    }

    /// Enter the field `key` of the selected node; `true` where it has nodes.
    pub fn enter_field(&mut self, key: String) -> (r: bool)
        requires
            old(self).wf(),
            old(self).in_nodes(),
        ensures
            final(self).wf(),
            final(self).model() == enter_field_spec(old(self).model(), key@),
            !final(self).in_nodes(),
            r == (field_nodes(old(self).model().node(), key@).len() > 0),
            final(self).tree == old(self).tree,
    {
        match self.take() {
            CursorState::Nodes(n) => match n.enter_field(FieldKey(key)) {
                EitherCursor::Fields(f) => {
                    let non_empty = f.nodes.len() > 0;
                    self.state = CursorState::Fields(f);
                    non_empty
                },
                EitherCursor::Nodes(n) => {
                    self.state = CursorState::Nodes(n);
                    false
                },
            },
            _ => false,
        }
    }

    /// The type of the selected node.
    pub fn node_type(&self) -> (r: String)
        requires
            self.wf(),
            self.in_nodes(),
        ensures
            r@ == self.model().node().def,
    {
        match &self.state {
            CursorState::Nodes(n) => n.node_type().name(),
            _ => String::new(),
        }
    }

    /// Go on to the next field; `false` where there was none and the node is selected again.
    pub fn next_field(&mut self) -> (r: bool)
        requires
            old(self).wf(),
            !old(self).in_nodes(),
        ensures
            final(self).wf(),
            final(self).model() == next_field_spec(old(self).model()),
            r == !final(self).in_nodes(),
            final(self).tree == old(self).tree,
    {
        match self.take() {
            CursorState::Fields(f) => match f.next_field() {
                EitherCursor::Nodes(n) => {
                    self.state = CursorState::Nodes(n);
                    false
                },
                EitherCursor::Fields(f) => {
                    self.state = CursorState::Fields(f);
                    true
                },
            },
            _ => false,
        }
    }

    /// Go up to the node that holds the selected field.
    pub fn exit_field(&mut self)
        requires
            old(self).wf(),
            !old(self).in_nodes(),
        ensures
            final(self).wf(),
            final(self).model() == exit_field_spec(old(self).model()),
            final(self).in_nodes(),
            final(self).tree == old(self).tree,
    {
        match self.take() {
            CursorState::Fields(f) => {
                self.state = CursorState::Nodes(f.exit_field());
            },
            _ => {},
        }
    }

    /// Skip pending fields: none is pending, so the field stays selected and this is `true`.
    pub fn skip_pending_fields(&mut self) -> (r: bool)
        requires
            old(self).wf(),
            !old(self).in_nodes(),
        ensures
            final(self).wf(),
            final(self).model() == old(self).model(),
            r,
            final(self).tree == old(self).tree,
    {
        match self.take() {
            CursorState::Fields(f) => match f.skip_pending_fields() {
                EitherCursor::Nodes(n) => {
                    self.state = CursorState::Nodes(n);
                    false
                },
                EitherCursor::Fields(f) => {
                    self.state = CursorState::Fields(f);
                    true
                },
            },
            _ => false,
        }
    }

    /// Number of nodes in the selected field.
    pub fn get_field_length(&self) -> (r: u32)
        requires
            self.wf(),
            !self.in_nodes(),
        ensures
            r == self.model().field().len(),
    {
        match &self.state {
            CursorState::Fields(f) => {
                proof {
                    lemma_chunk_bounds(&f.nodes);
                }
                f.get_field_length()
            },
            _ => 0,
        }
    }

    /// Select the first node of the field: `false` on an empty field, which stays selected.
    pub fn first_node(&mut self) -> (r: bool)
        requires
            old(self).wf(),
            !old(self).in_nodes(),
        ensures
            final(self).wf(),
            final(self).model() == first_node_spec(old(self).model()),
            r == final(self).in_nodes(),
            r == (old(self).model().field().len() > 0),
            final(self).tree == old(self).tree,
    {
        match self.take() {
            CursorState::Fields(f) => match f.first_node() {
                EitherCursor::Nodes(n) => {
                    self.state = CursorState::Nodes(n);
                    true
                },
                EitherCursor::Fields(f) => {
                    self.state = CursorState::Fields(f);
                    false
                },
            },
            _ => false,
        }
    }

    /// Select node `child_index` of the field.
    pub fn enter_node(&mut self, child_index: u32)
        requires
            old(self).wf(),
            !old(self).in_nodes(),
            child_index < old(self).model().field().len(),
        ensures
            final(self).wf(),
            final(self).model() == enter_node_spec(old(self).model(), child_index as int),
            final(self).in_nodes(),
            final(self).tree == old(self).tree,
    {
        match self.take() {
            CursorState::Fields(f) => {
                self.state = CursorState::Nodes(f.enter_node(child_index));
            },
            _ => {},
        }
    }
}

/// Walks the subtree of the selected node through the handle's moves, and puts the
/// cursor back where it was. Returns the number of nodes in the subtree, its root included.
pub fn walk_subtree(n: &mut WasmCursor) -> (r: usize)
    requires
        old(n).wf(),
        old(n).in_nodes(),
        node_size(old(n).model().node()) <= usize::MAX,
    ensures
        final(n).wf(),
        final(n).model() == old(n).model(),
        final(n).in_nodes(),
        final(n).tree == old(n).tree,
        r == node_size(old(n).model().node()),
    decreases node_size(old(n).model().node()),
{
    let ghost m0 = n.model();
    let ghost field = m0.field();
    let ghost index = m0.index();
    let ghost parents = m0.parents();
    let ghost node = m0.node();
    let ghost fs = node.fields;
    let ghost tree = n.tree;
    let ghost total = node_size(node);
    let mut count: usize = 1;
    let mut in_fields = n.first_field();
    let ghost mut j: int = 0;
    proof {
        assert(fs.subrange(0, 0) =~= Seq::<(Seq<char>, Seq<NodeModel>)>::empty());
        if !in_fields {
            assert(fs.subrange(0, fs.len() as int) =~= fs);
        }
    }
    while in_fields
        invariant
            n.wf(),
            n.tree == tree,
            m0 == (CursorModel::Nodes { field, index, parents }),
            node == field[index],
            fs == node.fields,
            total == node_size(node),
            total == node_size(old(n).model().node()),
            total <= usize::MAX,
            in_fields == !n.in_nodes(),
            in_fields ==> 0 <= j < fs.len() && n.model() == (CursorModel::Fields {
                field: fs[j].1,
                frame: FrameModel { field, index, key: fs[j].0, next: Some(j + 1) },
                parents,
            }) && count == 1 + fields_size(fs.subrange(0, j)),
            !in_fields ==> n.model() == m0 && count == 1 + fields_size(fs),
        decreases fs.len() - j, if in_fields { 1int } else { 0int },
    {
        let ghost g = fs[j].1;
        let ghost frame = FrameModel { field, index, key: fs[j].0, next: Some(j + 1) };
        let ghost base = count as int;
        let ghost fields_state = n.model();
        proof {
            lemma_fields_size_step(fs, j);
            lemma_fields_size_prefix(fs, j + 1);
            assert(parents.push(frame).drop_last() =~= parents);
        }
        let mut in_nodes = n.first_node();
        let ghost mut c: int = 0;
        proof {
            assert(g.subrange(0, 0) =~= Seq::<NodeModel>::empty());
            if !in_nodes {
                assert(g.subrange(0, g.len() as int) =~= g);
            }
        }
        while in_nodes
            invariant
                n.wf(),
                n.tree == tree,
                total <= usize::MAX,
                total == node_size(node),
                total == node_size(old(n).model().node()),
                node == field[index],
                fs == node.fields,
                0 <= j < fs.len(),
                g == fs[j].1,
                frame == (FrameModel { field, index, key: fs[j].0, next: Some(j + 1) }),
                fields_state == (CursorModel::Fields { field: g, frame, parents }),
                parents.push(frame).drop_last() == parents,
                base == 1 + fields_size(fs.subrange(0, j)),
                base + nodes_size(g) <= total,
                in_nodes == n.in_nodes(),
                in_nodes ==> 0 <= c < g.len() && n.model() == (CursorModel::Nodes {
                    field: g,
                    index: c,
                    parents: parents.push(frame),
                }) && count == base + nodes_size(g.subrange(0, c)),
                !in_nodes ==> n.model() == fields_state && count == base + nodes_size(g),
            decreases g.len() - c, if in_nodes { 1int } else { 0int },
        {
            proof {
                lemma_nodes_size_step(g, c);
                lemma_nodes_size_prefix(g, c + 1);
                lemma_fields_size_prefix(fs, j + 1);
                lemma_fields_size_step(fs, j);
            }
            assert(node_size(n.model().node()) < total);
            let sub = walk_subtree(n);
            count = count + sub;
            in_nodes = n.next_node();
            proof {
                c = c + 1;
                if !in_nodes {
                    assert(g.subrange(0, g.len() as int) =~= g);
                }
            }
        }
        proof {
            lemma_fields_size_step(fs, j);
        }
        in_fields = n.next_field();
        proof {
            j = j + 1;
            if !in_fields {
                assert(fs.subrange(0, fs.len() as int) =~= fs);
            }
        }
    }
    count
}

/// Walks the subtree of the selected node down to `depth` levels below it, and puts the
/// cursor back where it was. Returns the number of nodes met, the selected one included.
pub fn walk_subtree_depth(n: &mut WasmCursor, depth: usize) -> (r: usize)
    requires
        old(n).wf(),
        old(n).in_nodes(),
        node_size_within(old(n).model().node(), depth as nat) <= usize::MAX,
    ensures
        final(n).wf(),
        final(n).model() == old(n).model(),
        final(n).in_nodes(),
        final(n).tree == old(n).tree,
        r == node_size_within(old(n).model().node(), depth as nat),
    decreases depth,
{
    let ghost m0 = n.model();
    let ghost field = m0.field();
    let ghost index = m0.index();
    let ghost parents = m0.parents();
    let ghost node = m0.node();
    let ghost fs = node.fields;
    let ghost tree = n.tree;
    let ghost total = node_size_within(node, depth as nat);
    let mut count: usize = 1;
    if depth == 0 {
        return count;
    }
    let ghost d = (depth - 1) as nat;
    let mut in_fields = n.first_field();
    let ghost mut j: int = 0;
    proof {
        assert(fs.subrange(0, 0) =~= Seq::<(Seq<char>, Seq<NodeModel>)>::empty());
        if !in_fields {
            assert(fs.subrange(0, fs.len() as int) =~= fs);
        }
    }
    while in_fields
        invariant
            n.wf(),
            n.tree == tree,
            m0 == (CursorModel::Nodes { field, index, parents }),
            node == field[index],
            fs == node.fields,
            total == node_size_within(node, depth as nat),
            depth > 0,
            d == depth - 1,
            total == node_size_within(old(n).model().node(), depth as nat),
            total <= usize::MAX,
            in_fields == !n.in_nodes(),
            in_fields ==> 0 <= j < fs.len() && n.model() == (CursorModel::Fields {
                field: fs[j].1,
                frame: FrameModel { field, index, key: fs[j].0, next: Some(j + 1) },
                parents,
            }) && count == 1 + fields_size_within(fs.subrange(0, j), d),
            !in_fields ==> n.model() == m0 && count == 1 + fields_size_within(fs, d),
        decreases fs.len() - j, if in_fields { 1int } else { 0int },
    {
        let ghost g = fs[j].1;
        let ghost frame = FrameModel { field, index, key: fs[j].0, next: Some(j + 1) };
        let ghost base = count as int;
        let ghost fields_state = n.model();
        proof {
            assert(total == 1 + fields_size_within(fs, d));
            lemma_fields_within_step(fs, j, d);
            lemma_fields_within_prefix(fs, j + 1, d);
            assert(parents.push(frame).drop_last() =~= parents);
        }
        let mut in_nodes = n.first_node();
        let ghost mut c: int = 0;
        proof {
            assert(g.subrange(0, 0) =~= Seq::<NodeModel>::empty());
            if !in_nodes {
                assert(g.subrange(0, g.len() as int) =~= g);
            }
        }
        while in_nodes
            invariant
                n.wf(),
                n.tree == tree,
                total <= usize::MAX,
                total == node_size_within(node, depth as nat),
                depth > 0,
                d == depth - 1,
                total == node_size_within(old(n).model().node(), depth as nat),
                node == field[index],
                fs == node.fields,
                0 <= j < fs.len(),
                g == fs[j].1,
                frame == (FrameModel { field, index, key: fs[j].0, next: Some(j + 1) }),
                fields_state == (CursorModel::Fields { field: g, frame, parents }),
                parents.push(frame).drop_last() == parents,
                base == 1 + fields_size_within(fs.subrange(0, j), d),
                base + nodes_size_within(g, d) <= total,
                in_nodes == n.in_nodes(),
                in_nodes ==> 0 <= c < g.len() && n.model() == (CursorModel::Nodes {
                    field: g,
                    index: c,
                    parents: parents.push(frame),
                }) && count == base + nodes_size_within(g.subrange(0, c), d),
                !in_nodes ==> n.model() == fields_state && count == base + nodes_size_within(g, d),
            decreases g.len() - c, if in_nodes { 1int } else { 0int },
        {
            proof {
                lemma_nodes_within_step(g, c, d);
                lemma_nodes_within_prefix(g, c + 1, d);
                lemma_fields_within_prefix(fs, j + 1, d);
                lemma_fields_within_step(fs, j, d);
            }
            let sub = walk_subtree_depth(n, depth - 1);
            count = count + sub;
            in_nodes = n.next_node();
            proof {
                c = c + 1;
                if !in_nodes {
                    assert(g.subrange(0, g.len() as int) =~= g);
                }
            }
        }
        proof {
            lemma_fields_within_step(fs, j, d);
        }
        in_fields = n.next_field();
        proof {
            j = j + 1;
            if !in_fields {
                assert(fs.subrange(0, fs.len() as int) =~= fs);
            }
        }
    }
    count
}

/// Walks the subtree of the selected node with the underlying cursor's moves, and puts
/// the cursor back where it was. Returns the number of nodes in the subtree, its root
/// included.
pub fn walk_subtree_internal(n: &mut WasmCursor) -> (r: usize)
    requires
        old(n).wf(),
        old(n).in_nodes(),
        node_size(old(n).model().node()) <= usize::MAX,
    ensures
        final(n).wf(),
        final(n).model() == old(n).model(),
        final(n).in_nodes(),
        final(n).tree == old(n).tree,
        r == node_size(old(n).model().node()),
{
    match n.take() {
        CursorState::Nodes(c) => {
            let mut count: usize = 0;
            let back = inner(c, &mut count);
            n.state = CursorState::Nodes(back);
            count
        },
        _ => 0,
    }
}

/// Walks the first top-level node of the handle's tree directly over its nodes, without
/// the cursor. Returns the number of nodes in its subtree, itself included.
pub fn walk_subtree_internal2(n: &WasmCursor) -> (r: usize)
    requires
        n.tree_wf(),
        n.tree_model().len() > 0,
        node_size(n.tree_model()[0]) <= usize::MAX,
    ensures
        r == node_size(n.tree_model()[0]),
{
    let root = n.tree.view().index(0).unwrap();
    walk_all(root)
}

} // verus!
