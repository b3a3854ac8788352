//! Uniform chunks: many nodes of one shape stored as a byte blob described by a
//! shared schema.
use std::rc::Rc;
use vstd::prelude::*;

use crate::tree::{
    at_node, first_key_at, selected, FieldKey, Indexable, Node, NodeData, NodeModel, NodeNav, Tree,
    TreeType,
};
use crate::util::slice_with_length;

verus! {

/// Shape shared by the nodes of one field of a chunk.
pub struct ChunkSchema {
    pub tree_type: TreeType,
    /// Number of nodes in the field.
    pub top_level_length: u32,
    /// Bytes taken by each node of the field.
    pub bytes_per_top_level_node: u32,
    /// Bytes at the start of each node that hold its payload.
    pub payload_size: Option<u16>,
    /// The fields of each node, ordered by byte offset.
    pub field_list: Vec<(FieldKey, OffsetSchema)>,
}

/// A field of a node: its schema and where its first node starts, counted from the
/// first byte of the parent node.
pub struct OffsetSchema {
    pub schema: Rc<ChunkSchema>,
    pub byte_offset: u32,
}

impl OffsetSchema {
    /// The schema of the field.
    pub open spec fn sub(&self) -> ChunkSchema {
        *self.schema
    }
}

/// Bytes that the nodes of a field take together.
pub open spec fn field_bytes(s: ChunkSchema) -> int {
    s.bytes_per_top_level_node * s.top_level_length
}

/// The fields of a schema, in byte-offset order.
pub open spec fn schema_fields(s: ChunkSchema) -> Seq<(FieldKey, OffsetSchema)> {
    s.field_list@
}

/// One field entry lies inside a node of `stride` bytes and is not empty.
pub open spec fn entry_fits(f: OffsetSchema, stride: int) -> bool {
    &&& f.schema.top_level_length > 0
    &&& f.byte_offset + field_bytes(*f.schema) <= stride
}

/// Field entries: each inside the node, keys distinct, ordered by byte offset.
pub open spec fn entries_wf(fs: Seq<(FieldKey, OffsetSchema)>, stride: int) -> bool {
    &&& forall|i: int| 0 <= i < fs.len() ==> entry_fits(#[trigger] fs[i].1, stride)
    &&& forall|i: int, j: int| 0 <= i < fs.len() && 0 <= j < fs.len() && i != j ==> fs[i].0@ != fs[j].0@
    &&& forall|i: int, j: int| 0 <= i < j < fs.len() ==> fs[i].1.byte_offset <= fs[j].1.byte_offset
}

/// The schema's layout is consistent, at every level.
pub open spec fn schema_wf(s: ChunkSchema) -> bool
    decreases s,
{
    &&& (s.payload_size matches Some(p) ==> p <= s.bytes_per_top_level_node)
    &&& entries_wf(s.field_list@, s.bytes_per_top_level_node as int)
    &&& forall|i: int| 0 <= i < s.field_list@.len() ==> schema_wf(*(#[trigger] s.field_list@[i]).1.schema)
}

/// Bytes of node `i` in the window `w` of a field of schema `s`.
pub open spec fn node_window(s: ChunkSchema, w: Seq<u8>, i: int) -> Seq<u8> {
    w.subrange(i * s.bytes_per_top_level_node, (i + 1) * s.bytes_per_top_level_node)
}

/// Bytes of the field `f` inside the bytes `nd` of its parent node.
pub open spec fn sub_window(nd: Seq<u8>, f: OffsetSchema) -> Seq<u8> {
    nd.subrange(f.byte_offset as int, f.byte_offset + field_bytes(*f.schema))
}

/// The first `n` nodes that schema `s` reads from the field window `w`.
pub open spec fn field_model(s: ChunkSchema, w: Seq<u8>, n: nat) -> Seq<NodeModel>
    decreases s, 2nat, n,
{
    if n == 0 {
        Seq::empty()
    } else {
        field_model(s, w, (n - 1) as nat).push(node_model(s, w, n - 1))
    }
}

/// Node `i` that schema `s` reads from the field window `w`.
pub open spec fn node_model(s: ChunkSchema, w: Seq<u8>, i: int) -> NodeModel
    decreases s, 1nat, 0nat,
{
    let nd = node_window(s, w, i);
    NodeModel {
        def: s.tree_type@,
        payload: match s.payload_size {
            Some(p) => Some(nd.subrange(0, p as int)),
            None => None,
        },
        fields: entries_model(s, nd, s.field_list@.len()),
    }
}

/// The first `k` fields of a node of schema `s` whose bytes are `nd`.
pub open spec fn entries_model(s: ChunkSchema, nd: Seq<u8>, k: nat) -> Seq<(Seq<char>, Seq<NodeModel>)>
    decreases s, 0nat, k,
{
    if k == 0 || k > s.field_list@.len() {
        Seq::empty()
    } else {
        let f = s.field_list@[k - 1];
        entries_model(s, nd, (k - 1) as nat).push(
            (f.0@, field_model(*f.1.schema, sub_window(nd, f.1), f.1.schema.top_level_length as nat)),
        )
    }
}

pub proof fn lemma_field_model(s: ChunkSchema, w: Seq<u8>, n: nat)
    ensures
        field_model(s, w, n).len() == n,
        forall|i: int| 0 <= i < n ==> #[trigger] field_model(s, w, n)[i] == node_model(s, w, i),
    decreases n,
{
    if n > 0 {
        lemma_field_model(s, w, (n - 1) as nat);
    }
}

pub proof fn lemma_entries_model(s: ChunkSchema, nd: Seq<u8>, k: nat)
    requires
        k <= s.field_list@.len(),
    ensures
        entries_model(s, nd, k).len() == k,
        forall|j: int|
            0 <= j < k ==> #[trigger] entries_model(s, nd, k)[j] == (
                s.field_list@[j].0@,
                field_model(
                    *s.field_list@[j].1.schema,
                    sub_window(nd, s.field_list@[j].1),
                    s.field_list@[j].1.schema.top_level_length as nat,
                ),
            ),
    decreases k,
{
    if k > 0 {
        lemma_entries_model(s, nd, (k - 1) as nat);
    }
}

/// A window onto the nodes of one field of a chunk.
pub struct ChunkInfo {
    schema: Rc<ChunkSchema>,
    data: Rc<Vec<u8>>,
    start: usize,
}

/// A node of a chunk: the field it stands in, and its position there.
pub struct UniformChunkNode {
    pub view: ChunkInfo,
    pub offset: u32,
}

impl ChunkInfo {
    /// The schema of the field.
    pub closed spec fn sch(&self) -> ChunkSchema {
        *self.schema
    }

    /// The bytes of the field.
    pub closed spec fn window(&self) -> Seq<u8> {
        self.data@.subrange(self.start as int, self.start + field_bytes(*self.schema))
    }

    /// The window lies inside the chunk's bytes and the schema is consistent.
    pub closed spec fn info_wf(&self) -> bool {
        &&& schema_wf(*self.schema)
        &&& self.start + field_bytes(*self.schema) <= self.data@.len()
    }

    /// The nodes of the field.
    pub closed spec fn model(&self) -> Seq<NodeModel> {
        field_model(*self.schema, self.window(), self.schema.top_level_length as nat)
    }

    fn duplicate(&self) -> (r: ChunkInfo)
        ensures
            r == *self,
    {
        ChunkInfo { schema: self.schema.clone(), data: self.data.clone(), start: self.start }
    }

    /// Number of nodes in the field.
    pub fn len(&self) -> (r: usize)
        requires
            self.info_wf(),
        ensures
            r == self.model().len(),
    {
        proof {
            lemma_field_model(self.sch(), self.window(), self.schema.top_level_length as nat);
        }
        self.schema.top_level_length as usize
    }

    /// The field with its first position selected; the field may be empty.
    pub fn first(&self) -> (r: UniformChunkNode)
        requires
            self.info_wf(),
        ensures
            r.wf(),
            r.nodes() == self.model(),
            r.offset() == 0,
    {
        UniformChunkNode { view: self.duplicate(), offset: 0 }
    }

    /// The node at position `i`, or `None` past the end of the field.
    pub fn index(&self, i: usize) -> (r: Option<UniformChunkNode>)
        requires
            self.info_wf(),
        ensures
            r.is_some() == (i < self.model().len()),
            r matches Some(n) ==> n.wf() && n.nodes() == self.model() && n.offset() == i,
    {
        proof {
            lemma_field_model(self.sch(), self.window(), self.schema.top_level_length as nat);
        }
        if i < self.schema.top_level_length as usize {
            Some(UniformChunkNode { view: self.duplicate(), offset: i as u32 })
        } else {
            None
        }
    }
}

proof fn lemma_node_bytes(ci: ChunkInfo, o: int)
    requires
        ci.info_wf(),
        0 <= o < ci.schema.top_level_length,
    ensures
        0 <= o * ci.schema.bytes_per_top_level_node,
        ci.start + o * ci.schema.bytes_per_top_level_node + ci.schema.bytes_per_top_level_node
            <= ci.start + field_bytes(*ci.schema),
        node_window(*ci.schema, ci.window(), o) == ci.data@.subrange(
            ci.start + o * ci.schema.bytes_per_top_level_node,
            ci.start + o * ci.schema.bytes_per_top_level_node + ci.schema.bytes_per_top_level_node,
        ),
{
    let stride = ci.schema.bytes_per_top_level_node as int;
    let len = ci.schema.top_level_length as int;
    assert(o * stride + stride <= len * stride && 0 <= o * stride) by (nonlinear_arith)
        requires
            0 <= o < len,
            0 <= stride,
    ;
    assert((o + 1) * stride == o * stride + stride) by (nonlinear_arith);
    assert(node_window(*ci.schema, ci.window(), o) =~= ci.data@.subrange(
        ci.start + o * stride,
        ci.start + o * stride + stride,
    ));
}

/// `s` is ordered by byte offset.
pub open spec fn sorted_by_offset(s: Seq<(FieldKey, OffsetSchema)>) -> bool {
    forall|i: int, j: int| 0 <= i < j < s.len() ==> s[i].1.byte_offset <= s[j].1.byte_offset
}

/// A field entry is valid in a node of `stride` bytes: it fits there, is not empty,
/// and its own schema is consistent.
pub open spec fn entry_ok(f: OffsetSchema, stride: int) -> bool {
    &&& entry_fits(f, stride)
    &&& schema_wf(f.sub())
}

/// Entries with pairwise distinct keys.
pub open spec fn distinct_keys(fs: Seq<(FieldKey, OffsetSchema)>) -> bool {
    forall|i: int, j: int| 0 <= i < fs.len() && 0 <= j < fs.len() && i != j ==> fs[i].0@ != fs[j].0@
}

fn copy_entry(e: &(FieldKey, OffsetSchema)) -> (r: (FieldKey, OffsetSchema))
    ensures
        r == *e,
{
    (e.0.duplicate(), OffsetSchema { schema: e.1.schema.clone(), byte_offset: e.1.byte_offset })
}

impl ChunkSchema {
    /// A schema whose nodes have the given fields, kept in byte-offset order.
    pub fn new(
        tree_type: TreeType,
        top_level_length: u32,
        bytes_per_top_level_node: u32,
        payload_size: Option<u16>,
        fields: &[(FieldKey, OffsetSchema)],
    ) -> (r: ChunkSchema)
        requires
            payload_size matches Some(p) ==> p <= bytes_per_top_level_node,
            forall|i: int| 0 <= i < fields@.len() ==> entry_ok(#[trigger] fields@[i].1, bytes_per_top_level_node as int),
            distinct_keys(fields@),
        ensures
            schema_wf(r),
            r.tree_type == tree_type,
            r.top_level_length == top_level_length,
            r.bytes_per_top_level_node == bytes_per_top_level_node,
            r.payload_size == payload_size,
            sorted_by_offset(schema_fields(r)),
            schema_fields(r).len() == fields@.len(),
            schema_fields(r).to_multiset() == fields@.to_multiset(),
            forall|m: int| 0 <= m < fields@.len() ==> fields@.contains(#[trigger] schema_fields(r)[m]),
    {
        let n = fields.len();
        let mut out: Vec<(FieldKey, OffsetSchema)> = Vec::new();
        let ghost mut idx: Seq<int> = Seq::empty();
        let mut i: usize = 0;
        proof {
            assert(fields@.subrange(0, 0) =~= out@);
        }
        while i < n
            invariant
                n == fields@.len(),
                i <= n,
                out@.len() == i,
                idx.len() == i,
                sorted_by_offset(out@),
                out@.to_multiset() == fields@.subrange(0, i as int).to_multiset(),
                forall|m: int| 0 <= m < i ==> 0 <= #[trigger] idx[m] < i && out@[m] == fields@[idx[m]],
                forall|a: int, b: int| 0 <= a < i && 0 <= b < i && a != b ==> idx[a] != idx[b],
            decreases n - i,
        {
            let e = copy_entry(&fields[i]);
            let mut pos: usize = out.len();
            while pos > 0 && out[pos - 1].1.byte_offset > e.1.byte_offset
                invariant
                    pos <= out@.len(),
                    forall|m: int| pos <= m < out@.len() ==> #[trigger] out@[m].1.byte_offset > e.1.byte_offset,
                decreases pos,
            {
                pos = pos - 1;
            }
            let ghost before = out@;
            out.insert(pos, e);
            proof {
                assert(fields@.subrange(0, i + 1) =~= fields@.subrange(0, i as int).push(fields@[i as int]));
                assert(out@ == before.insert(pos as int, e));
                vstd::seq_lib::to_multiset_insert(before, pos as int, e);
                vstd::seq_lib::to_multiset_build(fields@.subrange(0, i as int), fields@[i as int]);
                let old_idx = idx;
                idx = idx.insert(pos as int, i as int);
                assert forall|m: int| 0 <= m < i + 1 implies 0 <= #[trigger] idx[m] < i + 1 && out@[m] == fields@[idx[m]] by {
                    if m < pos {
                        assert(idx[m] == old_idx[m]);
                    } else if m > pos {
                        assert(idx[m] == old_idx[m - 1]);
                    }
                }
                assert forall|a: int, b: int| 0 <= a < i + 1 && 0 <= b < i + 1 && a != b implies idx[a] != idx[b] by {
                    if a != pos && b != pos {
                        let oa = if a < pos { a } else { a - 1 };
                        let ob = if b < pos { b } else { b - 1 };
                        assert(idx[a] == old_idx[oa]);
                        assert(idx[b] == old_idx[ob]);
                    } else if a == pos {
                        let ob = if b < pos { b } else { b - 1 };
                        assert(idx[b] == old_idx[ob]);
                    } else {
                        let oa = if a < pos { a } else { a - 1 };
                        assert(idx[a] == old_idx[oa]);
                    }
                }
                assert forall|a: int, b: int| 0 <= a < b < out@.len() implies out@[a].1.byte_offset <= out@[b].1.byte_offset by {
                    if b == pos {
                        if a < pos {
                            assert(before[a].1.byte_offset <= before[pos - 1].1.byte_offset);
                        }
                    } else if a == pos {
                        assert(before[b - 1].1.byte_offset > e.1.byte_offset);
                    } else {
                        let oa = if a < pos { a } else { a - 1 };
                        let ob = if b < pos { b } else { b - 1 };
                        assert(out@[a] == before[oa]);
                        assert(out@[b] == before[ob]);
                    }
                }
            }
            i = i + 1;
        }
        let r = ChunkSchema {
            tree_type,
            top_level_length,
            bytes_per_top_level_node,
            payload_size,
            field_list: out,
        };
        proof {
            assert(fields@.subrange(0, n as int) =~= fields@);
            assert forall|m: int| 0 <= m < out@.len() implies entry_fits(#[trigger] out@[m].1, bytes_per_top_level_node as int) && schema_wf(*out@[m].1.schema) by {
                assert(entry_ok(fields@[idx[m]].1, bytes_per_top_level_node as int));
            }
            assert forall|a: int, b: int| 0 <= a < out@.len() && 0 <= b < out@.len() && a != b implies out@[a].0@ != out@[b].0@ by {
                assert(idx[a] != idx[b]);
            }
            assert forall|m: int| 0 <= m < fields@.len() implies fields@.contains(#[trigger] out@[m]) by {
                assert(out@[m] == fields@[idx[m]]);
            }
        }
        r
    }

    /// A schema of leaves whose nodes hold nothing but their payload.
    pub fn new_leaf(tree_type: TreeType, top_level_length: u32, payload_size: Option<u16>) -> (r: ChunkSchema)
        ensures
            schema_wf(r),
            r.tree_type == tree_type,
            r.top_level_length == top_level_length,
            r.bytes_per_top_level_node == (match payload_size {
                Some(p) => p as u32,
                None => 0u32,
            }),
            r.payload_size == payload_size,
            schema_fields(r).len() == 0,
    {
        let bytes: u32 = match payload_size {
            Some(p) => p as u32,
            None => 0,
        };
        ChunkSchema::new(tree_type, top_level_length, bytes, payload_size, &[])
    }
}

/// The schema of an absent field: no nodes, no fields.
fn empty_schema() -> (r: ChunkSchema)
    ensures
        schema_wf(r),
        r.top_level_length == 0,
        r.bytes_per_top_level_node == 0,
{
    ChunkSchema {
        tree_type: TreeType(String::new()),
        top_level_length: 0,
        bytes_per_top_level_node: 0,
        payload_size: None,
        field_list: Vec::new(),
    }
}

impl UniformChunkNode {
    /// First byte of the node, counted in the chunk's bytes.
    fn node_start(&self) -> (r: usize)
        requires
            at_node(self),
        ensures
            r == self.view.start + self.offset * self.view.schema.bytes_per_top_level_node,
            r + self.view.schema.bytes_per_top_level_node <= self.view.data@.len(),
            node_window(self.view.sch(), self.view.window(), self.offset as int)
                == self.view.data@.subrange(r as int, r + self.view.schema.bytes_per_top_level_node),
    {
        proof {
            lemma_field_model(self.view.sch(), self.view.window(), self.view.schema.top_level_length as nat);
            lemma_node_bytes(self.view, self.offset as int);
        }
        let _total = self.view.data.len();
        self.view.start + self.offset as usize * self.view.schema.bytes_per_top_level_node as usize
    }

    /// The field at position `j` of the node's schema, its first node selected.
    fn entry_view(&self, j: usize) -> (r: UniformChunkNode)
        requires
            at_node(self),
            j < self.view.schema.field_list@.len(),
        ensures
            r.wf(),
            r.nodes() == selected(self).fields[j as int].1,
            r.offset() == 0,
    {
        let ghost s = self.view.sch();
        let ghost nd = node_window(s, self.view.window(), self.offset as int);
        let ns = self.node_start();
        let entry = &self.view.schema.field_list[j];
        proof {
            lemma_field_model(s, self.view.window(), s.top_level_length as nat);
            lemma_entries_model(s, nd, s.field_list@.len());
            assert(entry_fits(entry.1, s.bytes_per_top_level_node as int));
            assert(schema_wf(entry.1.sub()));
        }
        let _total = self.view.data.len();
        let start = ns + entry.1.byte_offset as usize;
        let info = ChunkInfo { schema: entry.1.schema.clone(), data: self.view.data.clone(), start };
        proof {
            assert(info.window() =~= sub_window(nd, entry.1));
        }
        UniformChunkNode { view: info, offset: 0 }
    }
}

impl UniformChunkNode {
    /// The bytes of this node: its slot in the window of its field.
    pub fn data(&self) -> (r: &[u8])
        requires
            at_node(self),
        ensures
            r@ == self.view.window().subrange(
                self.offset * self.view.sch().bytes_per_top_level_node,
                (self.offset + 1) * self.view.sch().bytes_per_top_level_node,
            ),
    {
        let ns = self.node_start();
        slice_with_length(self.view.data.as_slice(), ns, self.view.schema.bytes_per_top_level_node as usize)
    }
}

/// A tree stored as one uniform chunk: a schema and the bytes that it reads.
pub struct UniformChunk {
    data: Rc<Vec<u8>>,
    schema: Rc<ChunkSchema>,
}

impl UniformChunk {
    /// The schema of the top-level field.
    pub closed spec fn sch(&self) -> ChunkSchema {
        *self.schema
    }

    /// The data holds exactly the bytes that the schema describes.
    pub closed spec fn chunk_wf(&self) -> bool {
        &&& schema_wf(*self.schema)
        &&& self.data@.len() == field_bytes(*self.schema)
    }

    /// The top-level nodes of the chunk.
    pub closed spec fn model(&self) -> Seq<NodeModel> {
        field_model(*self.schema, self.data@, self.schema.top_level_length as nat)
    }

    pub fn new(schema: Rc<ChunkSchema>, data: Vec<u8>) -> (r: UniformChunk)
        requires
            schema_wf(*schema),
            data@.len() == field_bytes(*schema),
        ensures
            r.chunk_wf(),
            r.model() == field_model(*schema, data@, schema.top_level_length as nat),
            r.model().len() == schema.top_level_length,
    {
        let r = UniformChunk { schema, data: Rc::new(data) };
        proof {
            lemma_field_model(r.sch(), r.data@, r.schema.top_level_length as nat);
        }
        r
    }

    /// Number of top-level nodes.
    pub fn get_count(&self) -> (r: usize)
        requires
            self.chunk_wf(),
        ensures
            r == self.model().len(),
    {
        proof {
            lemma_field_model(self.sch(), self.data@, self.schema.top_level_length as nat);
        }
        self.schema.top_level_length as usize
    }

    /// The top-level field of the chunk.
    pub fn view(&self) -> (r: ChunkInfo)
        requires
            self.chunk_wf(),
        ensures
            r.info_wf(),
            r.model() == self.model(),
    {
        let r = ChunkInfo { schema: self.schema.clone(), data: self.data.clone(), start: 0 };
        proof {
            assert(r.window() =~= self.data@);
        }
        r
    }
}

/// Positions and lengths of a chunk field fit in 32 bits.
pub proof fn lemma_chunk_bounds(n: &UniformChunkNode)
    requires
        n.wf(),
    ensures
        n.nodes().len() <= u32::MAX,
        n.offset() <= u32::MAX,
{
    lemma_field_model(n.view.sch(), n.view.window(), n.view.sch().top_level_length as nat);
}

impl Indexable for UniformChunkNode {
    closed spec fn nodes(&self) -> Seq<NodeModel> {
        self.view.model()
    }

    closed spec fn offset(&self) -> int {
        self.offset as int
    }

    closed spec fn wf(&self) -> bool {
        self.view.info_wf()
    }

    fn position(&self) -> (r: usize) {
        self.offset as usize
    }

    fn len(&self) -> (r: usize) {
        self.view.len()
    }

    fn index(&self, i: usize) -> (r: Option<Self>) {
        self.view.index(i)
    }
}

impl NodeNav for UniformChunkNode {
    fn get_field(&self, key: &FieldKey) -> (r: Self) {
        let ghost s = self.view.sch();
        let ghost nd = node_window(s, self.view.window(), self.offset as int);
        proof {
            lemma_field_model(s, self.view.window(), s.top_level_length as nat);
            lemma_entries_model(s, nd, s.field_list@.len());
        }
        let ghost fs = selected(self).fields;
        let n = self.view.schema.field_list.len();
        let mut j: usize = 0;
        while j < n
            invariant
                at_node(self),
                n == s.field_list@.len(),
                s == self.view.sch(),
                fs == selected(self).fields,
                fs.len() == n,
                j <= n,
                forall|m: int| 0 <= m < j ==> fs[m].0 != key@,
                forall|m: int| 0 <= m < n ==> #[trigger] fs[m].0 == s.field_list@[m].0@,
            decreases n - j,
        {
            if self.view.schema.field_list[j].0.same(key) {
                let r = self.entry_view(j);
                proof {
                    assert(first_key_at(fs, key@, j as int));
                    let c = choose|i: int| first_key_at(fs, key@, i);
                    assert(c == j) by {
                        if c < j {
                        } else if c > j {
                            assert(fs[j as int].0 == key@);
                        }
                    }
                }
                return r;
            }
            j = j + 1;
        }
        let ns = self.node_start();
        let info = ChunkInfo { schema: Rc::new(empty_schema()), data: self.view.data.clone(), start: ns };
        proof {
            lemma_field_model(info.sch(), info.window(), 0);
            assert(!exists|i: int| first_key_at(fs, key@, i));
        }
        UniformChunkNode { view: info, offset: 0 }
    }

    fn field_count(&self) -> (r: usize) {
        let ghost s = self.view.sch();
        let ghost nd = node_window(s, self.view.window(), self.offset as int);
        proof {
            lemma_field_model(s, self.view.window(), s.top_level_length as nat);
            lemma_entries_model(s, nd, s.field_list@.len());
            let fs = selected(self).fields;
            assert forall|i: int| 0 <= i < fs.len() implies #[trigger] fs[i].1.len() > 0 by {
                let f = s.field_list@[i];
                assert(entry_fits(f.1, s.bytes_per_top_level_node as int));
                lemma_field_model(f.1.sub(), sub_window(nd, f.1), f.1.schema.top_level_length as nat);
            }
        }
        self.view.schema.field_list.len()
    }

    fn field_key(&self, k: usize) -> (r: FieldKey) {
        proof {
            let s = self.view.sch();
            lemma_field_model(s, self.view.window(), s.top_level_length as nat);
            lemma_entries_model(s, node_window(s, self.view.window(), self.offset as int), s.field_list@.len());
        }
        self.view.schema.field_list[k].0.duplicate()
    }

    fn field_at(&self, k: usize) -> (r: Self) {
        proof {
            let s = self.view.sch();
            lemma_field_model(s, self.view.window(), s.top_level_length as nat);
            lemma_entries_model(s, node_window(s, self.view.window(), self.offset as int), s.field_list@.len());
        }
        self.entry_view(k)
    }

    fn is_leaf(&self) -> (r: bool) {
        proof {
            let s = self.view.sch();
            lemma_field_model(s, self.view.window(), s.top_level_length as nat);
            lemma_entries_model(s, node_window(s, self.view.window(), self.offset as int), s.field_list@.len());
        }
        self.view.schema.field_list.len() == 0
    }

}

impl NodeData for UniformChunkNode {
    fn get_def(&self) -> (r: TreeType) {
        proof {
            let s = self.view.sch();
            lemma_field_model(s, self.view.window(), s.top_level_length as nat);
        }
        self.view.schema.tree_type.duplicate()
    }

    fn get_payload(&self) -> (r: Option<&[u8]>) {
        proof {
            let s = self.view.sch();
            lemma_field_model(s, self.view.window(), s.top_level_length as nat);
        }
        match self.view.schema.payload_size {
            Some(p) => {
                let ns = self.node_start();
                let bytes = slice_with_length(self.view.data.as_slice(), ns, p as usize);
                proof {
                    let nd = node_window(self.view.sch(), self.view.window(), self.offset as int);
                    assert(bytes@ =~= nd.subrange(0, p as int));
                }
                Some(bytes)
            },
            None => None,
        }
    }
}

impl Node for UniformChunkNode {

}

impl Tree for UniformChunk {
    type TNode<'a> = UniformChunkNode;

    open spec fn tree_nodes(&self) -> Seq<NodeModel> {
        self.model()
    }

    open spec fn tree_ok(&self) -> bool {
        self.chunk_wf()
    }

    fn view<'a>(&'a self) -> (r: UniformChunkNode) {
        UniformChunk::view(self).first()
    }
}

} // verus!
