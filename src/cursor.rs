//! The generic two-mode cursor, over any node representation.
use vstd::prelude::*;

use crate::tree::{
    at_node, field_nodes, first_key_at, read_value, selected, value_of, FieldKey, Indexable, Node,
    NodeModel, TreeType, Value,
};

verus! {

/// One ancestor level of a cursor: the node it stands on and the field it went into.
pub struct FrameModel {
    pub field: Seq<NodeModel>,
    pub index: int,
    pub key: Seq<char>,
    /// Position of the next field of the iteration; `None` when the field was entered by key.
    pub next: Option<int>,
}

/// Abstract state of a cursor.
pub enum CursorModel {
    /// A node is selected: node `index` of `field`.
    Nodes { field: Seq<NodeModel>, index: int, parents: Seq<FrameModel> },
    /// A field under the node of `frame` is selected; its nodes are `field`.
    Fields { field: Seq<NodeModel>, frame: FrameModel, parents: Seq<FrameModel> },
}

impl CursorModel {
    /// The nodes of the selected field, or of the field that holds the selected node.
    pub open spec fn field(self) -> Seq<NodeModel> {
        match self {
            CursorModel::Nodes { field, .. } => field,
            CursorModel::Fields { field, .. } => field,
        }
    }

    /// Position of the selected node; `0` in a field.
    pub open spec fn index(self) -> int {
        match self {
            CursorModel::Nodes { index, .. } => index,
            CursorModel::Fields { .. } => 0,
        }
    }

    /// The ancestor levels, outermost first.
    pub open spec fn parents(self) -> Seq<FrameModel> {
        match self {
            CursorModel::Nodes { parents, .. } => parents,
            CursorModel::Fields { parents, .. } => parents,
        }
    }

    /// The selected node.
    pub open spec fn node(self) -> NodeModel {
        self.field()[self.index()]
    }
}

/// The node that a frame stands on.
pub open spec fn frame_node(f: FrameModel) -> NodeModel {
    f.field[f.index]
}

/// Leave the selected node for the field that holds it.
pub open spec fn exit_node_spec(field: Seq<NodeModel>, parents: Seq<FrameModel>) -> CursorModel {
    CursorModel::Fields { field, frame: parents.last(), parents: parents.drop_last() }
}

/// Move `d` nodes within the field; past either end, leave the node for its field.
pub open spec fn seek_nodes_spec(m: CursorModel, d: int) -> CursorModel {
    match m {
        CursorModel::Nodes { field, index, parents } => if 0 <= index + d < field.len() {
            CursorModel::Nodes { field, index: index + d, parents }
        } else {
            exit_node_spec(field, parents)
        },
        CursorModel::Fields { .. } => m,
    }
}

/// Enter the first field of the selected node; stay on a leaf.
pub open spec fn first_field_spec(m: CursorModel) -> CursorModel {
    match m {
        CursorModel::Nodes { field, index, parents } => {
            let n = field[index];
            if n.fields.len() == 0 {
                m
            } else {
                CursorModel::Fields {
                    field: n.fields[0].1,
                    frame: FrameModel { field, index, key: n.fields[0].0, next: Some(1) },
                    parents,
                }
            }
        },
        CursorModel::Fields { .. } => m,
    }
}

/// Enter the field `key` of the selected node, empty or not.
pub open spec fn enter_field_spec(m: CursorModel, key: Seq<char>) -> CursorModel {
    match m {
        CursorModel::Nodes { field, index, parents } => CursorModel::Fields {
            field: field_nodes(field[index], key),
            frame: FrameModel { field, index, key, next: None },
            parents,
        },
        CursorModel::Fields { .. } => m,
    }
}

/// Leave the selected field for the node that holds it.
pub open spec fn exit_field_spec(m: CursorModel) -> CursorModel {
    match m {
        CursorModel::Fields { field, frame, parents } => CursorModel::Nodes {
            field: frame.field,
            index: frame.index,
            parents,
        },
        CursorModel::Nodes { .. } => m,
    }
}

/// Go on to the next field of the iteration; after the last one, or when the field was
/// entered by key, leave for the node.
pub open spec fn next_field_spec(m: CursorModel) -> CursorModel {
    match m {
        CursorModel::Fields { field, frame, parents } => {
            let n = frame_node(frame);
            match frame.next {
                Some(j) => if 0 <= j < n.fields.len() {
                    CursorModel::Fields {
                        field: n.fields[j].1,
                        frame: FrameModel { key: n.fields[j].0, next: Some(j + 1), ..frame },
                        parents,
                    }
                } else {
                    exit_field_spec(m)
                },
                None => exit_field_spec(m),
            }
        },
        CursorModel::Nodes { .. } => m,
    }
}

/// Select node `i` of the selected field.
pub open spec fn enter_node_spec(m: CursorModel, i: int) -> CursorModel {
    match m {
        CursorModel::Fields { field, frame, parents } => CursorModel::Nodes {
            field,
            index: i,
            parents: parents.push(frame),
        },
        CursorModel::Nodes { .. } => m,
    }
}

/// Select the first node of the selected field; stay on an empty field.
pub open spec fn first_node_spec(m: CursorModel) -> CursorModel {
    match m {
        CursorModel::Fields { field, .. } => if field.len() > 0 {
            enter_node_spec(m, 0)
        } else {
            m
        },
        CursorModel::Nodes { .. } => m,
    }
}

/// `t` moves to the next field, starting from `m`.
pub open spec fn next_field_times(m: CursorModel, t: nat) -> CursorModel
    decreases t,
{
    if t == 0 {
        m
    } else {
        next_field_spec(next_field_times(m, (t - 1) as nat))
    }
}

/// `t` moves to the next node, starting from `m`.
pub open spec fn next_node_times(m: CursorModel, t: nat) -> CursorModel
    decreases t,
{
    if t == 0 {
        m
    } else {
        seek_nodes_spec(next_node_times(m, (t - 1) as nat), 1)
    }
}

/// A cursor state on a node that exists.
pub open spec fn on_node(m: CursorModel) -> bool {
    m is Nodes && 0 <= m.index() < m.field().len()
}

/// Entering a field by key and leaving it again comes back to the same node.
pub proof fn lemma_enter_field_then_exit(m: CursorModel, key: Seq<char>)
    requires
        on_node(m),
    ensures
        exit_field_spec(enter_field_spec(m, key)) == m,
{
}

/// Entering the first field and leaving it again comes back to the node, in nodes mode.
pub proof fn lemma_first_field_then_exit(m: CursorModel)
    requires
        on_node(m),
        m.node().fields.len() > 0,
    ensures
        first_field_spec(m) is Fields,
        exit_field_spec(first_field_spec(m)) == m,
{
}

/// Starting at the first field, the moves to the next field go through every field of
/// the node once, in order, and the move after the last one comes back to the node.
pub proof fn lemma_field_iteration(m: CursorModel)
    requires
        on_node(m),
    ensures
        m.node().fields.len() == 0 ==> first_field_spec(m) == m,
        forall|t: int|
            0 <= t < m.node().fields.len() ==> #[trigger] next_field_times(first_field_spec(m), t as nat)
                == (CursorModel::Fields {
                field: m.node().fields[t].1,
                frame: FrameModel {
                    field: m.field(),
                    index: m.index(),
                    key: m.node().fields[t].0,
                    next: Some(t + 1),
                },
                parents: m.parents(),
            }),
        m.node().fields.len() > 0 ==> next_field_times(first_field_spec(m), m.node().fields.len()) == m,
{
    let fs = m.node().fields;
    let start = first_field_spec(m);
    assert forall|t: int| 0 <= t < fs.len() implies #[trigger] next_field_times(start, t as nat)
        == (CursorModel::Fields {
        field: fs[t].1,
        frame: FrameModel { field: m.field(), index: m.index(), key: fs[t].0, next: Some(t + 1) },
        parents: m.parents(),
    }) by {
        lemma_field_iteration_step(m, t as nat);
    }
    if fs.len() > 0 {
        lemma_field_iteration_step(m, (fs.len() - 1) as nat);
    }
}

proof fn lemma_field_iteration_step(m: CursorModel, t: nat)
    requires
        on_node(m),
        t < m.node().fields.len(),
    ensures
        next_field_times(first_field_spec(m), t) == (CursorModel::Fields {
            field: m.node().fields[t as int].1,
            frame: FrameModel {
                field: m.field(),
                index: m.index(),
                key: m.node().fields[t as int].0,
                next: Some(t as int + 1),
            },
            parents: m.parents(),
        }),
    decreases t,
{
    if t > 0 {
        lemma_field_iteration_step(m, (t - 1) as nat);
    }
}

/// In a field of `n` nodes, the first node and `n - 1` moves to the next node stay in
/// nodes mode, visiting the nodes in order; the next move leaves for the field.
pub proof fn lemma_node_iteration(m: CursorModel)
    requires
        m is Fields,
        m.field().len() > 0,
    ensures
        forall|t: int|
            0 <= t < m.field().len() ==> #[trigger] next_node_times(first_node_spec(m), t as nat)
                == (CursorModel::Nodes {
                field: m.field(),
                index: t,
                parents: m.parents().push(m->frame),
            }),
        next_node_times(first_node_spec(m), m.field().len()) == m,
{
    assert forall|t: int| 0 <= t < m.field().len() implies #[trigger] next_node_times(first_node_spec(m), t as nat)
        == (CursorModel::Nodes { field: m.field(), index: t, parents: m.parents().push(m->frame) }) by {
        lemma_node_iteration_step(m, t as nat);
    }
    lemma_node_iteration_step(m, (m.field().len() - 1) as nat);
    assert(m.parents().push(m->frame).drop_last() =~= m.parents());
}

proof fn lemma_node_iteration_step(m: CursorModel, t: nat)
    requires
        m is Fields,
        t < m.field().len(),
    ensures
        next_node_times(first_node_spec(m), t) == (CursorModel::Nodes {
            field: m.field(),
            index: t as int,
            parents: m.parents().push(m->frame),
        }),
    decreases t,
{
    if t > 0 {
        lemma_node_iteration_step(m, (t - 1) as nat);
    }
}

/// A move of `d` nodes that stays in the field is undone by a move of `-d`.
pub proof fn lemma_seek_back(m: CursorModel, d: int)
    requires
        on_node(m),
        0 <= m.index() + d < m.field().len(),
    ensures
        seek_nodes_spec(seek_nodes_spec(m, d), -d) == m,
{
}

/// A move of no node changes nothing.
pub proof fn lemma_seek_zero(m: CursorModel)
    requires
        on_node(m),
    ensures
        seek_nodes_spec(m, 0) == m,
{
}

/// A move from the selected node to just past the end of its field leaves for the field.
pub proof fn lemma_seek_past_end(m: CursorModel)
    requires
        on_node(m),
    ensures
        seek_nodes_spec(m, m.field().len() - m.index()) is Fields,
        seek_nodes_spec(m, m.field().len() - m.index()).field() == m.field(),
{
}

/// On a node, entering the first field stays in nodes mode exactly on a leaf.
pub proof fn lemma_leaf_first_field(m: CursorModel)
    requires
        on_node(m),
    ensures
        (first_field_spec(m) is Nodes) == (m.node().fields.len() == 0),
        first_field_spec(m) is Nodes ==> first_field_spec(m) == m,
{
}

/// Selecting a node of a field and leaving it comes back to the field.
pub proof fn lemma_enter_node_then_exit(m: CursorModel, i: int)
    requires
        m is Fields,
        0 <= i < m.field().len(),
    ensures
        exit_node_spec(enter_node_spec(m, i).field(), enter_node_spec(m, i).parents()) == m,
{
    assert(m.parents().push(m->frame).drop_last() =~= m.parents());
}

/// Entering a field that the node lacks gives an empty field, where selecting the first
/// node stays on the field.
pub proof fn lemma_enter_absent_field(m: CursorModel, key: Seq<char>)
    requires
        on_node(m),
        forall|i: int| 0 <= i < m.node().fields.len() ==> m.node().fields[i].0 != key,
    ensures
        enter_field_spec(m, key) is Fields,
        enter_field_spec(m, key).field().len() == 0,
        first_node_spec(enter_field_spec(m, key)) == enter_field_spec(m, key),
{
    assert(!exists|i: int| first_key_at(m.node().fields, key, i));
}

/// Where a cursor went after a move: it selects a node or a field.
pub enum EitherCursor<N: Node> {
    Nodes(GenericNodesCursor<N>),
    Fields(GenericFieldsCursor<N>),
}

/// How the field of a level was reached.
pub struct FieldLevel {
    pub key: FieldKey,
    /// Position of the next field of the iteration; `None` when entered by key.
    pub next: Option<usize>,
}

/// An ancestor level: the node, and the field of it that the cursor went into.
pub struct CursorLevel<N: Node> {
    pub nodes: N,
    pub fields: FieldLevel,
}

impl<N: Node> CursorLevel<N> {
    pub open spec fn model(&self) -> FrameModel {
        FrameModel {
            field: self.nodes.nodes(),
            index: self.nodes.offset(),
            key: self.fields.key@,
            next: match self.fields.next {
                Some(j) => Some(j as int),
                None => None,
            },
        }
    }

    pub open spec fn level_wf(&self) -> bool {
        at_node(&self.nodes)
    }
}

/// The frames of a stack of levels.
pub open spec fn frames<N: Node>(ps: Seq<CursorLevel<N>>) -> Seq<FrameModel> {
    ps.map_values(|l: CursorLevel<N>| l.model())
}

/// Each level of a stack stands on a node.
pub open spec fn levels_wf<N: Node>(ps: Seq<CursorLevel<N>>) -> bool {
    forall|i: int| 0 <= i < ps.len() ==> (#[trigger] ps[i]).level_wf()
}

/// A cursor that selects a node.
pub struct GenericNodesCursor<N: Node> {
    pub current: N,
    pub parents: Vec<CursorLevel<N>>,
}

/// A cursor that selects a field under a node.
pub struct GenericFieldsCursor<N: Node> {
    pub current: CursorLevel<N>,
    /// The nodes of the selected field.
    pub nodes: N,
    pub parents: Vec<CursorLevel<N>>,
}

impl<N: Node> GenericNodesCursor<N> {
    pub open spec fn model(&self) -> CursorModel {
        CursorModel::Nodes {
            field: self.current.nodes(),
            index: self.current.offset(),
            parents: frames(self.parents@),
        }
    }

    pub open spec fn wf(&self) -> bool {
        &&& at_node(&self.current)
        &&& levels_wf(self.parents@)
    }
}

impl<N: Node> GenericFieldsCursor<N> {
    pub open spec fn model(&self) -> CursorModel {
        CursorModel::Fields {
            field: self.nodes.nodes(),
            frame: self.current.model(),
            parents: frames(self.parents@),
        }
    }

    pub open spec fn wf(&self) -> bool {
        &&& self.nodes.wf()
        &&& self.current.level_wf()
        &&& levels_wf(self.parents@)
    }
}

impl<N: Node> EitherCursor<N> {
    pub open spec fn model(&self) -> CursorModel {
        match self {
            EitherCursor::Nodes(c) => c.model(),
            EitherCursor::Fields(c) => c.model(),
        }
    }

    pub open spec fn wf(&self) -> bool {
        match self {
            EitherCursor::Nodes(c) => c.wf(),
            EitherCursor::Fields(c) => c.wf(),
        }
    }
}

proof fn lemma_frames_push<N: Node>(ps: Seq<CursorLevel<N>>, l: CursorLevel<N>)
    ensures
        frames(ps.push(l)) == frames(ps).push(l.model()),
{
    assert(frames(ps.push(l)) =~= frames(ps).push(l.model()));
}

proof fn lemma_frames_pop<N: Node>(ps: Seq<CursorLevel<N>>)
    requires
        ps.len() > 0,
    ensures
        frames(ps.drop_last()) == frames(ps).drop_last(),
        frames(ps).last() == ps.last().model(),
{
    assert(frames(ps.drop_last()) =~= frames(ps).drop_last());
}

impl<N: Node> GenericNodesCursor<N> {
    /// A cursor on the node that `n` selects, with no parent.
    pub fn new(n: N) -> (r: GenericNodesCursor<N>)
        requires
            at_node(&n),
        ensures
            r.wf(),
            r.model() == (CursorModel::Nodes { field: n.nodes(), index: n.offset(), parents: Seq::empty() }),
    {
        let r = GenericNodesCursor { current: n, parents: Vec::new() };
        proof {
            assert(frames(r.parents@) =~= Seq::empty());
        }
        r
    }

    /// The selected node has no field.
    pub fn is_leaf(&self) -> (r: bool)
        requires
            self.wf(),
        ensures
            r == (selected(&self.current).fields.len() == 0),
    {
        self.current.is_leaf()
    }

    /// Position of the selected node in its field.
    pub fn field_index(&self) -> (r: u32)
        requires
            self.wf(),
            self.current.offset() <= u32::MAX,
        ensures
            r == self.current.offset(),
    {
        self.current.position() as u32
    }

    /// First position of the chunk that holds the selected node: chunks here hold one node.
    pub fn chunk_start(&self) -> (r: u32)
        requires
            self.wf(),
            self.current.offset() <= u32::MAX,
        ensures
            r == self.current.offset(),
    {
        self.field_index()
    }

    /// Number of nodes in the chunk that holds the selected node.
    pub fn chunk_length(&self) -> (r: u32)
        ensures
            r == 1,
    {
        1
    }

    /// Move `offset` nodes in the field; past either end, go up to the field.
    pub fn seek_nodes(self, offset: i32) -> (r: EitherCursor<N>)
        requires
            self.wf(),
            0 <= self.current.offset() + offset < self.current.nodes().len() || self.parents@.len() > 0,
        ensures
            r.wf(),
            r.model() == seek_nodes_spec(self.model(), offset as int),
            r is Nodes <==> 0 <= self.current.offset() + offset < self.current.nodes().len(),
    {
        let index = self.current.position();
        let len = self.current.len();
        let target: Option<usize> = if offset >= 0 {
            let d = offset as usize;
            if d < len - index {
                Some(index + d)
            } else {
                None
            }
        } else {
            let d = (-(offset as i64)) as usize;
            if d <= index {
                Some(index - d)
            } else {
                None
            }
        };
        match target {
            Some(t) => {
                let n = self.current.index(t).unwrap();
                EitherCursor::Nodes(GenericNodesCursor { current: n, parents: self.parents })
            },
            None => EitherCursor::Fields(self.exit_node()),
        }
    }

    /// The same as `seek_nodes(1)`.
    pub fn next_node(self) -> (r: EitherCursor<N>)
        requires
            self.wf(),
            self.current.offset() + 1 < self.current.nodes().len() || self.parents@.len() > 0,
        ensures
            r.wf(),
            r.model() == seek_nodes_spec(self.model(), 1),
            r is Nodes <==> self.current.offset() + 1 < self.current.nodes().len(),
    {
        self.seek_nodes(1)
    }

    /// Go up to the field that holds the selected node.
    pub fn exit_node(self) -> (r: GenericFieldsCursor<N>)
        requires
            self.wf(),
            self.parents@.len() > 0,
        ensures
            r.wf(),
            r.model() == exit_node_spec(self.current.nodes(), frames(self.parents@)),
    {
        let mut parents = self.parents;
        let current = parents.pop().unwrap();
        proof {
            lemma_frames_pop(self.parents@);
        }
        GenericFieldsCursor { nodes: self.current, current, parents }
    }

    /// The value of the selected node.
    pub fn value(&self) -> (r: Value)
        requires
            self.wf(),
        ensures
            r.0.is_some() == value_of(selected(&self.current)).is_some(),
            r.0 matches Some(v) ==> v == value_of(selected(&self.current))->0,
    {
        read_value(self.current.get_payload())
    }

    /// Enter the first field of the selected node; on a leaf, stay.
    pub fn first_field(self) -> (r: EitherCursor<N>)
        requires
            self.wf(),
        ensures
            r.wf(),
            r.model() == first_field_spec(self.model()),
            r is Fields <==> selected(&self.current).fields.len() > 0,
    {
        if self.current.is_leaf() {
            return EitherCursor::Nodes(self);
        }
        let key = self.current.field_key(0);
        let nodes = self.current.field_at(0);
        EitherCursor::Fields(
            GenericFieldsCursor {
                nodes,
                current: CursorLevel { nodes: self.current, fields: FieldLevel { key, next: Some(1) } },
                parents: self.parents,
            },
        )
    }

    /// Enter the field `key` of the selected node, whether or not it has nodes.
    pub fn enter_field(self, key: FieldKey) -> (r: EitherCursor<N>)
        requires
            self.wf(),
        ensures
            r.wf(),
            r.model() == enter_field_spec(self.model(), key@),
            r is Fields,
    {
        let nodes = self.current.get_field(&key);
        EitherCursor::Fields(
            GenericFieldsCursor {
                nodes,
                current: CursorLevel { nodes: self.current, fields: FieldLevel { key, next: None } },
                parents: self.parents,
            },
        )
    }

    /// The type of the selected node.
    pub fn node_type(&self) -> (r: TreeType)
        requires
            self.wf(),
        ensures
            r@ == selected(&self.current).def,
    {
        self.current.get_def()
    }
}

impl<N: Node> GenericFieldsCursor<N> {
    /// Go on to the next field of the iteration; after the last one, or where the field
    /// was entered by key, go up to the node.
    pub fn next_field(self) -> (r: EitherCursor<N>)
        requires
            self.wf(),
        ensures
            r.wf(),
            r.model() == next_field_spec(self.model()),
    {
        match self.current.fields.next {
            Some(j) => {
                if j < self.current.nodes.field_count() {
                    let key = self.current.nodes.field_key(j);
                    let nodes = self.current.nodes.field_at(j);
                    EitherCursor::Fields(
                        GenericFieldsCursor {
                            nodes,
                            current: CursorLevel {
                                nodes: self.current.nodes,
                                fields: FieldLevel { key, next: Some(j + 1) },
                            },
                            parents: self.parents,
                        },
                    )
                } else {
                    EitherCursor::Nodes(self.exit_field())
                }
            },
            None => EitherCursor::Nodes(self.exit_field()),
        }
    }

    /// Go up to the node that holds the selected field.
    pub fn exit_field(self) -> (r: GenericNodesCursor<N>)
        requires
            self.wf(),
        ensures
            r.wf(),
            r.model() == exit_field_spec(self.model()),
            r.current == self.current.nodes,
            r.parents@ == self.parents@,
    {
        GenericNodesCursor { current: self.current.nodes, parents: self.parents }
    }

    /// Skip fields whose content is pending: no field is pending here, so stay.
    pub fn skip_pending_fields(self) -> (r: EitherCursor<N>)
        requires
            self.wf(),
        ensures
            r == EitherCursor::Fields(self),
    {
        EitherCursor::Fields(self)
    }

    /// Number of nodes in the selected field.
    pub fn get_field_length(&self) -> (r: u32)
        requires
            self.wf(),
            self.nodes.nodes().len() <= u32::MAX,
        ensures
            r == self.nodes.nodes().len(),
    {
        self.nodes.len() as u32
    }

    /// Select the first node of the field; on an empty field, stay.
    pub fn first_node(self) -> (r: EitherCursor<N>)
        requires
            self.wf(),
        ensures
            r.wf(),
            r.model() == first_node_spec(self.model()),
            r is Nodes <==> self.nodes.nodes().len() > 0,
    {
        if self.nodes.len() > 0 {
            EitherCursor::Nodes(self.enter_node(0))
        } else {
            EitherCursor::Fields(self)
        }
    }

    /// Select node `child_index` of the field.
    pub fn enter_node(self, child_index: u32) -> (r: GenericNodesCursor<N>)
        requires
            self.wf(),
            child_index < self.nodes.nodes().len(),
        ensures
            r.wf(),
            r.model() == enter_node_spec(self.model(), child_index as int),
    {
        let n = self.nodes.index(child_index as usize).unwrap();
        let mut parents = self.parents;
        let ghost old_parents = parents@;
        parents.push(self.current);
        proof {
            lemma_frames_push(old_parents, self.current);
        }
        GenericNodesCursor { current: n, parents }
    }
}

} // verus!
