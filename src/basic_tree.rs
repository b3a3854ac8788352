//! Boxed trees: each node owns its payload and its children.
use vstd::prelude::*;

use crate::cursor::{GenericFieldsCursor, GenericNodesCursor};
use crate::tree::{
    at_node, decimal, first_key_at, lemma_decimal_injective, selected,
    FieldKey, Indexable, Node, NodeData, NodeModel, NodeNav, Tree, TreeType,
};

verus! {

/// A node that owns its children, field by field.
pub struct BasicNode {
    pub def: TreeType,
    pub payload: Option<Vec<u8>>,
    /// Non-empty fields with distinct keys, in iteration order.
    pub fields: Vec<(FieldKey, Vec<BasicNode>)>,
}

/// A tree stored as boxed nodes: the nodes of its top-level field.
pub struct BasicTree(pub Vec<BasicNode>);

/// The abstract node that `n` stores.
pub open spec fn basic_model(n: BasicNode) -> NodeModel
    decreases n, 1nat, 0nat,
{
    NodeModel {
        def: n.def@,
        payload: match n.payload {
            Some(p) => Some(p@),
            None => None,
        },
        fields: basic_fields(n, n.fields@.len()),
    }
}

/// The first `k` fields of `n`.
pub open spec fn basic_fields(n: BasicNode, k: nat) -> Seq<(Seq<char>, Seq<NodeModel>)>
    decreases n, 0nat, k,
{
    if k == 0 || k > n.fields@.len() {
        Seq::empty()
    } else {
        basic_fields(n, (k - 1) as nat).push(
            (n.fields@[k - 1].0@, basic_nodes(n.fields@[k - 1].1@, n.fields@[k - 1].1@.len())),
        )
    }
}

/// The first `k` of the nodes `ns`.
pub open spec fn basic_nodes(ns: Seq<BasicNode>, k: nat) -> Seq<NodeModel>
    decreases ns, 2nat, k,
{
    if k == 0 || k > ns.len() {
        Seq::empty()
    } else {
        basic_nodes(ns, (k - 1) as nat).push(basic_model(ns[k - 1]))
    }
}

/// Fields are non-empty with distinct keys, at every level.
pub open spec fn basic_wf(n: BasicNode) -> bool
    decreases n,
{
    &&& forall|i: int| 0 <= i < n.fields@.len() ==> (#[trigger] n.fields@[i]).1@.len() > 0
    &&& forall|i: int, j: int|
        0 <= i < n.fields@.len() && 0 <= j < n.fields@.len() && i != j ==> n.fields@[i].0@ != n.fields@[j].0@
    &&& forall|i: int, j: int|
        0 <= i < n.fields@.len() && 0 <= j < (#[trigger] n.fields@[i]).1@.len() ==> basic_wf(#[trigger] n.fields@[i].1@[j])
}

pub proof fn lemma_basic_nodes(ns: Seq<BasicNode>, k: nat)
    requires
        k <= ns.len(),
    ensures
        basic_nodes(ns, k).len() == k,
        forall|i: int| 0 <= i < k ==> #[trigger] basic_nodes(ns, k)[i] == basic_model(ns[i]),
    decreases k,
{
    if k > 0 {
        lemma_basic_nodes(ns, (k - 1) as nat);
    }
}

pub proof fn lemma_basic_fields(n: BasicNode, k: nat)
    requires
        k <= n.fields@.len(),
    ensures
        basic_fields(n, k).len() == k,
        forall|j: int|
            0 <= j < k ==> #[trigger] basic_fields(n, k)[j] == (
                n.fields@[j].0@,
                basic_nodes(n.fields@[j].1@, n.fields@[j].1@.len()),
            ),
    decreases k,
{
    if k > 0 {
        lemma_basic_fields(n, (k - 1) as nat);
    }
}

/// A field of boxed nodes, borrowed from the tree, with one position selected.
pub struct BasicNodes<'a> {
    pub nodes: &'a [BasicNode],
    pub offset: usize,
}

impl<'a> BasicNodes<'a> {
    /// Every node of the field is well formed.
    pub open spec fn nodes_wf(&self) -> bool {
        forall|i: int| 0 <= i < self.nodes@.len() ==> basic_wf(#[trigger] self.nodes@[i])
    }

    /// The field's children under the entry at position `j` of the selected node.
    fn entry_view(&self, j: usize) -> (r: BasicNodes<'a>)
        requires
            at_node(self),
            j < selected(self).fields.len(),
        ensures
            r.wf(),
            r.nodes() == selected(self).fields[j as int].1,
            r.offset() == 0,
    {
        proof {
            lemma_basic_nodes(self.nodes@, self.nodes@.len());
        }
        let n = &self.nodes[self.offset];
        proof {
            lemma_basic_fields(*n, n.fields@.len());
            assert(basic_wf(*n));
        }
        let children = n.fields[j].1.as_slice();
        proof {
            assert forall|i: int| 0 <= i < children@.len() implies basic_wf(#[trigger] children@[i]) by {
                assert(basic_wf(n.fields@[j as int].1@[i]));
            }
        }
        BasicNodes { nodes: children, offset: 0 }
    }
}

impl<'a> Indexable for BasicNodes<'a> {
    fn position(&self) -> (r: usize) {
        self.offset
    }

    open spec fn nodes(&self) -> Seq<NodeModel> {
        basic_nodes(self.nodes@, self.nodes@.len())
    }

    open spec fn offset(&self) -> int {
        self.offset as int
    }

    open spec fn wf(&self) -> bool {
        self.nodes_wf()
    }

    fn len(&self) -> (r: usize) {
        proof {
            lemma_basic_nodes(self.nodes@, self.nodes@.len());
        }
        self.nodes.len()
    }

    fn index(&self, i: usize) -> (r: Option<Self>) {
        proof {
            lemma_basic_nodes(self.nodes@, self.nodes@.len());
        }
        if i < self.nodes.len() {
            Some(BasicNodes { nodes: self.nodes, offset: i })
        } else {
            None
        }
    }
}

impl<'a> NodeNav for BasicNodes<'a> {
    fn get_field(&self, key: &FieldKey) -> (r: Self) {
        proof {
            lemma_basic_nodes(self.nodes@, self.nodes@.len());
        }
        let n = &self.nodes[self.offset];
        proof {
            lemma_basic_fields(*n, n.fields@.len());
        }
        let ghost fs = selected(self).fields;
        let count = n.fields.len();
        let mut j: usize = 0;
        while j < count
            invariant
                at_node(self),
                *n == self.nodes@[self.offset as int],
                count == n.fields@.len(),
                fs == selected(self).fields,
                fs.len() == count,
                j <= count,
                forall|m: int| 0 <= m < j ==> fs[m].0 != key@,
                forall|m: int| 0 <= m < count ==> #[trigger] fs[m].0 == n.fields@[m].0@,
            decreases count - j,
        {
            if n.fields[j].0.same(key) {
                let r = self.entry_view(j);
                proof {
                    assert(first_key_at(fs, key@, j as int));
                    let c = choose|i: int| first_key_at(fs, key@, i);
                    assert(c == j) by {
                        if c > j {
                            assert(fs[j as int].0 == key@);
                        }
                    }
                }
                return r;
            }
            j = j + 1;
        }
        let empty: &'a [BasicNode] = &[];
        proof {
            assert(empty@ =~= Seq::<BasicNode>::empty());
            lemma_basic_nodes(empty@, 0);
            assert(!exists|i: int| first_key_at(fs, key@, i));
        }
        BasicNodes { nodes: empty, offset: 0 }
    }

    fn field_count(&self) -> (r: usize) {
        proof {
            lemma_basic_nodes(self.nodes@, self.nodes@.len());
        }
        let n = &self.nodes[self.offset];
        proof {
            lemma_basic_fields(*n, n.fields@.len());
            assert(basic_wf(*n));
            let fs = selected(self).fields;
            assert forall|i: int| 0 <= i < fs.len() implies #[trigger] fs[i].1.len() > 0 by {
                assert(n.fields@[i].1@.len() > 0);
                lemma_basic_nodes(n.fields@[i].1@, n.fields@[i].1@.len());
            }
            assert forall|i: int, j: int| 0 <= i < fs.len() && 0 <= j < fs.len() && i != j implies fs[i].0 != fs[j].0 by {
                assert(n.fields@[i].0@ != n.fields@[j].0@);
            }
        }
        n.fields.len()
    }

    fn field_key(&self, k: usize) -> (r: FieldKey) {
        proof {
            lemma_basic_nodes(self.nodes@, self.nodes@.len());
        }
        let n = &self.nodes[self.offset];
        proof {
            lemma_basic_fields(*n, n.fields@.len());
        }
        n.fields[k].0.duplicate()
    }

    fn field_at(&self, k: usize) -> (r: Self) {
        self.entry_view(k)
    }

    fn is_leaf(&self) -> (r: bool) {
        proof {
            lemma_basic_nodes(self.nodes@, self.nodes@.len());
        }
        let n = &self.nodes[self.offset];
        proof {
            lemma_basic_fields(*n, n.fields@.len());
        }
        n.fields.len() == 0
    }

}

impl<'a> NodeData for BasicNodes<'a> {
    fn get_def(&self) -> (r: TreeType) {
        proof {
            lemma_basic_nodes(self.nodes@, self.nodes@.len());
        }
        self.nodes[self.offset].def.duplicate()
    }

    fn get_payload(&self) -> (r: Option<&[u8]>) {
        proof {
            lemma_basic_nodes(self.nodes@, self.nodes@.len());
        }
        match &self.nodes[self.offset].payload {
            Some(p) => Some(p.as_slice()),
            None => None,
        }
    }
}

impl<'a> Node for BasicNodes<'a> {

}

impl BasicTree {
    /// Every top-level node is well formed.
    pub open spec fn tree_wf(&self) -> bool {
        forall|i: int| 0 <= i < self.0@.len() ==> basic_wf(#[trigger] self.0@[i])
    }

    /// The top-level nodes.
    pub open spec fn model(&self) -> Seq<NodeModel> {
        basic_nodes(self.0@, self.0@.len())
    }

    /// The top-level field, its first node selected.
    pub fn view(&self) -> (r: BasicNodes<'_>)
        requires
            self.tree_wf(),
        ensures
            r.wf(),
            r.nodes() == self.model(),
            r.offset() == 0,
    {
        BasicNodes { nodes: self.0.as_slice(), offset: 0 }
    }
}

/// A leaf with an empty type and no payload.
fn test_node() -> (r: BasicNode)
    ensures
        basic_wf(r),
        r.fields@.len() == 0,
{
    BasicNode { def: TreeType::new(""), payload: None, fields: Vec::new() }
}

/// One root node with `fields` fields of `per_field` leaves each (no field where
/// `per_field` is `0`). Field `f` is keyed by the decimal notation of `f`.
pub fn basic_test_tree(fields: usize, per_field: usize) -> (r: Vec<BasicNode>)
    ensures
        r@.len() == 1,
        BasicTree(r).tree_wf(),
        r@[0].fields@.len() == (if per_field == 0 { 0 } else { fields }),
        forall|f: int| 0 <= f < r@[0].fields@.len() ==> (#[trigger] r@[0].fields@[f]).0@ == decimal(f as nat)
            && r@[0].fields@[f].1@.len() == per_field,
{
    let mut root = test_node();
    if per_field > 0 {
        let mut f: usize = 0;
        while f < fields
            invariant
                f <= fields,
                per_field > 0,
                root.fields@.len() == f,
                forall|i: int| 0 <= i < f ==> (#[trigger] root.fields@[i]).0@ == decimal(i as nat),
                forall|i: int| 0 <= i < f ==> (#[trigger] root.fields@[i]).1@.len() == per_field,
                forall|i: int, c: int| 0 <= i < f && 0 <= c < (#[trigger] root.fields@[i]).1@.len()
                    ==> (#[trigger] root.fields@[i].1@[c]).fields@.len() == 0,
            decreases fields - f,
        {
            let mut children: Vec<BasicNode> = Vec::new();
            let mut c: usize = 0;
            while c < per_field
                invariant
                    c <= per_field,
                    children@.len() == c,
                    forall|k: int| 0 <= k < c ==> (#[trigger] children@[k]).fields@.len() == 0,
                decreases per_field - c,
            {
                children.push(test_node());
                c = c + 1;
            }
            root.fields.push((FieldKey::from_index(f), children));
            f = f + 1;
        }
    }
    proof {
        assert forall|i: int, j: int| 0 <= i < root.fields@.len() && 0 <= j < root.fields@.len() && i != j
            implies root.fields@[i].0@ != root.fields@[j].0@ by {
            if root.fields@[i].0@ == root.fields@[j].0@ {
                lemma_decimal_injective(i as nat, j as nat);
            }
        }
        assert forall|i: int, c: int| 0 <= i < root.fields@.len() && 0 <= c < root.fields@[i].1@.len()
            implies basic_wf(#[trigger] root.fields@[i].1@[c]) by {
            let leaf = root.fields@[i].1@[c];
            assert(leaf.fields@.len() == 0);
        }
        assert(basic_wf(root));
    }
    let r = vec![root];
    proof {
        assert(r@[0] == root);
    }
    r
}

/// A cursor over a boxed tree, in nodes mode.
pub type BasicNodesCursor<'a> = GenericNodesCursor<BasicNodes<'a>>;

/// A cursor over a boxed tree, in fields mode.
pub type BasicFieldsCursor<'a> = GenericFieldsCursor<BasicNodes<'a>>;

/// A cursor over a boxed tree that lives for the whole program.
pub type BasicNodesCursor2 = GenericNodesCursor<BasicNodes<'static>>;

/// The tree whose only top-level node is `n`; a cursor starts on it from `view`.
pub fn from_root(n: BasicNode) -> (r: BasicTree)
    ensures
        r.model() == seq![basic_model(n)],
        basic_wf(n) ==> r.tree_wf(),
{
    let r = BasicTree(vec![n]);
    proof {
        lemma_basic_nodes(r.0@, 1);
        assert(r.model() =~= seq![basic_model(n)]);
    }
    r
}

impl Tree for BasicTree {
    type TNode<'a> = BasicNodes<'a>;

    open spec fn tree_nodes(&self) -> Seq<NodeModel> {
        self.model()
    }

    open spec fn tree_ok(&self) -> bool {
        self.tree_wf()
    }

    fn view<'a>(&'a self) -> (r: BasicNodes<'a>) {
        BasicTree::view(self)
    }
}

} // verus!
