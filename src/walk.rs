//! Counting the nodes of a subtree by direct recursion over a node representation.
use vstd::prelude::*;

use crate::cursor::{next_field_spec, CursorModel, EitherCursor, FrameModel, GenericNodesCursor};
use crate::tree::{
    at_node, fields_size, fields_size_within, node_size, node_size_within, nodes_size,
    nodes_size_within, selected, Indexable, Node, NodeModel,
};

verus! {

pub proof fn lemma_fields_size_step(fs: Seq<(Seq<char>, Seq<NodeModel>)>, k: int)
    requires
        0 <= k < fs.len(),
    ensures
        fields_size(fs.subrange(0, k + 1)) == fields_size(fs.subrange(0, k)) + nodes_size(fs[k].1),
{
    assert(fs.subrange(0, k + 1).drop_last() =~= fs.subrange(0, k));
}

pub proof fn lemma_fields_size_prefix(fs: Seq<(Seq<char>, Seq<NodeModel>)>, k: int)
    requires
        0 <= k <= fs.len(),
    ensures
        fields_size(fs.subrange(0, k)) <= fields_size(fs),
    decreases fs.len() - k,
{
    if k < fs.len() {
        lemma_fields_size_step(fs, k);
        lemma_fields_size_prefix(fs, k + 1);
    } else {
        assert(fs.subrange(0, k) =~= fs);
    }
}

pub proof fn lemma_nodes_size_step(ns: Seq<NodeModel>, k: int)
    requires
        0 <= k < ns.len(),
    ensures
        nodes_size(ns.subrange(0, k + 1)) == nodes_size(ns.subrange(0, k)) + node_size(ns[k]),
{
    assert(ns.subrange(0, k + 1).drop_last() =~= ns.subrange(0, k));
}

pub proof fn lemma_nodes_size_prefix(ns: Seq<NodeModel>, k: int)
    requires
        0 <= k <= ns.len(),
    ensures
        nodes_size(ns.subrange(0, k)) <= nodes_size(ns),
    decreases ns.len() - k,
{
    if k < ns.len() {
        lemma_nodes_size_step(ns, k);
        lemma_nodes_size_prefix(ns, k + 1);
    } else {
        assert(ns.subrange(0, k) =~= ns);
    }
}

pub proof fn lemma_fields_within_step(fs: Seq<(Seq<char>, Seq<NodeModel>)>, k: int, d: nat)
    requires
        0 <= k < fs.len(),
    ensures
        fields_size_within(fs.subrange(0, k + 1), d) == fields_size_within(fs.subrange(0, k), d)
            + nodes_size_within(fs[k].1, d),
{
    assert(fs.subrange(0, k + 1).drop_last() =~= fs.subrange(0, k));
}

pub proof fn lemma_fields_within_prefix(fs: Seq<(Seq<char>, Seq<NodeModel>)>, k: int, d: nat)
    requires
        0 <= k <= fs.len(),
    ensures
        fields_size_within(fs.subrange(0, k), d) <= fields_size_within(fs, d),
    decreases fs.len() - k,
{
    if k < fs.len() {
        lemma_fields_within_step(fs, k, d);
        lemma_fields_within_prefix(fs, k + 1, d);
    } else {
        assert(fs.subrange(0, k) =~= fs);
    }
}

pub proof fn lemma_nodes_within_step(ns: Seq<NodeModel>, k: int, d: nat)
    requires
        0 <= k < ns.len(),
    ensures
        nodes_size_within(ns.subrange(0, k + 1), d) == nodes_size_within(ns.subrange(0, k), d)
            + node_size_within(ns[k], d),
{
    assert(ns.subrange(0, k + 1).drop_last() =~= ns.subrange(0, k));
}

pub proof fn lemma_nodes_within_prefix(ns: Seq<NodeModel>, k: int, d: nat)
    requires
        0 <= k <= ns.len(),
    ensures
        nodes_size_within(ns.subrange(0, k), d) <= nodes_size_within(ns, d),
    decreases ns.len() - k,
{
    if k < ns.len() {
        lemma_nodes_within_step(ns, k, d);
        lemma_nodes_within_prefix(ns, k + 1, d);
    } else {
        assert(ns.subrange(0, k) =~= ns);
    }
}

/// Number of nodes in the subtree of the node that `n` selects, that node included.
pub fn walk_all<N: Node>(n: N) -> (r: usize)
    requires
        at_node(&n),
        node_size(selected(&n)) <= usize::MAX,
    ensures
        r == node_size(selected(&n)),
    decreases node_size(selected(&n)), 0nat,
{
    let ghost fs = selected(&n).fields;
    let k = n.field_count();
    let mut count: usize = 1;
    let mut f: usize = 0;
    proof {
        assert(fs.subrange(0, 0) =~= Seq::<(Seq<char>, Seq<NodeModel>)>::empty());
    }
    while f < k
        invariant
            at_node(&n),
            fs == selected(&n).fields,
            k == fs.len(),
            f <= k,
            node_size(selected(&n)) <= usize::MAX,
            count == 1 + fields_size(fs.subrange(0, f as int)),
        decreases k - f,
    {
        let t = n.field_at(f);
        proof {
            lemma_fields_size_step(fs, f as int);
            lemma_fields_size_prefix(fs, f + 1);
        }
        let c = walk_all_field(t);
        count = count + c;
        f = f + 1;
    }
    proof {
        assert(fs.subrange(0, k as int) =~= fs);
    }
    count
}

/// Number of nodes in the subtrees of all the nodes of the field that `t` views.
pub fn walk_all_field<N: Node>(t: N) -> (r: usize)
    requires
        t.wf(),
        nodes_size(t.nodes()) <= usize::MAX,
    ensures
        r == nodes_size(t.nodes()),
    decreases nodes_size(t.nodes()), 1nat,
{
    let ghost ns = t.nodes();
    let len = t.len();
    let mut count: usize = 0;
    let mut c: usize = 0;
    proof {
        assert(ns.subrange(0, 0) =~= Seq::<NodeModel>::empty());
    }
    while c < len
        invariant
            t.wf(),
            ns == t.nodes(),
            len == ns.len(),
            c <= len,
            nodes_size(ns) <= usize::MAX,
            count == nodes_size(ns.subrange(0, c as int)),
        decreases len - c,
    {
        let child = t.index(c).unwrap();
        proof {
            lemma_nodes_size_step(ns, c as int);
            lemma_nodes_size_prefix(ns, c + 1);
        }
        count = count + walk_all(child);
        c = c + 1;
    }
    proof {
        assert(ns.subrange(0, len as int) =~= ns);
    }
    count
}

/// Walks the subtree of the selected node with the cursor's own moves, adding the
/// number of its nodes to `count`, and hands the cursor back on the same node.
pub fn inner<N: Node>(c: GenericNodesCursor<N>, count: &mut usize) -> (r: GenericNodesCursor<N>)
    requires
        c.wf(),
        *old(count) + node_size(c.model().node()) <= usize::MAX,
    ensures
        r.wf(),
        r.model() == c.model(),
        *final(count) == *old(count) + node_size(c.model().node()),
    decreases node_size(c.model().node()),
{
    let ghost m0 = c.model();
    let ghost field = m0.field();
    let ghost index = m0.index();
    let ghost parents = m0.parents();
    let ghost node = m0.node();
    let ghost fs = node.fields;
    let ghost total = node_size(node);
    let ghost start = *count as int;
    *count = *count + 1;
    if c.is_leaf() {
        return c;
    }
    let mut in_fields = c.first_field();
    let ghost mut j: int = 0;
    proof {
        assert(fs.subrange(0, 0) =~= Seq::<(Seq<char>, Seq<NodeModel>)>::empty());
    }
    loop
        invariant
            in_fields.wf(),
            m0 == (CursorModel::Nodes { field, index, parents }),
            node == field[index],
            fs == node.fields,
            total == node_size(node),
            total == node_size(c.model().node()),
            m0 == c.model(),
            start == *old(count),
            start + total <= usize::MAX,
            in_fields is Fields ==> 0 <= j < fs.len() && in_fields.model() == (CursorModel::Fields {
                field: fs[j].1,
                frame: FrameModel { field, index, key: fs[j].0, next: Some(j + 1) },
                parents,
            }) && *count == start + 1 + fields_size(fs.subrange(0, j)),
            in_fields is Nodes ==> in_fields.model() == m0 && *count == start + 1 + fields_size(fs),
        decreases fs.len() - j, if in_fields is Fields { 1int } else { 0int },
    {
        match in_fields {
            EitherCursor::Nodes(n) => {
                return n;
            },
            EitherCursor::Fields(f) => {
                let ghost g = fs[j].1;
                let ghost frame = FrameModel { field, index, key: fs[j].0, next: Some(j + 1) };
                let ghost base = *count as int;
                let ghost fields_state = f.model();
                proof {
                    lemma_fields_size_step(fs, j);
                    lemma_fields_size_prefix(fs, j + 1);
                    assert(parents.push(frame).drop_last() =~= parents);
                    assert(g.subrange(0, 0) =~= Seq::<NodeModel>::empty());
                }
                let mut in_nodes = f.first_node();
                let ghost mut k: int = 0;
                loop
                    invariant
                        in_nodes.wf(),
                        0 <= j < fs.len(),
                        g == fs[j].1,
                        frame == (FrameModel { field, index, key: fs[j].0, next: Some(j + 1) }),
                        fields_state == (CursorModel::Fields { field: g, frame, parents }),
                        parents.push(frame).drop_last() == parents,
                        base == start + 1 + fields_size(fs.subrange(0, j)),
                        base + nodes_size(g) <= start + total,
                        start + total <= usize::MAX,
                        total == node_size(node),
                        total == node_size(c.model().node()),
                        in_nodes is Nodes ==> 0 <= k < g.len() && in_nodes.model() == (CursorModel::Nodes {
                            field: g,
                            index: k,
                            parents: parents.push(frame),
                        }) && *count == base + nodes_size(g.subrange(0, k)),
                        in_nodes is Fields ==> in_nodes.model() == fields_state && *count == base
                            + nodes_size(g.subrange(0, k)) && k == g.len(),
                    ensures
                        in_fields.wf(),
                        in_fields.model() == next_field_spec(fields_state),
                        *count == base + nodes_size(g),
                    decreases g.len() - k, if in_nodes is Nodes { 1int } else { 0int },
                {
                    match in_nodes {
                        EitherCursor::Nodes(n) => {
                            proof {
                                lemma_nodes_size_step(g, k);
                                lemma_nodes_size_prefix(g, k + 1);
                                assert(node_size(n.model().node()) < total);
                            }
                            let back = inner(n, count);
                            in_nodes = back.next_node();
                            proof {
                                k = k + 1;
                            }
                        },
                        EitherCursor::Fields(f2) => {
                            proof {
                                assert(g.subrange(0, k) =~= g);
                            }
                            in_fields = f2.next_field();
                            break;
                        },
                    }
                }
                proof {
                    lemma_fields_size_step(fs, j);
                    j = j + 1;
                    if in_fields is Nodes {
                        assert(fs.subrange(0, fs.len() as int) =~= fs);
                    }
                }
            },
        }
    }
}

} // verus!
