//! Core types of the tree abstraction: identifiers, the abstract node model, and the
//! navigation contracts that a node representation implements.
use vstd::prelude::*;

verus! {

/// Name of a field under a node.
#[derive(Clone, Debug)]
pub struct FieldKey(pub String);

/// Type (definition tag) of a node.
#[derive(Clone, Debug)]
pub struct TreeType(pub String);

/// Leaf value of a node: the payload read as a little-endian unsigned number.
#[derive(Clone, Copy, Debug, PartialEq, Eq, Structural)]
pub struct Value(pub Option<u64>);

impl View for FieldKey {
    type V = Seq<char>;

    open spec fn view(&self) -> Seq<char> {
        self.0@
    }
}

impl View for TreeType {
    type V = Seq<char>;

    open spec fn view(&self) -> Seq<char> {
        self.0@
    }
}

impl FieldKey {
    /// The key named `s`.
    pub fn new(s: &str) -> (r: FieldKey)
        ensures
            r@ == s@,
    {
        FieldKey(String::from_str(s))
    }

    /// A copy of this key.
    pub fn duplicate(&self) -> (r: FieldKey)
        ensures
            r@ == self@,
            r == *self,
    {
        FieldKey(self.0.clone())
    }

    /// The key named by the decimal notation of `n`.
    pub fn from_index(n: usize) -> (r: FieldKey)
        ensures
            r@ == decimal(n as nat),
        decreases n,
    {
        if n < 10 {
            FieldKey(String::from_str(digit_str(n)))
        } else {
            let mut k = FieldKey::from_index(n / 10);
            k.0.append(digit_str(n % 10));
            k
        }
    }

    /// Whether both keys name the same field.
    pub fn same(&self, other: &FieldKey) -> (r: bool)
        ensures
            r == (self@ == other@),
    {
        self.0 == other.0
    }
}

impl TreeType {
    /// The type named `s`.
    pub fn new(s: &str) -> (r: TreeType)
        ensures
            r@ == s@,
    {
        TreeType(String::from_str(s))
    }

    /// A copy of this type tag.
    pub fn duplicate(&self) -> (r: TreeType)
        ensures
            r@ == self@,
            r == *self,
    {
        TreeType(self.0.clone())
    }

    /// The identifier of the type.
    pub fn name(&self) -> (r: String)
        ensures
            r@ == self@,
    {
        self.0.clone()
    }
}

/// The character of the decimal digit `d`.
pub open spec fn digit_char(d: nat) -> char {
    if d == 0 { '0' } else if d == 1 { '1' } else if d == 2 { '2' } else if d == 3 { '3' }
    else if d == 4 { '4' } else if d == 5 { '5' } else if d == 6 { '6' } else if d == 7 { '7' }
    else if d == 8 { '8' } else { '9' }
}

/// Decimal notation of `n`, without leading zeros.
pub open spec fn decimal(n: nat) -> Seq<char>
    decreases n,
{
    if n < 10 {
        seq![digit_char(n)]
    } else {
        decimal(n / 10).push(digit_char(n % 10))
    }
}

proof fn lemma_decimal_len(n: nat)
    ensures
        decimal(n).len() >= 1,
        n >= 10 ==> decimal(n).len() >= 2,
    decreases n,
{
    if n >= 10 {
        lemma_decimal_len(n / 10);
    }
}

/// Distinct numbers have distinct decimal notations.
pub proof fn lemma_decimal_injective(a: nat, b: nat)
    requires
        decimal(a) == decimal(b),
    ensures
        a == b,
    decreases a,
{
    lemma_decimal_len(a);
    lemma_decimal_len(b);
    if a >= 10 && b >= 10 {
        assert(decimal(a).last() == digit_char(a % 10));
        assert(decimal(b).last() == digit_char(b % 10));
        assert(decimal(a / 10) =~= decimal(a).drop_last());
        assert(decimal(b / 10) =~= decimal(b).drop_last());
        lemma_decimal_injective(a / 10, b / 10);
    } else if a < 10 && b < 10 {
        assert(decimal(a)[0] == digit_char(a));
        assert(decimal(b)[0] == digit_char(b));
    }
}

fn digit_str(d: usize) -> (r: &'static str)
    requires
        d < 10,
    ensures
        r@ == seq![digit_char(d as nat)],
{
    match d {
        0 => {
            proof {
                reveal_strlit("0");
            }
            "0"
        },
        1 => {
            proof {
                reveal_strlit("1");
            }
            "1"
        },
        2 => {
            proof {
                reveal_strlit("2");
            }
            "2"
        },
        3 => {
            proof {
                reveal_strlit("3");
            }
            "3"
        },
        4 => {
            proof {
                reveal_strlit("4");
            }
            "4"
        },
        5 => {
            proof {
                reveal_strlit("5");
            }
            "5"
        },
        6 => {
            proof {
                reveal_strlit("6");
            }
            "6"
        },
        7 => {
            proof {
                reveal_strlit("7");
            }
            "7"
        },
        8 => {
            proof {
                reveal_strlit("8");
            }
            "8"
        },
        _ => {
            proof {
                reveal_strlit("9");
            }
            "9"
        },
    }
}

/// Abstract shape of a node: its type, optional payload and its non-empty fields in
/// iteration order.
pub struct NodeModel {
    pub def: Seq<char>,
    pub payload: Option<Seq<u8>>,
    pub fields: Seq<(Seq<char>, Seq<NodeModel>)>,
}

/// A field list omits empty fields and holds each key once.
pub open spec fn fields_wf(fs: Seq<(Seq<char>, Seq<NodeModel>)>) -> bool {
    &&& forall|i: int| 0 <= i < fs.len() ==> #[trigger] fs[i].1.len() > 0
    &&& forall|i: int, j: int|
        0 <= i < fs.len() && 0 <= j < fs.len() && i != j ==> fs[i].0 != fs[j].0
}

/// `i` is the first position of `key` in the field list.
pub open spec fn first_key_at(fs: Seq<(Seq<char>, Seq<NodeModel>)>, key: Seq<char>, i: int) -> bool {
    &&& 0 <= i < fs.len()
    &&& fs[i].0 == key
    &&& forall|j: int| 0 <= j < i ==> fs[j].0 != key
}

/// The children under `key`: empty when the node has no such field.
pub open spec fn field_nodes(n: NodeModel, key: Seq<char>) -> Seq<NodeModel> {
    if exists|i: int| first_key_at(n.fields, key, i) {
        n.fields[choose|i: int| first_key_at(n.fields, key, i)].1
    } else {
        Seq::empty()
    }
}

/// The payload read as a little-endian unsigned number.
pub open spec fn le_number(p: Seq<u8>) -> nat
    decreases p.len(),
{
    if p.len() == 0 {
        0
    } else {
        p[0] as nat + 256 * le_number(p.subrange(1, p.len() as int))
    }
}

/// The value of a node: its payload as a number, where it has one of at most eight bytes.
pub open spec fn value_of(n: NodeModel) -> Option<nat> {
    match n.payload {
        Some(p) => if p.len() <= 8 {
            Some(le_number(p))
        } else {
            None
        },
        None => None,
    }
}

/// `256` to the power `n`: one more than the largest number of `n` bytes.
pub open spec fn byte_bound(n: nat) -> nat
    decreases n,
{
    if n == 0 {
        1
    } else {
        256 * byte_bound((n - 1) as nat)
    }
}

proof fn lemma_le_number_bound(p: Seq<u8>)
    ensures
        le_number(p) < byte_bound(p.len()),
    decreases p.len(),
{
    if p.len() > 0 {
        lemma_le_number_bound(p.subrange(1, p.len() as int));
    }
}

proof fn lemma_byte_bound_mono(a: nat, b: nat)
    requires
        a <= b,
    ensures
        byte_bound(a) <= byte_bound(b),
    decreases b,
{
    if a < b {
        lemma_byte_bound_mono(a, (b - 1) as nat);
    }
}

/// The value that a payload stands for: the bytes as a little-endian number, where
/// there is a payload of at most eight bytes.
pub fn read_value(payload: Option<&[u8]>) -> (r: Value)
    ensures
        r.0.is_some() == (payload matches Some(p) && p@.len() <= 8),
        r.0 matches Some(v) ==> v == le_number(payload->0@),
{
    match payload {
        None => Value(None),
        Some(p) => {
            let n = p.len();
            if n > 8 {
                return Value(None);
            }
            let mut acc: u64 = 0;
            let mut i: usize = n;
            proof {
                assert(p@.subrange(n as int, n as int) =~= Seq::<u8>::empty());
            }
            while i > 0
                invariant
                    n == p@.len(),
                    n <= 8,
                    i <= n,
                    acc == le_number(p@.subrange(i as int, n as int)),
                decreases i,
            {
                proof {
                    lemma_le_number_bound(p@.subrange(i as int, n as int));
                    lemma_byte_bound_mono((n - i) as nat, 7);
                    reveal_with_fuel(byte_bound, 8);
                    assert(p@.subrange(i - 1, n as int).subrange(1, (n - i + 1) as int) =~= p@.subrange(i as int, n as int));
                }
                i = i - 1;
                acc = acc * 256 + p[i] as u64;
            }
            proof {
                assert(p@.subrange(0, n as int) =~= p@);
            }
            Value(Some(acc))
        },
    }
}

/// Number of nodes in the subtree rooted at `n`, `n` included.
pub open spec fn node_size(n: NodeModel) -> nat
    decreases n, 0nat, 0nat,
{
    1 + fields_size(n.fields)
}

/// Number of nodes in all the subtrees under a list of fields.
pub open spec fn fields_size(fs: Seq<(Seq<char>, Seq<NodeModel>)>) -> nat
    decreases fs, 0nat, 0nat,
{
    if fs.len() == 0 {
        0
    } else {
        fields_size(fs.drop_last()) + nodes_size(fs.last().1)
    }
}

/// Number of nodes in all the subtrees rooted in a sequence of siblings.
pub open spec fn nodes_size(ns: Seq<NodeModel>) -> nat
    decreases ns, 0nat, 0nat,
{
    if ns.len() == 0 {
        0
    } else {
        nodes_size(ns.drop_last()) + node_size(ns.last())
    }
}

/// Number of nodes in the subtree of `n` down to `d` levels below `n`, `n` included.
pub open spec fn node_size_within(n: NodeModel, d: nat) -> nat
    decreases n, 0nat, 0nat,
{
    if d == 0 {
        1
    } else {
        1 + fields_size_within(n.fields, (d - 1) as nat)
    }
}

/// Number of nodes under a list of fields, down to `d` levels below the fields' nodes.
pub open spec fn fields_size_within(fs: Seq<(Seq<char>, Seq<NodeModel>)>, d: nat) -> nat
    decreases fs, 0nat, 0nat,
{
    if fs.len() == 0 {
        0
    } else {
        fields_size_within(fs.drop_last(), d) + nodes_size_within(fs.last().1, d)
    }
}

/// Number of nodes in the subtrees of siblings, down to `d` levels below them.
pub open spec fn nodes_size_within(ns: Seq<NodeModel>, d: nat) -> nat
    decreases ns, 0nat, 0nat,
{
    if ns.len() == 0 {
        0
    } else {
        nodes_size_within(ns.drop_last(), d) + node_size_within(ns.last(), d)
    }
}

/// A view of one field (a sequence of sibling nodes) with one position in it selected.
pub trait Indexable: Sized {
    /// The nodes of the field.
    spec fn nodes(&self) -> Seq<NodeModel>;

    /// The selected position.
    spec fn offset(&self) -> int;

    /// The view is consistent with the storage it reads.
    spec fn wf(&self) -> bool;

    /// Number of nodes in the field.
    fn len(&self) -> (r: usize)
        requires
            self.wf(),
        ensures
            r == self.nodes().len(),
    ;

    /// Position of the selected node in its field.
    fn position(&self) -> (r: usize)
        requires
            self.wf(),
            0 <= self.offset() < self.nodes().len(),
        ensures
            r == self.offset(),
    ;

    /// The node at position `i` of the field, or `None` past its end.
    fn index(&self, i: usize) -> (r: Option<Self>)
        requires
            self.wf(),
        ensures
            r.is_some() == (i < self.nodes().len()),
            r matches Some(n) ==> n.wf() && n.nodes() == self.nodes() && n.offset() == i,
    ;
}

/// The node that a view selects.
pub open spec fn selected<N: Indexable>(n: &N) -> NodeModel {
    n.nodes()[n.offset()]
}

/// A view can stand for a node: the one at its selected position.
pub open spec fn at_node<N: Indexable>(n: &N) -> bool {
    n.wf() && 0 <= n.offset() < n.nodes().len()
}

/// Navigation from a node to its fields.
pub trait NodeNav: Indexable {
    /// The children under `key`, with the first of them selected; empty if there are none.
    fn get_field(&self, key: &FieldKey) -> (r: Self)
        requires
            at_node(self),
        ensures
            r.wf(),
            r.nodes() == field_nodes(selected(self), key@),
            r.offset() == 0,
    ;

    /// Number of non-empty fields of the node.
    fn field_count(&self) -> (r: usize)
        requires
            at_node(self),
        ensures
            r == selected(self).fields.len(),
            fields_wf(selected(self).fields),
    ;

    /// Key of the field at position `k` of the iteration order.
    fn field_key(&self, k: usize) -> (r: FieldKey)
        requires
            at_node(self),
            k < selected(self).fields.len(),
        ensures
            r@ == selected(self).fields[k as int].0,
    ;

    /// The children of the field at position `k` of the iteration order, the first selected.
    fn field_at(&self, k: usize) -> (r: Self)
        requires
            at_node(self),
            k < selected(self).fields.len(),
        ensures
            r.wf(),
            r.nodes() == selected(self).fields[k as int].1,
            r.offset() == 0,
    ;

    /// The node has no non-empty field.
    fn is_leaf(&self) -> (r: bool)
        requires
            at_node(self),
        ensures
            r == (selected(self).fields.len() == 0),
    ;

}

/// The data of a node: its type and payload.
pub trait NodeData: Indexable {
    /// The node's type.
    fn get_def(&self) -> (r: TreeType)
        requires
            at_node(self),
        ensures
            r@ == selected(self).def,
    ;

    /// The node's payload bytes, if it has a payload.
    fn get_payload(&self) -> (r: Option<&[u8]>)
        requires
            at_node(self),
        ensures
            r.is_some() == selected(self).payload.is_some(),
            r matches Some(p) ==> p@ == selected(self).payload->0,
    ;
}

/// A stored tree: a view of its top-level field, with the first node selected.
pub trait Tree {
    type TNode<'a>: Node where Self: 'a;

    /// The top-level nodes.
    spec fn tree_nodes(&self) -> Seq<NodeModel>;

    /// The storage is consistent.
    spec fn tree_ok(&self) -> bool;

    fn view<'a>(&'a self) -> (r: Self::TNode<'a>)
        requires
            self.tree_ok(),
        ensures
            r.wf(),
            r.nodes() == self.tree_nodes(),
            r.offset() == 0,
    ;
}

/// A node together with the label of the field it stands in.
pub struct ParentInfo<N> {
    pub node: N,
    pub label: FieldKey,
}

/// A node representation: navigation together with data.
pub trait Node: NodeNav + NodeData {

}

} // verus!
