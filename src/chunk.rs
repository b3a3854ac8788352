//! Chunks of a tree: the interface that a forest of chunks builds on.
use vstd::prelude::*;

use crate::basic_tree::BasicTree;
use crate::tree::{nodes_size, Indexable, NodeModel};
use crate::uniform_chunk::UniformChunk;
use crate::walk::walk_all_field;

verus! {

/// Index under which a node is stored in its chunk.
#[derive(PartialEq, Eq, Structural, Clone, Copy, Debug, Hash, PartialOrd, Ord)]
pub struct NodeChunkIndex(pub usize);

/// A node that knows its index in its chunk.
pub trait HasId {
    fn get_index_in_chunk(&self) -> NodeChunkIndex;
}

/// A chunk of a tree: zero or more top-level nodes with their subtrees.
pub trait Chunk: Sized {
    /// The top-level nodes.
    spec fn chunk_model(&self) -> Seq<NodeModel>;

    /// The chunk is consistent.
    spec fn chunk_ok(&self) -> bool;

    /// Number of nodes in the chunk, at every level.
    fn total_nodes(&self) -> (r: usize)
        requires
            self.chunk_ok(),
            nodes_size(self.chunk_model()) <= usize::MAX,
        ensures
            r == nodes_size(self.chunk_model()),
    ;
}

impl Chunk for UniformChunk {
    open spec fn chunk_model(&self) -> Seq<NodeModel> {
        self.model()
    }

    open spec fn chunk_ok(&self) -> bool {
        self.chunk_wf()
    }

    fn total_nodes(&self) -> (r: usize) {
        let view = self.view();
        match view.index(0) {
            Some(first) => walk_all_field(first),
            None => 0,
        }
    }
}

impl Chunk for BasicTree {
    open spec fn chunk_model(&self) -> Seq<NodeModel> {
        self.model()
    }

    open spec fn chunk_ok(&self) -> bool {
        self.tree_wf()
    }

    fn total_nodes(&self) -> (r: usize) {
        walk_all_field(self.view())
    }
}

} // verus!
