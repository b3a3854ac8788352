//! Immutable trees of heterogeneous shape, stored either as boxed nodes or as uniform
//! chunks (a byte blob read through a shared schema), and a two-mode cursor that walks
//! either storage without revealing which one backs it.
//!
//! Every representation is related to one abstract model of a node (`tree::NodeModel`),
//! and every cursor move is related to a transition on an abstract cursor state
//! (`cursor::CursorModel`).

pub mod basic_tree;
pub mod chunk;
pub mod cursor;
pub mod dummy_cursor;
pub mod handle;
pub mod tree;
pub mod uniform_chunk;
pub mod util;
pub mod walk;
