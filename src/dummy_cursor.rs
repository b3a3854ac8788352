//! A cursor over no tree at all: every move lands on the same placeholder.
use vstd::prelude::*;

use crate::tree::{FieldKey, TreeType, Value};

verus! {

/// Placeholder cursor in nodes mode.
#[derive(PartialEq, Eq, Structural)]
pub struct DummyNodes {}

/// Placeholder cursor in fields mode.
#[derive(PartialEq, Eq, Structural)]
pub struct DummyFields {}

/// Where a placeholder cursor went after a move.
#[derive(PartialEq, Eq, Structural)]
pub enum DummyCursor {
    Nodes(DummyNodes),
    Fields(DummyFields),
}

impl DummyNodes {
    pub fn field_index(&self) -> (r: u32)
        ensures
            r == 0,
    {
        0
    }

    pub fn chunk_start(&self) -> (r: u32)
        ensures
            r == 0,
    {
        self.field_index()
    }

    pub fn chunk_length(&self) -> (r: u32)
        ensures
            r == 1,
    {
        1
    }

    /// Stays in nodes mode, whatever the offset.
    pub fn seek_nodes(self, _offset: i32) -> (r: DummyCursor)
        ensures
            r == DummyCursor::Nodes(DummyNodes {}),
    {
        DummyCursor::Nodes(self)
    }

    pub fn next_node(self) -> (r: DummyCursor)
        ensures
            r == DummyCursor::Nodes(DummyNodes {}),
    {
        self.seek_nodes(1)
    }

    pub fn exit_node(self) -> (r: DummyFields)
        ensures
            r == (DummyFields {}),
    {
        DummyFields {}
    }

    /// Always forty-two.
    pub fn value(&self) -> (r: Value)
        ensures
            r == Value(Some(42)),
    {
        Value(Some(42))
    }

    pub fn first_field(self) -> (r: DummyCursor)
        ensures
            r == DummyCursor::Fields(DummyFields {}),
    {
        DummyCursor::Fields(DummyFields {})
    }

    pub fn enter_field(self, _key: FieldKey) -> (r: DummyCursor)
        ensures
            r == DummyCursor::Fields(DummyFields {}),
    {
        DummyCursor::Fields(DummyFields {})
    }

    pub fn node_type(&self) -> (r: TreeType)
        ensures
            r@ == "dummy"@,
    {
        TreeType::new("dummy")
    }
}

impl DummyFields {
    pub fn next_field(self) -> (r: DummyCursor)
        ensures
            r == DummyCursor::Nodes(DummyNodes {}),
    {
        DummyCursor::Nodes(DummyNodes {})
    }

    pub fn exit_field(self) -> (r: DummyNodes)
        ensures
            r == (DummyNodes {}),
    {
        DummyNodes {}
    }

    pub fn skip_pending_fields(self) -> (r: DummyCursor)
        ensures
            r == DummyCursor::Fields(DummyFields {}),
    {
        DummyCursor::Fields(self)
    }

    pub fn get_field_length(&self) -> (r: u32)
        ensures
            r == 1,
    {
        1
    }

    pub fn first_node(self) -> (r: DummyCursor)
        ensures
            r == DummyCursor::Nodes(DummyNodes {}),
    {
        DummyCursor::Nodes(DummyNodes {})
    }

    pub fn enter_node(self, _child_index: u32) -> (r: DummyNodes)
        ensures
            r == (DummyNodes {}),
    {
        DummyNodes {}
    }
}

} // verus!
