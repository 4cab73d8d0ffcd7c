//! Node references and the mathematical node model.
//!
//! A [`NodeRef`] is an opaque, copyable, totally-ordered index value; it
//! carries no lifetime and no ownership. A [`NodeModel`] is the ghost-level
//! picture of one vertex: its identity, label text and out-edge list.

use vstd::prelude::*;

verus! {

/// Strongly typed reference to a node in a graph: a plain index value.
///
/// Two references are equal exactly when their indices are equal, and the
/// total order is the order of the indices. Validity is established only when
/// the reference is resolved against a graph.
#[derive(Clone, Copy, Debug, PartialEq, Eq, PartialOrd, Ord, Structural)]
pub struct NodeRef(pub usize);

/// The mathematical model of one node: its identity, the text of its label,
/// and its out-edge list in insertion order.
pub struct NodeModel {
    pub id: NodeRef,
    pub label: Seq<char>,
    pub edges: Seq<NodeRef>,
}

} // verus!
