//! Tree hierarchies over the entities of a `hecs` world.
//!
//! Entities are referred to by the bit representation of their generation
//! checked handles. One [`Hierarchy`](hierarchy::Hierarchy) value holds one
//! independent forest of parent/child links over those entities; several
//! values may organize the same entity population into unrelated shapes.
//! Every mutation keeps the link structure consistent and acyclic, and every
//! traversal returns exactly the sequence that the mathematical model of the
//! hierarchy prescribes.

use vstd::prelude::*;

pub mod hierarchy;
pub mod laws;
pub mod lemmas;
pub mod model;
pub mod store;
pub mod traverse;

verus! {

/// Why a hierarchy operation was refused.
#[derive(Clone, Copy, Debug, PartialEq, Eq, Structural)]
pub enum HierarchyError {
    /// A handle does not refer to a live entity of the world.
    NoSuchEntity,
    /// The entity to attach already has a parent in this hierarchy.
    AlreadyAttached,
    /// The attach would have made an entity its own ancestor.
    CycleDetected,
}

} // verus!
