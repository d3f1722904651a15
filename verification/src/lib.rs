//! An archetype-based entity/component storage engine.
//!
//! Entities are dense integer ids. Arbitrary component types, named by a
//! caller-supplied type tag, can be attached to and removed from entities.
//! Entities are grouped by their exact set of component types (their
//! "archetype"); archetypes form a graph connected by add/remove edges, and
//! each archetype stores the component values of its entities in densely
//! packed, row-aligned columns.

use vstd::prelude::*;

pub mod game;
pub mod render;
pub mod scene;
pub mod sig;
pub mod world;

verus! {

/// The recoverable error conditions of the engine. Every error is local to
/// the operation that reports it; no operation panics.
#[derive(Clone, Copy, Debug, PartialEq, Eq, Structural)]
pub enum EcsError {
    /// The operation referenced a destroyed or never-created entity id.
    EntityNotFound,
    /// A get/set/remove referenced a component type the entity's current
    /// signature lacks.
    ComponentNotPresent,
    /// An add referenced a component type already present on the entity.
    DuplicateComponent,
    /// A remove referenced a component type never seen by the registry.
    TypeNotRegistered,
}

} // verus!
