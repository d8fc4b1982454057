//! The recoverable failures the storage layer reports.

use vstd::prelude::*;

verus! {

/// A storage-level lookup failure. These are recoverable and surfaced to the
/// caller; internal-consistency violations are excluded by contract instead.
#[derive(Clone, Copy, Debug, PartialEq, Eq, Structural)]
pub enum WorldError {
    /// The requested component type key was never registered with the world.
    ComponentNotFound,
    /// The operation referenced an entity index with no directory slot.
    EntityNotFound,
    /// The type is registered but this entity's slot for it is empty.
    ComponentNotSlotted,
}

impl WorldError {
    /// A short human-readable description of the failure.
    pub fn message(&self) -> (r: &'static str)
        ensures
            r@ == match self {
                WorldError::ComponentNotFound => "component was never spawned"@,
                WorldError::EntityNotFound => "entity not found"@,
                WorldError::ComponentNotSlotted => "component not slotted to entry"@,
            },
    {
        match self {
            WorldError::ComponentNotFound => "component was never spawned",
            WorldError::EntityNotFound => "entity not found",
            WorldError::ComponentNotSlotted => "component not slotted to entry",
        }
    }
}

} // verus!
