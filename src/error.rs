use vstd::prelude::*;

verus! {

/// Why an operation on the world or on its storage did not take place.
#[derive(Debug, Clone, Copy, PartialEq, Eq, Structural)]
pub enum EcsError {
    /// The entity id is not registered in the world.
    EntityNotFound,
    /// A column was accessed as holding a component type other than its own.
    TypeMismatch,
    /// An archetype, column or row that the world's invariants promise is missing,
    /// or two component-type sets share one archetype identity.
    ArchetypeInvariantViolation,
}

} // verus!
