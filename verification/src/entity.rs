//! Entity identifiers and the typed entity handle.

use vstd::prelude::*;

verus! {

/// Identifier of an entity: an index into the world's entity directory
/// paired with a generation that disambiguates reuse of the slot.
/// Generation zero is reserved for the null id, which never names a live
/// entity.
#[derive(Clone, Copy, Debug, PartialEq, Eq, Hash, Structural)]
pub struct EntityId {
    pub index: u32,
    pub generation: u32,
}

impl EntityId {
    /// The null id. No live entity carries generation zero.
    pub fn null() -> (e: EntityId)
        ensures
            e.is_null(),
    {
        EntityId { index: 0, generation: 0 }
    }

    /// Whether this is the reserved null id.
    pub open spec fn is_null(self) -> bool {
        self.generation == 0
    }
}

/// A typed handle to an entity. It wraps the plain id; the plain id is
/// recovered with [`Entity::downgrade`].
#[derive(Clone, Copy, Debug, PartialEq, Eq, Structural)]
pub struct Entity {
    pub id: EntityId,
}

impl Entity {
    /// Wraps a plain id in a typed handle.
    pub fn new(id: EntityId) -> (e: Entity)
        ensures
            e.id == id,
    {
        Entity { id }
    }

    /// Returns the plain id that references the same entity.
    pub fn downgrade(&self) -> (id: EntityId)
        ensures
            id == self.id,
    {
        self.id
    }
}

} // verus!
