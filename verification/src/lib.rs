//! An archetype-based entity-component-system core.
//!
//! Entities are identified by an index into a directory of slots together
//! with a generation that disambiguates reuse. Entities carrying the same
//! set of component types share an archetype: a columnar table with one
//! column per component type. Every mutation stamps the touched cells with
//! the world's monotonically increasing epoch, which change-tracking
//! queries compare against a caller-held token. Columns carry a runtime
//! borrow counter so that conflicting simultaneous queries are refused
//! rather than aliased. Deferred mutations are recorded into an action
//! encoder and applied later under exclusive world access, and a scheduler
//! partitions systems into stages free of access conflicts.

use vstd::prelude::*;

pub mod action;
pub mod archetype;
pub mod component;
pub mod entity;
pub mod query;
pub mod relation;
pub mod scheduler;
pub mod world;

verus! {

/// A trivial component used in documentation examples: it carries the
/// reserved type identity zero and no payload.
pub struct ExampleComponent;

impl ExampleComponent {
    /// The component value this example stands for.
    pub fn component() -> (c: crate::component::Component)
        ensures
            c.ty == 0,
            c.value == crate::component::Value::Unit,
    {
        crate::component::Component { ty: 0, value: crate::component::Value::Unit }
    }
}

} // verus!
