//! Component values and the type registry.
//!
//! A component type is named by a `u32` type identity. A component value
//! pairs a type identity with a tagged payload. The registry maps type
//! identities to descriptors; registration is explicit (ahead of use) or
//! implicit (at first insertion, with a default descriptor).

use vstd::prelude::*;

use crate::entity::EntityId;

verus! {

/// Tagged payload of a component value.
#[derive(Debug, PartialEq, Eq)]
pub enum Value {
    /// An unsigned 32-bit integer.
    U32(u32),
    /// A boolean.
    Bool(bool),
    /// A string.
    Str(String),
    /// No payload; a pure marker.
    Unit,
    /// The origin side of a relation: the target this entity relates to.
    Target(EntityId),
}

impl Value {
    /// An exact copy of the payload.
    pub fn duplicate(&self) -> (v: Value)
        ensures
            v == *self,
    {
        match self {
            Value::U32(x) => Value::U32(*x),
            Value::Bool(b) => Value::Bool(*b),
            Value::Str(s) => Value::Str(s.clone()),
            Value::Unit => Value::Unit,
            Value::Target(t) => Value::Target(*t),
        }
    }
}

/// A component value: a type identity together with its payload.
#[derive(Debug, PartialEq, Eq)]
pub struct Component {
    /// The component's type identity.
    pub ty: u32,
    /// The payload.
    pub value: Value,
}

impl Component {
    /// Builds a component value.
    pub fn new(ty: u32, value: Value) -> (c: Component)
        ensures
            c.ty == ty,
            c.value == value,
    {
        Component { ty, value }
    }

    /// An exact copy of the component value.
    pub fn duplicate(&self) -> (c: Component)
        ensures
            c == *self,
    {
        Component { ty: self.ty, value: self.value.duplicate() }
    }
}

/// Descriptor of a registered component type.
#[derive(Clone, Copy, Debug, PartialEq, Eq, Structural)]
pub struct TypeInfo {
    /// The type identity this descriptor is for.
    pub ty: u32,
    /// A non-send component may only be written on the main thread.
    pub non_send: bool,
    /// A non-sync component may only be read on the main thread.
    pub non_sync: bool,
}

impl TypeInfo {
    /// The default descriptor used by implicit registration.
    pub fn plain(ty: u32) -> (info: TypeInfo)
        ensures
            info == (TypeInfo { ty, non_send: false, non_sync: false }),
    {
        TypeInfo { ty, non_send: false, non_sync: false }
    }
}

/// No two components of one sequence share a type identity.
pub open spec fn distinct_tys(s: Seq<Component>) -> bool {
    forall|i: int, j: int| 0 <= i < j < s.len() ==> s[i].ty != s[j].ty
}

} // verus!
