//! Relations: a typed directed pairing between two entities, stored as
//! a component on the origin whose payload names the target.

use vstd::prelude::*;

use crate::archetype::Archetype;
use crate::component::{Component, Value};
use crate::entity::EntityId;
use crate::world::{EntityError, World};

verus! {

/// Relates the origin entity to the target through the relation type:
/// the origin receives (or replaces) a component of the relation's type
/// whose payload is the target.
pub fn relate(world: &mut World, origin: EntityId, relation: u32, target: EntityId) -> (r: Result<
    (),
    EntityError,
>)
    requires
        old(world).wf(),
        old(world).epoch < u64::MAX,
    ensures
        final(world).wf(),
        r is Ok <==> old(world).alive(origin),
        r is Err ==> *final(world) == *old(world),
        r is Ok ==> final(world).has_c(origin, relation) && final(world).comp_at(origin, relation)
            == (Component { ty: relation, value: Value::Target(target) }),
{
    world.try_insert(origin, Component { ty: relation, value: Value::Target(target) })
}

/// Fetch state of the relation filter for one archetype: the resolved
/// column of the relation's origin component, if the archetype carries
/// it, and the target to filter out.
#[derive(Clone, Copy, Debug, PartialEq, Eq, Structural)]
pub struct FetchFilterNotRelatesTo {
    /// The column of the relation type, where present.
    pub col: Option<usize>,
    /// Origins relating to this entity are skipped.
    pub target: EntityId,
}

impl FetchFilterNotRelatesTo {
    /// Whether the row must be skipped: it is an origin of the relation
    /// whose payload names exactly the filtered target.
    pub fn skip_item(&self, arch: &Archetype, r: usize) -> (skip: bool)
        requires
            arch.wf(),
            r < arch.rows(),
            match self.col {
                Some(c) => c < arch.columns@.len(),
                None => true,
            },
        ensures
            skip == match self.col {
                Some(c) => arch.columns@[c as int].values@[r as int].value == Value::Target(
                    self.target,
                ),
                None => false,
            },
    {
        match self.col {
            Some(c) => {
                proof {
                    assert(arch.columns@[c as int].wf());
                }
                match &arch.columns[c].values[r].value {
                    Value::Target(t) => *t == self.target,
                    _ => false,
                }
            },
            None => false,
        }
    }
}

/// Filters out origins of the relation that target one specific entity.
/// Entities that do not relate at all, or relate elsewhere, pass.
#[derive(Clone, Copy, Debug, PartialEq, Eq, Structural)]
pub struct FilterNotRelatesTo {
    /// The relation's type identity.
    pub relation: u32,
    /// The target whose origins are filtered out.
    pub target: EntityId,
}

impl FilterNotRelatesTo {
    /// Returns the relation filter bound to one specific target entity.
    pub fn new(relation: u32, target: EntityId) -> (f: FilterNotRelatesTo)
        ensures
            f.relation == relation,
            f.target == target,
    {
        FilterNotRelatesTo { relation, target }
    }

    /// The query term this filter stands for.
    pub fn term(&self) -> (t: crate::query::Term)
        ensures
            t == crate::query::Term::NotRelatesTo(self.relation, self.target),
    {
        crate::query::Term::NotRelatesTo(self.relation, self.target)
    }
}

/// Returns a filter that keeps every entity except origins of the
/// relation targeting the given entity.
pub fn not_relates_to(relation: u32, target: EntityId) -> (f: FilterNotRelatesTo)
    ensures
        f.relation == relation,
        f.target == target,
{
    FilterNotRelatesTo { relation, target }
}

} // verus!
