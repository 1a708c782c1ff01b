//! Deferred world mutations.
//!
//! Actions are recorded into an [`ActionEncoder`] while the world is
//! borrowed elsewhere, and executed later under exclusive world access,
//! front to back. Soft failures — despawning an entity that is already
//! dead, inserting into a dead entity — are no-ops, and a failing
//! action never aborts the ones recorded after it.
//!
//! Only data-carrying actions exist here: an action holding an
//! arbitrary user closure cannot live in verified code, so callers that
//! need custom deferred work run it themselves between executions (the
//! system runner around this library does exactly that).

use vstd::prelude::*;

use crate::component::{distinct_tys, Component};
use crate::entity::EntityId;
use crate::world::{borrow_states_kept, has_ty_in, others_kept, World};

verus! {

/// One recorded deferred mutation.
pub enum Action {
    /// Spawn a fresh entity with the bundle.
    Spawn(Vec<Component>),
    /// Insert the bundle into the entity, if it is alive.
    Insert(EntityId, Vec<Component>),
    /// Remove the component of the type from the entity, if present.
    Remove(EntityId, u32),
    /// Drop every component of the listed types the entity carries.
    RemoveBundle(EntityId, Vec<u32>),
    /// Despawn the entity, if it is alive.
    Despawn(EntityId),
}

/// A bundle carried by a recorded action is a set of components.
pub open spec fn action_wf(a: Action) -> bool {
    match a {
        Action::Spawn(b) => distinct_tys(b@),
        Action::Insert(_, b) => distinct_tys(b@),
        _ => true,
    }
}

/// What spawning a bundle leaves behind: some fresh entity carries
/// exactly the bundle, stamped at the bumped epoch, and every other
/// entity keeps its view.
pub open spec fn spawn_applied(w0: World, bundle: Seq<Component>, w1: World) -> bool {
    &&& w1.archetypes@.len() <= w0.archetypes@.len() + 1
    &&& exists|e: EntityId| #![auto] {
        &&& e.index == w0.slots@.len()
        &&& !w0.alive(e)
        &&& w1.alive(e)
        &&& w1.placed(e)
        &&& w1.epoch == w0.epoch + 1
        &&& w1.slots@.len() == w0.slots@.len() + 1
        &&& (forall|ty: u32| #![auto] w1.has_c(e, ty) == has_ty_in(bundle, ty))
        &&& (forall|i: int| #![auto]
            0 <= i < bundle.len() ==> w1.comp_at(e, bundle[i].ty) == bundle[i] && w1.epoch_at(
                e,
                bundle[i].ty,
            ) == w1.epoch)
        &&& others_kept(w0, w1, e)
        &&& w1.resources == w0.resources
    }
}

/// What a deferred bundle insert leaves behind: on a live entity it is
/// `World::try_insert_bundle`'s effect (the bundle's components present
/// with exactly the recorded values, old types of other names kept,
/// every other entity untouched); on a dead entity it is a no-op.
pub open spec fn insert_applied(w0: World, e: EntityId, bundle: Seq<Component>, w1: World) -> bool {
    if w0.alive(e) {
        &&& w1.epoch == w0.epoch + 1
        &&& w1.placed(e)
        &&& w1.archetypes@.len() <= w0.archetypes@.len() + 1
        &&& (forall|ty: u32| #![auto]
            w1.has_c(e, ty) == (w0.has_c(e, ty) || has_ty_in(bundle, ty)))
        &&& (forall|i: int| #![auto]
            0 <= i < bundle.len() ==> w1.comp_at(e, bundle[i].ty) == bundle[i] && w1.epoch_at(
                e,
                bundle[i].ty,
            ) == w1.epoch)
        &&& (forall|ty: u32| #![auto]
            w0.has_c(e, ty) && !has_ty_in(bundle, ty) ==> w1.comp_at(e, ty) == w0.comp_at(e, ty))
        &&& others_kept(w0, w1, e)
        &&& w1.slots@.len() == w0.slots@.len()
        &&& w1.resources == w0.resources
    } else {
        w1 == w0
    }
}

/// What a deferred single-type removal leaves behind: where the entity
/// carries the type it is `World::remove`'s effect; anywhere else
/// (dead entity, or type absent) it is a no-op.
pub open spec fn remove_applied(w0: World, e: EntityId, ty: u32, w1: World) -> bool {
    if w0.has_c(e, ty) {
        &&& w1.epoch == w0.epoch + 1
        &&& w1.placed(e)
        &&& w1.archetypes@.len() <= w0.archetypes@.len() + 1
        &&& !w1.has_c(e, ty)
        &&& (forall|ty2: u32| #![auto] ty2 != ty ==> w1.has_c(e, ty2) == w0.has_c(e, ty2))
        &&& (forall|ty2: u32| #![auto]
            ty2 != ty && w0.has_c(e, ty2) ==> w1.comp_at(e, ty2) == w0.comp_at(e, ty2))
        &&& others_kept(w0, w1, e)
        &&& w1.slots@.len() == w0.slots@.len()
        &&& w1.resources == w0.resources
    } else {
        w1 == w0
    }
}

/// What a deferred bundle drop leaves behind: on a live entity it is
/// `World::drop_bundle`'s effect (listed types gone, absent ones
/// ignored, other components kept); on a dead entity it is a no-op.
pub open spec fn drop_applied(w0: World, e: EntityId, tys: Seq<u32>, w1: World) -> bool {
    if w0.alive(e) {
        &&& w1.epoch == w0.epoch + 1
        &&& w1.archetypes@.len() <= w0.archetypes@.len() + 1
        &&& (forall|ty: u32| #![auto]
            w1.has_c(e, ty) == (w0.has_c(e, ty) && !tys.contains(ty)))
        &&& (forall|ty: u32| #![auto]
            w0.has_c(e, ty) && !tys.contains(ty) ==> w1.comp_at(e, ty) == w0.comp_at(e, ty))
        &&& others_kept(w0, w1, e)
        &&& w1.slots@.len() == w0.slots@.len()
        &&& w1.resources == w0.resources
    } else {
        w1 == w0
    }
}

/// What a deferred despawn leaves behind: a live entity dies and every
/// other entity keeps its view; despawning a dead entity leaves the
/// world exactly as it was.
pub open spec fn despawn_applied(w0: World, e: EntityId, w1: World) -> bool {
    if w0.alive(e) {
        &&& (forall|e2: EntityId| #![auto] e2.index == e.index ==> !w1.alive(e2))
        &&& others_kept(w0, w1, e)
        &&& w1.epoch == w0.epoch + 1
        &&& w1.archetypes@.len() == w0.archetypes@.len()
        &&& w1.slots@.len() == w0.slots@.len()
        &&& w1.resources == w0.resources
    } else {
        w1 == w0
    }
}

/// The world after one action: its soft semantics, with the world
/// invariant and all column borrow states kept.
pub open spec fn action_applied(w0: World, a: Action, w1: World) -> bool {
    &&& w1.wf()
    &&& borrow_states_kept(w0, w1)
    &&& match a {
        Action::Spawn(b) => spawn_applied(w0, b@, w1),
        Action::Insert(e, b) => insert_applied(w0, e, b@, w1),
        Action::Remove(e, ty) => remove_applied(w0, e, ty, w1),
        Action::RemoveBundle(e, tys) => drop_applied(w0, e, tys@, w1),
        Action::Despawn(e) => despawn_applied(w0, e, w1),
    }
}

/// A chain of worlds witnessing a whole log: `mids[k]` is the world
/// before action `k`, the chain starts at `w0`, ends at `w1`, and each
/// action applies to the world the previous ones left — front to back,
/// in recording order.
pub open spec fn chain_applies(w0: World, actions: Seq<Action>, mids: Seq<World>, w1: World) -> bool {
    &&& mids.len() == actions.len() + 1
    &&& mids[0] == w0
    &&& mids[actions.len() as int] == w1
    &&& forall|k: int|
        0 <= k < actions.len() ==> #[trigger] action_applied(mids[k], actions[k], mids[k + 1])
}

/// The world after a whole log: some chain of intermediate worlds
/// applies the actions one by one, front to back.
pub open spec fn actions_applied(w0: World, actions: Seq<Action>, w1: World) -> bool {
    exists|mids: Seq<World>| #[trigger] chain_applies(w0, actions, mids, w1)
}

/// Despawning an already-dead entity through the log is a no-op: the
/// world after that single action is exactly the world before it.
pub proof fn lemma_deferred_despawn_dead_noop(w0: World, e: EntityId, w1: World)
    requires
        actions_applied(w0, seq![Action::Despawn(e)], w1),
        !w0.alive(e),
    ensures
        w1 == w0,
{
    let acts = seq![Action::Despawn(e)];
    let mids = choose|mids: Seq<World>| #[trigger] chain_applies(w0, acts, mids, w1);
    assert(action_applied(mids[0], acts[0], mids[1]));
    assert(acts[0] == Action::Despawn(e));
    assert(mids[0] == w0 && mids[1] == w1);
}

/// An append-only log of deferred mutations.
pub struct ActionEncoder {
    /// The recorded actions, oldest first.
    pub actions: Vec<Action>,
}

impl ActionEncoder {
    /// Every recorded bundle is a set of components.
    pub open spec fn wf(self) -> bool {
        forall|i: int| 0 <= i < self.actions@.len() ==> action_wf(#[trigger] self.actions@[i])
    }

    /// A fresh empty encoder.
    pub fn new() -> (enc: ActionEncoder)
        ensures
            enc.wf(),
            enc.actions@.len() == 0,
    {
        ActionEncoder { actions: Vec::new() }
    }

    /// Whether no action has been recorded.
    pub fn is_empty(&self) -> (r: bool)
        ensures
            r == (self.actions@.len() == 0),
    {
        self.actions.len() == 0
    }

    /// Records spawning a fresh entity with the bundle.
    pub fn spawn(&mut self, bundle: Vec<Component>)
        requires
            old(self).wf(),
            distinct_tys(bundle@),
        ensures
            final(self).wf(),
            final(self).actions@ == old(self).actions@.push(Action::Spawn(bundle)),
    {
        self.actions.push(Action::Spawn(bundle));
    }

    /// Records inserting a bundle into the entity.
    pub fn insert(&mut self, entity: EntityId, bundle: Vec<Component>)
        requires
            old(self).wf(),
            distinct_tys(bundle@),
        ensures
            final(self).wf(),
            final(self).actions@ == old(self).actions@.push(Action::Insert(entity, bundle)),
    {
        self.actions.push(Action::Insert(entity, bundle));
    }

    /// Records removing the component's type from the entity.
    pub fn remove_component(&mut self, entity: EntityId, c: &Component)
        requires
            old(self).wf(),
        ensures
            final(self).wf(),
            final(self).actions@ == old(self).actions@.push(Action::Remove(entity, c.ty)),
    {
        let ty = c.ty;
        self.actions.push(Action::Remove(entity, ty));
    }

    /// Records removing a component by bare type identity.
    pub fn remove_component_raw(&mut self, entity: EntityId, ty: u32)
        requires
            old(self).wf(),
        ensures
            final(self).wf(),
            final(self).actions@ == old(self).actions@.push(Action::Remove(entity, ty)),
    {
        self.actions.push(Action::Remove(entity, ty));
    }

    /// Records dropping every component of the listed types.
    pub fn remove_bundle(&mut self, entity: EntityId, tys: Vec<u32>)
        requires
            old(self).wf(),
        ensures
            final(self).wf(),
            final(self).actions@ == old(self).actions@.push(Action::RemoveBundle(entity, tys)),
    {
        self.actions.push(Action::RemoveBundle(entity, tys));
    }

    /// Records despawning the entity.
    pub fn despawn(&mut self, entity: EntityId)
        requires
            old(self).wf(),
        ensures
            final(self).wf(),
            final(self).actions@ == old(self).actions@.push(Action::Despawn(entity)),
    {
        self.actions.push(Action::Despawn(entity));
    }

    /// Executes the recorded actions on the world, oldest first, and
    /// leaves the encoder empty. Returns whether any action ran. The
    /// final world is the fold of the actions' soft semantics over the
    /// starting world, front to back: a dead target makes an action a
    /// no-op, and a failing action never aborts the ones after it. The
    /// epoch and the directory grow by at most one step per action, so
    /// a later run's headroom can be budgeted.
    pub fn execute(&mut self, world: &mut World) -> (ran: bool)
        requires
            old(self).wf(),
            old(world).wf(),
            old(world).epoch + old(self).actions@.len() < u64::MAX,
            old(world).slots@.len() + old(self).actions@.len() < u32::MAX as nat,
        ensures
            final(self).actions@.len() == 0,
            final(self).wf(),
            final(world).wf(),
            ran == (old(self).actions@.len() > 0),
            actions_applied(*old(world), old(self).actions@, *final(world)),
            borrow_states_kept(*old(world), *final(world)),
            final(world).epoch >= old(world).epoch,
            final(world).epoch <= old(world).epoch + old(self).actions@.len(),
            final(world).slots@.len() >= old(world).slots@.len(),
            final(world).slots@.len() <= old(world).slots@.len() + old(self).actions@.len(),
            old(self).actions@.len() == 0 ==> *final(world) == *old(world),
    {
        let n = self.actions.len();
        let mut i: usize = 0;
        let ghost mut mids: Seq<World> = seq![*old(world)];
        while i < n
            invariant
                i <= n,
                n == self.actions@.len(),
                self.actions@ == old(self).actions@,
                self.wf(),
                world.wf(),
                world.epoch + (n - i) < u64::MAX,
                world.slots@.len() + (n - i) < u32::MAX as nat,
                world.epoch >= old(world).epoch,
                world.epoch <= old(world).epoch + i,
                world.slots@.len() >= old(world).slots@.len(),
                world.slots@.len() <= old(world).slots@.len() + i,
                borrow_states_kept(*old(world), *world),
                mids.len() == i + 1,
                mids[0] == *old(world),
                mids[i as int] == *world,
                forall|k: int|
                    0 <= k < i ==> #[trigger] action_applied(
                        mids[k],
                        self.actions@[k],
                        mids[k + 1],
                    ),
                i == 0 ==> *world == *old(world),
                i > 0 ==> n > 0,
            decreases n - i,
        {
            proof {
                assert(action_wf(self.actions@[i as int]));
            }
            let ghost wpre = *world;
            match &self.actions[i] {
                Action::Spawn(bundle) => {
                    let b = duplicate_bundle(bundle);
                    let spawned = world.spawn(b);
                    proof {
                        assert(spawned.index == wpre.slots@.len());
                        assert(spawn_applied(wpre, bundle@, *world));
                        assert(action_applied(wpre, self.actions@[i as int], *world));
                    }
                },
                Action::Insert(entity, bundle) => {
                    let b = duplicate_bundle(bundle);
                    let ghost bs = b@;
                    let r = world.try_insert_bundle(*entity, b);
                    proof {
                        let e2 = *entity;
                        if wpre.alive(e2) {
                            assert(r is Ok);
                            assert forall|ty: u32| #![auto] world.has_c(e2, ty) == (wpre.has_c(
                                e2,
                                ty,
                            ) || has_ty_in(bundle@, ty)) by {
                                assert(world.has_c(e2, ty) == (wpre.has_c(e2, ty) || has_ty_in(
                                    bs,
                                    ty,
                                )));
                            }
                            assert forall|j: int| #![auto]
                                0 <= j < bundle@.len() implies world.comp_at(
                                e2,
                                bundle@[j].ty,
                            ) == bundle@[j] && world.epoch_at(e2, bundle@[j].ty)
                                == world.epoch by {
                                assert(bs[j] == bundle@[j]);
                                assert(world.comp_at(e2, bs[j].ty) == bs[j] && world.epoch_at(
                                    e2,
                                    bs[j].ty,
                                ) == world.epoch);
                            }
                            assert forall|ty: u32| #![auto]
                                wpre.has_c(e2, ty) && !has_ty_in(bundle@, ty) implies world.comp_at(
                                e2,
                                ty,
                            ) == wpre.comp_at(e2, ty) by {
                                assert(!has_ty_in(bs, ty));
                            }
                        } else {
                            assert(*world == wpre);
                        }
                        assert(insert_applied(wpre, *entity, bundle@, *world));
                        assert(action_applied(wpre, self.actions@[i as int], *world));
                    }
                },
                Action::Remove(entity, ty) => {
                    let r = world.remove(*entity, *ty);
                    proof {
                        if wpre.has_c(*entity, *ty) {
                            assert(r is Ok);
                        } else {
                            assert(*world == wpre);
                        }
                        assert(remove_applied(wpre, *entity, *ty, *world));
                        assert(action_applied(wpre, self.actions@[i as int], *world));
                    }
                },
                Action::RemoveBundle(entity, tys) => {
                    let e = *entity;
                    let mut drops: Vec<u32> = Vec::new();
                    let mut k: usize = 0;
                    while k < tys.len()
                        invariant
                            k <= tys@.len(),
                            drops@ == tys@.take(k as int),
                        decreases tys@.len() - k,
                    {
                        drops.push(tys[k]);
                        proof {
                            assert(drops@ =~= tys@.take(k + 1 as int));
                        }
                        k = k + 1;
                    }
                    proof {
                        assert(drops@ =~= tys@);
                    }
                    let ghost ds = drops@;
                    let r = world.drop_bundle(e, &drops);
                    proof {
                        if wpre.alive(e) {
                            assert(r is Ok);
                            assert forall|ty: u32| #![auto] world.has_c(e, ty) == (wpre.has_c(
                                e,
                                ty,
                            ) && !tys@.contains(ty)) by {
                                assert(world.has_c(e, ty) == (wpre.has_c(e, ty) && !ds.contains(
                                    ty,
                                )));
                            }
                            assert forall|ty: u32| #![auto]
                                wpre.has_c(e, ty) && !tys@.contains(ty) implies world.comp_at(
                                e,
                                ty,
                            ) == wpre.comp_at(e, ty) by {
                                assert(!ds.contains(ty));
                            }
                        } else {
                            assert(*world == wpre);
                        }
                        assert(drop_applied(wpre, e, tys@, *world));
                        assert(action_applied(wpre, self.actions@[i as int], *world));
                    }
                },
                Action::Despawn(entity) => {
                    world.despawn_deferred(*entity);
                    proof {
                        assert(despawn_applied(wpre, *entity, *world));
                        assert(action_applied(wpre, self.actions@[i as int], *world));
                    }
                },
            }
            proof {
                assert(action_applied(wpre, self.actions@[i as int], *world));
                mids = mids.push(*world);
                assert forall|k: int| 0 <= k < i + 1 implies #[trigger] action_applied(
                    mids[k],
                    self.actions@[k],
                    mids[k + 1],
                ) by {
                    if k < i {
                        assert(mids[k] == mids.drop_last()[k] && mids[k + 1] == mids.drop_last()[
                            k + 1
                        ]);
                    } else {
                        assert(mids[k] == wpre && mids[k + 1] == *world);
                    }
                }
                crate::world::lemma_borrow_states_trans(*old(world), wpre, *world);
            }
            i = i + 1;
        }
        proof {
            assert(chain_applies(*old(world), self.actions@, mids, *world));
            assert(actions_applied(*old(world), self.actions@, *world));
        }
        self.actions = Vec::new();
        n > 0
    }
}

/// An exact copy of a bundle.
fn duplicate_bundle(bundle: &Vec<Component>) -> (b: Vec<Component>)
    ensures
        b@ == bundle@,
{
    let mut b: Vec<Component> = Vec::new();
    let mut i: usize = 0;
    while i < bundle.len()
        invariant
            i <= bundle@.len(),
            b@ == bundle@.take(i as int),
        decreases bundle@.len() - i,
    {
        b.push(bundle[i].duplicate());
        proof {
            assert(b@ =~= bundle@.take(i + 1 as int));
        }
        i = i + 1;
    }
    proof {
        assert(b@ =~= bundle@);
    }
    b
}


} // verus!
