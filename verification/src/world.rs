//! The world: the entity directory, the archetype set, the resource
//! table, the type registry and the epoch counter.

use vstd::prelude::*;

use crate::archetype::{strict_sorted, Archetype, Column, Shared};
use crate::component::{distinct_tys, Component, TypeInfo, Value};
use crate::entity::EntityId;

verus! {

/// Where an entity directory slot currently points.
#[derive(Clone, Copy, Debug, PartialEq, Eq, Structural)]
pub enum Loc {
    /// The slot is dead: its id has been despawned (or never issued).
    Vacant,
    /// The entity is allocated but not yet placed in any archetype.
    Reserved,
    /// The entity sits at this archetype index and row index.
    Row(usize, usize),
}

/// One entry of the entity directory.
#[derive(Clone, Copy, Debug, PartialEq, Eq, Structural)]
pub struct Slot {
    /// The generation current ids of this index must carry.
    pub generation: u32,
    /// Where the entity lives.
    pub loc: Loc,
}

/// Errors returned when an entity reference cannot be honoured.
#[derive(Clone, Copy, Debug, PartialEq, Eq, Structural)]
pub enum EntityError {
    /// The entity does not exist (wrong generation, or despawned).
    NoSuchEntity,
    /// The entity exists but lacks a requested component.
    MissingComponents,
}

/// Errors returned by explicit and identity-only registry operations.
#[derive(Clone, Copy, Debug, PartialEq, Eq, Structural)]
pub enum RegistryError {
    /// Explicit registration found the type already registered.
    AlreadyRegistered,
    /// An identity-only operation found the type unknown.
    TypeNotRegistered,
}

/// A change-tracking token: the epoch up to which its holder has already
/// consumed modifications.
#[derive(Clone, Copy, Debug, PartialEq, Eq, Structural)]
pub struct TrackToken {
    /// Writes at epochs strictly greater than this are still unseen.
    pub epoch: u64,
}

/// The world.
pub struct World {
    /// The entity directory, indexed by `EntityId::index`.
    pub slots: Vec<Slot>,
    /// All archetypes, in creation order; never removed.
    pub archetypes: Vec<Archetype>,
    /// The strictly monotone epoch counter.
    pub epoch: u64,
    /// Registered component type descriptors, unique by type identity.
    pub types: Vec<TypeInfo>,
    /// Singleton resources, unique by type identity.
    pub resources: Vec<Component>,
}

impl World {
    /// A live entity: the index is in range, the generation matches and
    /// the slot is not vacant.
    pub open spec fn alive(self, e: EntityId) -> bool {
        &&& e.index < self.slots@.len()
        &&& self.slots@[e.index as int].generation == e.generation
        &&& !(self.slots@[e.index as int].loc is Vacant)
    }

    /// A live entity that sits in an archetype row.
    pub open spec fn placed(self, e: EntityId) -> bool {
        self.alive(e) && self.slots@[e.index as int].loc is Row
    }

    /// The archetype index of a placed entity.
    pub open spec fn arch_of(self, e: EntityId) -> int {
        self.slots@[e.index as int].loc->Row_0 as int
    }

    /// The row index of a placed entity.
    pub open spec fn row_of(self, e: EntityId) -> int {
        self.slots@[e.index as int].loc->Row_1 as int
    }

    /// Whether the entity is placed and carries the component type.
    pub open spec fn has_c(self, e: EntityId, ty: u32) -> bool {
        self.placed(e) && self.archetypes@[self.arch_of(e)].has_ty(ty)
    }

    /// The component value the entity carries at the type.
    pub open spec fn comp_at(self, e: EntityId, ty: u32) -> Component {
        self.archetypes@[self.arch_of(e)].cell(self.row_of(e), ty)
    }

    /// The epoch of the last write to the entity's cell of the type.
    pub open spec fn epoch_at(self, e: EntityId, ty: u32) -> u64 {
        self.archetypes@[self.arch_of(e)].cell_epoch(self.row_of(e), ty)
    }

    /// All archetypes are internally consistent and no cell is stamped
    /// beyond the world epoch.
    pub open spec fn archetypes_wf(self) -> bool {
        forall|a: int|
            0 <= a < self.archetypes@.len() ==> {
                let arch = #[trigger] self.archetypes@[a];
                arch.wf() && forall|c: int|
                    0 <= c < arch.columns@.len() ==> (#[trigger] arch.columns@[c]).max_epoch
                        <= self.epoch
            }
    }

    /// No two archetypes share a signature.
    pub open spec fn signatures_unique(self) -> bool {
        forall|a1: int, a2: int|
            0 <= a1 < self.archetypes@.len() && 0 <= a2 < self.archetypes@.len() && a1 != a2
                ==> (#[trigger] self.archetypes@[a1]).sig() != (#[trigger] self.archetypes@[a2]).sig()
    }

    /// Every non-vacant slot points at a row that carries its own id
    /// back, and its generation can still be bumped.
    pub open spec fn directory_consistent(self) -> bool {
        forall|i: int|
            0 <= i < self.slots@.len() ==> {
                let s = #[trigger] self.slots@[i];
                s.generation >= 1 && match s.loc {
                    Loc::Vacant => true,
                    Loc::Reserved => s.generation < u32::MAX,
                    Loc::Row(a, r) => {
                        &&& s.generation < u32::MAX
                        &&& (a as int) < self.archetypes@.len()
                        &&& (r as int) < self.archetypes@[a as int].entities@.len()
                        &&& self.archetypes@[a as int].entities@[r as int] == (EntityId {
                            index: i as u32,
                            generation: s.generation,
                        })
                    },
                }
            }
    }

    /// Every archetype row names a live slot that points back at it.
    pub open spec fn rows_backed(self) -> bool {
        forall|a: int, r: int|
            0 <= a < self.archetypes@.len() && 0 <= r < self.archetypes@[a].entities@.len() ==> {
                let e = #[trigger] self.archetypes@[a].entities@[r];
                &&& e.index < self.slots@.len()
                &&& self.slots@[e.index as int].generation == e.generation
                &&& self.slots@[e.index as int].loc == Loc::Row(a as usize, r as usize)
            }
    }

    /// Type identities in the registry are unique.
    pub open spec fn registry_wf(self) -> bool {
        forall|i: int, j: int|
            0 <= i < j < self.types@.len() ==> (#[trigger] self.types@[i]).ty
                != (#[trigger] self.types@[j]).ty
    }

    /// Type identities in the resource table are unique.
    pub open spec fn resources_wf(self) -> bool {
        forall|i: int, j: int|
            0 <= i < j < self.resources@.len() ==> (#[trigger] self.resources@[i]).ty
                != (#[trigger] self.resources@[j]).ty
    }

    /// The world invariant. Its named parts are the quantified laws of
    /// the store: directory consistency, archetype signature uniqueness,
    /// column parallelism (inside `Archetype::wf`) and epoch bounds.
    pub open spec fn wf(self) -> bool {
        &&& self.archetypes_wf()
        &&& self.signatures_unique()
        &&& self.directory_consistent()
        &&& self.rows_backed()
        &&& self.registry_wf()
        &&& self.resources_wf()
        &&& self.slots@.len() <= u32::MAX as nat
        &&& self.archetypes@.len() <= usize::MAX as nat
        &&& forall|a: int|
            0 <= a < self.archetypes@.len() ==> (#[trigger] self.archetypes@[a]).entities@.len()
                <= usize::MAX as nat
        &&& self.epoch >= 1
    }

    /// Whether a type identity is registered.
    pub open spec fn registered(self, ty: u32) -> bool {
        exists|i: int| 0 <= i < self.types@.len() && (#[trigger] self.types@[i]).ty == ty
    }
}

impl World {
    /// Directory consistency: the row a live entity's slot points at
    /// carries exactly that entity's id.
    pub proof fn lemma_directory_consistency(self, e: EntityId)
        requires
            self.wf(),
            self.placed(e),
        ensures
            self.archetypes@[self.arch_of(e)].entities@[self.row_of(e)] == e,
    {
    }

    /// Column parallelism: every column of an archetype has exactly as
    /// many cells as the archetype has rows.
    pub proof fn lemma_column_parallelism(self, a: int)
        requires
            self.wf(),
            0 <= a < self.archetypes@.len(),
        ensures
            forall|c: int|
                0 <= c < self.archetypes@[a].columns@.len()
                    ==> (#[trigger] self.archetypes@[a].columns@[c]).len()
                    == self.archetypes@[a].rows(),
    {
        assert(self.archetypes@[a].wf());
    }

    /// Epoch monotonicity: a cell's write stamp never exceeds its
    /// column's maximum, which never exceeds the world epoch.
    pub proof fn lemma_epoch_monotonicity(self, e: EntityId, ty: u32)
        requires
            self.wf(),
            self.has_c(e, ty),
        ensures
            self.epoch_at(e, ty) <= self.archetypes@[self.arch_of(e)].columns@[self.archetypes@[
                self.arch_of(e)
            ].col_idx(ty)].max_epoch,
            self.archetypes@[self.arch_of(e)].columns@[self.archetypes@[self.arch_of(
                e,
            )].col_idx(ty)].max_epoch <= self.epoch,
    {
        let a = self.arch_of(e);
        assert(self.archetypes@[a].wf());
        assert(self.archetypes@[a].signature@.contains(ty));
        let c = self.archetypes@[a].col_idx(ty);
        assert(self.archetypes@[a].columns@[c].wf());
    }

    /// Archetype uniqueness, order-free: no two archetypes carry the
    /// same set of component types.
    pub proof fn lemma_signature_sets_unique(self, a1: int, a2: int)
        requires
            self.wf(),
            0 <= a1 < self.archetypes@.len(),
            0 <= a2 < self.archetypes@.len(),
            a1 != a2,
        ensures
            self.archetypes@[a1].sig().to_set() != self.archetypes@[a2].sig().to_set(),
    {
        if self.archetypes@[a1].sig().to_set() == self.archetypes@[a2].sig().to_set() {
            assert(self.archetypes@[a1].wf());
            assert(self.archetypes@[a2].wf());
            crate::archetype::lemma_sorted_set_determines(
                self.archetypes@[a1].sig(),
                self.archetypes@[a2].sig(),
            );
        }
    }
}

/// Compares two type-identity sequences for equality.
fn vec_u32_eq(x: &Vec<u32>, y: &Vec<u32>) -> (r: bool)
    ensures
        r == (x@ == y@),
{
    if x.len() != y.len() {
        proof {
            assert(x@.len() != y@.len());
        }
        return false;
    }
    let mut i: usize = 0;
    while i < x.len()
        invariant
            i <= x@.len(),
            x@.len() == y@.len(),
            forall|k: int| 0 <= k < i ==> x@[k] == y@[k],
        decreases x@.len() - i,
    {
        if x[i] != y[i] {
            return false;
        }
        i = i + 1;
    }
    proof {
        assert(x@ =~= y@);
    }
    true
}

/// Whether some component of the sequence carries the type identity.
pub open spec fn has_ty_in(s: Seq<Component>, ty: u32) -> bool {
    exists|i: int| 0 <= i < s.len() && (#[trigger] s[i]).ty == ty
}

/// Finds a component of the given type in a bundle.
fn has_ty_at(bundle: &Vec<Component>, ty: u32) -> (r: Option<usize>)
    ensures
        match r {
            Some(i) => i < bundle@.len() && bundle@[i as int].ty == ty,
            None => !has_ty_in(bundle@, ty),
        },
{
    let mut i: usize = 0;
    while i < bundle.len()
        invariant
            i <= bundle@.len(),
            forall|k: int| 0 <= k < i ==> (#[trigger] bundle@[k]).ty != ty,
        decreases bundle@.len() - i,
    {
        if bundle[i].ty == ty {
            return Some(i);
        }
        i = i + 1;
    }
    None
}

/// The strictly sorted signature of a bundle: its type identities in
/// increasing order.
fn bundle_signature(bundle: &Vec<Component>) -> (sig: Vec<u32>)
    requires
        distinct_tys(bundle@),
    ensures
        strict_sorted(sig@),
        sig@.len() == bundle@.len(),
        forall|ty: u32| sig@.contains(ty) <==> has_ty_in(bundle@, ty),
{
    let mut sig: Vec<u32> = Vec::new();
    let mut i: usize = 0;
    while i < bundle.len()
        invariant
            i <= bundle@.len(),
            distinct_tys(bundle@),
            strict_sorted(sig@),
            sig@.len() == i,
            forall|ty: u32| sig@.contains(ty) <==> has_ty_in(bundle@.take(i as int), ty),
        decreases bundle@.len() - i,
    {
        let ty = bundle[i].ty;
        proof {
            assert(!sig@.contains(ty)) by {
                if sig@.contains(ty) {
                    assert(has_ty_in(bundle@.take(i as int), ty));
                    let j = choose|j: int|
                        0 <= j < bundle@.take(i as int).len() && (#[trigger] bundle@.take(
                            i as int,
                        )[j]).ty == ty;
                    assert(bundle@[j].ty == bundle@[i as int].ty);
                }
            }
        }
        let mut p: usize = 0;
        while p < sig.len() && sig[p] < ty
            invariant
                p <= sig@.len(),
                strict_sorted(sig@),
                !sig@.contains(ty),
                forall|k: int| 0 <= k < p ==> sig@[k] < ty,
            decreases sig@.len() - p,
        {
            p = p + 1;
        }
        let ghost sig0 = sig@;
        proof {
            if p < sig0.len() {
                assert(sig0[p as int] != ty) by {
                    assert(sig0.contains(sig0[p as int]));
                }
                assert(sig0[p as int] > ty);
            }
        }
        sig.insert(p, ty);
        proof {
            assert(strict_sorted(sig@)) by {
                assert forall|x: int, y: int| 0 <= x < y < sig@.len() implies sig@[x]
                    < sig@[y] by {
                    if y < p {
                        assert(sig@[x] == sig0[x] && sig@[y] == sig0[y]);
                    } else if x > p {
                        assert(sig@[x] == sig0[x - 1] && sig@[y] == sig0[y - 1]);
                    } else if y == p {
                        assert(sig@[x] == sig0[x] && sig@[y] == ty);
                    } else if x == p {
                        assert(sig@[x] == ty && sig@[y] == sig0[y - 1]);
                        assert(y - 1 >= p && y - 1 < sig0.len());
                        assert(sig0[p as int] > ty);
                        assert(sig0[y - 1] >= sig0[p as int]);
                    } else {
                        assert(x < p && y > p);
                        assert(sig@[x] == sig0[x] && sig@[y] == sig0[y - 1]);
                        assert(y - 1 >= p && y - 1 < sig0.len());
                        assert(sig0[p as int] > ty);
                        assert(sig0[y - 1] >= sig0[p as int]);
                        assert(sig0[x] < ty);
                    }
                }
            }
            assert forall|t2: u32| sig@.contains(t2) <==> has_ty_in(
                bundle@.take(i + 1 as int),
                t2,
            ) by {
                if sig@.contains(t2) {
                    let k = choose|k: int| 0 <= k < sig@.len() && sig@[k] == t2;
                    if k == p {
                        assert(bundle@.take(i + 1 as int)[i as int].ty == t2);
                        assert(has_ty_in(bundle@.take(i + 1 as int), t2));
                    } else {
                        let k0: int = if k < p {
                            k
                        } else {
                            k - 1
                        };
                        assert(sig0[k0] == t2);
                        assert(sig0.contains(t2));
                        assert(has_ty_in(bundle@.take(i as int), t2));
                        let j = choose|j: int|
                            0 <= j < bundle@.take(i as int).len() && (#[trigger] bundle@.take(
                                i as int,
                            )[j]).ty == t2;
                        assert(bundle@.take(i + 1 as int)[j].ty == t2);
                        assert(has_ty_in(bundle@.take(i + 1 as int), t2));
                    }
                }
                if has_ty_in(bundle@.take(i + 1 as int), t2) {
                    let j = choose|j: int|
                        0 <= j < bundle@.take(i + 1 as int).len() && (#[trigger] bundle@.take(
                            i + 1 as int,
                        )[j]).ty == t2;
                    if j == i as int {
                        assert(sig@[p as int] == t2);
                        assert(sig@.contains(t2));
                    } else {
                        assert(bundle@.take(i as int)[j].ty == t2);
                        assert(has_ty_in(bundle@.take(i as int), t2));
                        assert(sig0.contains(t2));
                        let k = choose|k: int| 0 <= k < sig0.len() && sig0[k] == t2;
                        if k < p {
                            assert(sig@[k] == t2);
                        } else {
                            assert(sig@[k + 1] == t2);
                        }
                        assert(sig@.contains(t2));
                    }
                }
            }
        }
        i = i + 1;
    }
    proof {
        assert(bundle@.take(i as int) =~= bundle@);
    }
    sig
}

/// Reorders a bundle into signature order, copying each component to the
/// column position of its type.
fn arrange(bundle: &Vec<Component>, sig: &Vec<u32>) -> (comps: Vec<Component>)
    requires
        forall|c: int| 0 <= c < sig@.len() ==> has_ty_in(bundle@, #[trigger] sig@[c]),
    ensures
        comps@.len() == sig@.len(),
        forall|c: int|
            0 <= c < comps@.len() ==> (#[trigger] comps@[c]).ty == sig@[c] && bundle@.contains(
                comps@[c],
            ),
{
    let mut comps: Vec<Component> = Vec::new();
    let mut c: usize = 0;
    while c < sig.len()
        invariant
            c <= sig@.len(),
            comps@.len() == c,
            forall|k: int| 0 <= k < sig@.len() ==> has_ty_in(bundle@, #[trigger] sig@[k]),
            forall|k: int|
                0 <= k < c ==> (#[trigger] comps@[k]).ty == sig@[k] && bundle@.contains(comps@[k]),
        decreases sig@.len() - c,
    {
        let found = has_ty_at(bundle, sig[c]);
        match found {
            Some(i) => {
                comps.push(bundle[i].duplicate());
            },
            None => {
                proof {
                    assert(false);
                }
            },
        }
        c = c + 1;
    }
    comps
}

/// Whether a type identity occurs in the list.
fn u32_in(v: &Vec<u32>, x: u32) -> (r: bool)
    ensures
        r == v@.contains(x),
{
    let mut i: usize = 0;
    while i < v.len()
        invariant
            i <= v@.len(),
            forall|k: int| 0 <= k < i ==> v@[k] != x,
        decreases v@.len() - i,
    {
        if v[i] == x {
            proof {
                assert(v@[i as int] == x);
            }
            return true;
        }
        i = i + 1;
    }
    false
}

/// The view one entity offers — liveness, placement, components, values
/// and stamps — is the same in both worlds.
pub open spec fn entity_view_kept(w0: World, w1: World, e2: EntityId) -> bool {
    &&& w1.alive(e2) == w0.alive(e2)
    &&& w1.placed(e2) == w0.placed(e2)
    &&& forall|ty: u32| #![trigger w1.has_c(e2, ty)] #![trigger w0.has_c(e2, ty)]
        w1.has_c(e2, ty) == w0.has_c(e2, ty)
    &&& forall|ty: u32| #![trigger w1.comp_at(e2, ty)] #![trigger w0.comp_at(e2, ty)]
        w0.has_c(e2, ty) ==> w1.comp_at(e2, ty) == w0.comp_at(e2, ty) && w1.epoch_at(e2, ty)
            == w0.epoch_at(e2, ty)
}

/// Every entity other than the one named keeps its view.
pub open spec fn others_kept(w0: World, w1: World, e: EntityId) -> bool {
    forall|e2: EntityId| #![auto] e2.index != e.index ==> entity_view_kept(w0, w1, e2)
}

/// Every entity keeps its view.
pub open spec fn all_kept(w0: World, w1: World) -> bool {
    forall|e2: EntityId| #![auto] entity_view_kept(w0, w1, e2)
}

/// The runtime borrow states survive: archetypes are never deleted,
/// every existing column keeps its borrow state, and the columns of any
/// newly created archetype are free. World mutations move data, never
/// borrows, so held query locks stay meaningful across them.
pub open spec fn borrow_states_kept(w0: World, w1: World) -> bool {
    &&& w0.archetypes@.len() <= w1.archetypes@.len()
    &&& forall|a: int|
        0 <= a < w0.archetypes@.len() ==> {
            &&& (#[trigger] w1.archetypes@[a]).columns@.len() == w0.archetypes@[a].columns@.len()
            &&& forall|c: int|
                0 <= c < w0.archetypes@[a].columns@.len()
                    ==> (#[trigger] w1.archetypes@[a].columns@[c]).state
                    == w0.archetypes@[a].columns@[c].state
        }
    &&& forall|a: int|
        w0.archetypes@.len() <= a < w1.archetypes@.len() ==> forall|c: int|
            0 <= c < (#[trigger] w1.archetypes@[a]).columns@.len()
                ==> (#[trigger] w1.archetypes@[a].columns@[c]).state == crate::archetype::Shared::Free
}

/// Worlds with the same archetype vector trivially keep borrow states.
pub proof fn lemma_borrow_states_refl(w0: World, w1: World)
    requires
        w1.archetypes == w0.archetypes,
    ensures
        borrow_states_kept(w0, w1),
{
}

/// Borrow-state preservation composes.
pub proof fn lemma_borrow_states_trans(w0: World, w1: World, w2: World)
    requires
        borrow_states_kept(w0, w1),
        borrow_states_kept(w1, w2),
    ensures
        borrow_states_kept(w0, w2),
{
    assert forall|a: int| 0 <= a < w0.archetypes@.len() implies {
        &&& (#[trigger] w2.archetypes@[a]).columns@.len() == w0.archetypes@[a].columns@.len()
        &&& forall|c: int|
            0 <= c < w0.archetypes@[a].columns@.len()
                ==> (#[trigger] w2.archetypes@[a].columns@[c]).state
                == w0.archetypes@[a].columns@[c].state
    } by {
        assert(w1.archetypes@[a].columns@.len() == w0.archetypes@[a].columns@.len());
    }
    assert forall|a: int|
        w0.archetypes@.len() <= a < w2.archetypes@.len() implies forall|c: int|
        0 <= c < (#[trigger] w2.archetypes@[a]).columns@.len()
            ==> (#[trigger] w2.archetypes@[a].columns@[c]).state
            == crate::archetype::Shared::Free by {
        if a < w1.archetypes@.len() {
            assert forall|c: int|
                0 <= c < w2.archetypes@[a].columns@.len() implies (
            #[trigger] w2.archetypes@[a].columns@[c]).state == crate::archetype::Shared::Free by {
                assert(w1.archetypes@[a].columns@[c].state == crate::archetype::Shared::Free);
            }
        }
    }
}

impl World {
    /// A fresh world: no entities, no archetypes, no resources, epoch 1.
    pub fn new() -> (w: World)
        ensures
            w.wf(),
            w.slots@.len() == 0,
            w.archetypes@.len() == 0,
            w.types@.len() == 0,
            w.resources@.len() == 0,
            w.epoch == 1,
    {
        World {
            slots: Vec::new(),
            archetypes: Vec::new(),
            epoch: 1,
            types: Vec::new(),
            resources: Vec::new(),
        }
    }

    /// The current epoch.
    pub fn epoch(&self) -> (ep: u64)
        ensures
            ep == self.epoch,
    {
        self.epoch
    }

    /// Bumps the epoch counter by one.
    pub fn bump_epoch(&mut self)
        requires
            old(self).wf(),
            old(self).epoch < u64::MAX,
        ensures
            final(self).wf(),
            final(self).epoch == old(self).epoch + 1,
            final(self).slots == old(self).slots,
            final(self).archetypes == old(self).archetypes,
            final(self).types == old(self).types,
            final(self).resources == old(self).resources,
            all_kept(*old(self), *final(self)),
    {
        self.epoch = self.epoch + 1;
    }

    /// Takes a change-tracking token at the current epoch: queries made
    /// through it will only see writes stamped after this moment.
    pub fn tracks(&self) -> (t: TrackToken)
        ensures
            t.epoch == self.epoch,
    {
        TrackToken { epoch: self.epoch }
    }

    /// Reserves a fresh entity slot without placing it in any archetype.
    pub fn allocate(&mut self) -> (e: EntityId)
        requires
            old(self).wf(),
            old(self).slots@.len() < u32::MAX as nat,
        ensures
            final(self).wf(),
            final(self).alive(e),
            !final(self).placed(e),
            e.index == old(self).slots@.len(),
            final(self).slots@.len() == old(self).slots@.len() + 1,
            e.generation == 1,
            !old(self).alive(e),
            final(self).slots@.len() == old(self).slots@.len() + 1,
            final(self).archetypes == old(self).archetypes,
            final(self).epoch == old(self).epoch,
            final(self).types == old(self).types,
            final(self).resources == old(self).resources,
            others_kept(*old(self), *final(self), e),
    {
        let index = self.slots.len() as u32;
        self.slots.push(Slot { generation: 1, loc: Loc::Reserved });
        EntityId { index, generation: 1 }
    }

    /// Finds the archetype with exactly the given signature.
    fn find_archetype(&self, sig: &Vec<u32>) -> (r: Option<usize>)
        ensures
            match r {
                Some(a) => a < self.archetypes@.len() && self.archetypes@[a as int].sig() == sig@,
                None => forall|a: int|
                    0 <= a < self.archetypes@.len() ==> (#[trigger] self.archetypes@[a]).sig()
                        != sig@,
            },
    {
        let mut a: usize = 0;
        while a < self.archetypes.len()
            invariant
                a <= self.archetypes@.len(),
                forall|k: int| 0 <= k < a ==> (#[trigger] self.archetypes@[k]).sig() != sig@,
            decreases self.archetypes@.len() - a,
        {
            if vec_u32_eq(&self.archetypes[a].signature, sig) {
                return Some(a);
            }
            a = a + 1;
        }
        None
    }

    /// Returns the index of the archetype with the given signature,
    /// creating an empty one if no archetype carries it yet.
    fn ensure_archetype(&mut self, sig: Vec<u32>) -> (a: usize)
        requires
            old(self).wf(),
            strict_sorted(sig@),
        ensures
            final(self).wf(),
            a < final(self).archetypes@.len(),
            final(self).archetypes@[a as int].sig() == sig@,
            old(self).archetypes@.len() <= final(self).archetypes@.len(),
            forall|k: int|
                0 <= k < old(self).archetypes@.len() ==> final(self).archetypes@[k] == old(
                    self,
                ).archetypes@[k],
            a >= old(self).archetypes@.len() ==> final(self).archetypes@.len() == old(
                self,
            ).archetypes@.len() + 1 && final(self).archetypes@[a as int].rows() == 0,
            a < old(self).archetypes@.len() ==> final(self).archetypes@.len() == old(
                self,
            ).archetypes@.len(),
            final(self).slots == old(self).slots,
            final(self).epoch == old(self).epoch,
            final(self).types == old(self).types,
            final(self).resources == old(self).resources,
            all_kept(*old(self), *final(self)),
            borrow_states_kept(*old(self), *final(self)),
    {
        let found = self.find_archetype(&sig);
        match found {
            Some(a) => {
                proof {
                    assert(all_kept(*self, *self));
                    lemma_borrow_states_refl(*old(self), *self);
                }
                a
            },
            None => {
                let a = self.archetypes.len();
                self.archetypes.push(Archetype::empty(sig));
                let n2 = self.archetypes.len();
                proof {
                    assert(self.archetypes@.len() == n2 as nat);
                    let w0 = *old(self);
                    let w1 = *self;
                    assert forall|e2: EntityId| #![auto] true implies entity_view_kept(
                        w0,
                        w1,
                        e2,
                    ) by {
                        assert(w1.alive(e2) == w0.alive(e2));
                        if w0.placed(e2) {
                            assert(w0.arch_of(e2) < w0.archetypes@.len());
                        }
                    }
                    assert(w1.directory_consistent()) by {
                        assert forall|i: int| 0 <= i < w1.slots@.len() implies {
                            let s = #[trigger] w1.slots@[i];
                            s.generation >= 1 && match s.loc {
                                Loc::Vacant => true,
                                Loc::Reserved => s.generation < u32::MAX,
                                Loc::Row(aa, r) => {
                                    &&& s.generation < u32::MAX
                                    &&& (aa as int) < w1.archetypes@.len()
                                    &&& (r as int) < w1.archetypes@[aa as int].entities@.len()
                                    &&& w1.archetypes@[aa as int].entities@[r as int]
                                        == (EntityId { index: i as u32, generation: s.generation })
                                },
                            }
                        } by {
                            assert(w0.slots@[i] == w1.slots@[i]);
                        }
                    }
                    assert(borrow_states_kept(w0, w1)) by {
                        assert forall|k: int| 0 <= k < w0.archetypes@.len() implies {
                            &&& (#[trigger] w1.archetypes@[k]).columns@.len() == w0.archetypes@[
                                k
                            ].columns@.len()
                            &&& forall|c: int|
                                0 <= c < w0.archetypes@[k].columns@.len()
                                    ==> (#[trigger] w1.archetypes@[k].columns@[c]).state
                                    == w0.archetypes@[k].columns@[c].state
                        } by {
                            assert(w1.archetypes@[k] == w0.archetypes@[k]);
                        }
                    }
                }
                a
            },
        }
    }

    /// Appends a row for a reserved entity to an archetype, writing the
    /// given components (one per signature entry, in signature order) and
    /// stamping every cell with the current epoch.
    fn place_row(&mut self, a: usize, e: EntityId, comps: Vec<Component>)
        requires
            old(self).wf(),
            a < old(self).archetypes@.len(),
            comps@.len() == old(self).archetypes@[a as int].sig().len(),
            forall|i: int|
                0 <= i < comps@.len() ==> (#[trigger] comps@[i]).ty == old(self).archetypes@[
                    a as int
                ].sig()[i],
            old(self).alive(e),
            !old(self).placed(e),
        ensures
            final(self).wf(),
            final(self).placed(e),
            final(self).alive(e),
            final(self).arch_of(e) == a as int,
            final(self).row_of(e) == old(self).archetypes@[a as int].rows(),
            forall|ty: u32| #![auto]
                final(self).has_c(e, ty) == old(self).archetypes@[a as int].has_ty(ty),
            forall|i: int| #![auto]
                0 <= i < comps@.len() ==> final(self).has_c(e, comps@[i].ty) && final(self).comp_at(
                    e,
                    comps@[i].ty,
                ) == comps@[i] && final(self).epoch_at(e, comps@[i].ty) == final(self).epoch,
            others_kept(*old(self), *final(self), e),
            final(self).slots@.len() == old(self).slots@.len(),
            final(self).archetypes@.len() == old(self).archetypes@.len(),
            forall|k: int|
                0 <= k < old(self).archetypes@.len() && k != a as int ==> final(self).archetypes@[k]
                    == old(self).archetypes@[k],
            final(self).archetypes@[a as int].sig() == old(self).archetypes@[a as int].sig(),
            final(self).archetypes@[a as int].rows() == old(self).archetypes@[a as int].rows() + 1,
            forall|c: int| #![auto]
                0 <= c < final(self).archetypes@[a as int].columns@.len()
                    ==> final(self).archetypes@[a as int].columns@[c].state
                    == old(self).archetypes@[a as int].columns@[c].state,
            borrow_states_kept(*old(self), *final(self)),
            final(self).epoch == old(self).epoch,
            final(self).types == old(self).types,
            final(self).resources == old(self).resources,
    {
        let ghost w0 = *old(self);
        let ghost comps0 = comps@;
        let row = self.archetypes[a].entities.len();
        let epoch = self.epoch;
        let mut i: usize = 0;
        let ghost sig = self.archetypes@[a as int].sig();
        let ncols = self.archetypes[a].columns.len();
        let mut comps = comps;
        proof {
            assert(self.archetypes@[a as int].wf());
        }
        while i < ncols
            invariant
                i <= ncols,
                a < self.archetypes@.len(),
                ncols == self.archetypes@[a as int].columns@.len(),
                ncols == sig.len(),
                comps0.len() == sig.len(),
                comps@ == comps0.subrange(i as int, sig.len() as int),
                epoch == w0.epoch,
                w0.wf(),
                row == w0.archetypes@[a as int].rows(),
                sig == w0.archetypes@[a as int].sig(),
                self.slots == w0.slots,
                self.epoch == w0.epoch,
                self.types == w0.types,
                self.resources == w0.resources,
                self.archetypes@.len() == w0.archetypes@.len(),
                forall|k: int|
                    0 <= k < w0.archetypes@.len() && k != a as int ==> self.archetypes@[k]
                        == w0.archetypes@[k],
                self.archetypes@[a as int].signature == w0.archetypes@[a as int].signature,
                self.archetypes@[a as int].entities == w0.archetypes@[a as int].entities,
                forall|c: int|
                    i <= c < ncols ==> (#[trigger] self.archetypes@[a as int].columns@[c])
                        == w0.archetypes@[a as int].columns@[c],
                forall|c: int|
                    0 <= c < i ==> {
                        let col = #[trigger] self.archetypes@[a as int].columns@[c];
                        let col0 = w0.archetypes@[a as int].columns@[c];
                        &&& col.ty == col0.ty
                        &&& col.state == col0.state
                        &&& col.values@ == col0.values@.push(comps0[c])
                        &&& col.epochs@ == col0.epochs@.push(epoch)
                        &&& col.max_epoch == epoch
                    },
            decreases ncols - i,
        {
            proof {
                assert(w0.archetypes@[a as int].wf());
                assert(comps@[0] == comps0[i as int]);
            }
            let c = comps.remove(0);
            proof {
                assert(c == comps0[i as int]);
                assert(comps@ =~= comps0.subrange(i + 1 as int, sig.len() as int));
            }
            let col = &mut self.archetypes[a].columns[i];
            col.values.push(c);
            col.epochs.push(epoch);
            col.max_epoch = epoch;
            i = i + 1;
        }
        self.archetypes[a].entities.push(e);
        let nrows = self.archetypes[a].entities.len();
        let idx = e.index as usize;
        let gen = self.slots[idx].generation;
        self.slots.set(idx, Slot { generation: gen, loc: Loc::Row(a, row) });
        proof {
            let w1 = *self;
            assert(w1.archetypes@[a as int].entities@.len() == nrows as nat);
            assert forall|k: int|
                0 <= k < w1.archetypes@.len() implies (#[trigger] w1.archetypes@[k]).entities@.len()
                <= usize::MAX as nat by {
                if k != a as int {
                    assert(w1.archetypes@[k] == w0.archetypes@[k]);
                }
            }
            assert(w1.archetypes@[a as int].wf()) by {
                assert forall|c: int| 0 <= c < w1.archetypes@[a as int].columns@.len() implies {
                    let col = #[trigger] w1.archetypes@[a as int].columns@[c];
                    col.ty == w1.archetypes@[a as int].signature@[c] && col.wf() && col.len()
                        == w1.archetypes@[a as int].rows()
                } by {
                    assert(w0.archetypes@[a as int].columns@[c].wf());
                }
            }
            assert(w1.archetypes_wf()) by {
                assert forall|k: int| 0 <= k < w1.archetypes@.len() implies {
                    let arch = #[trigger] w1.archetypes@[k];
                    arch.wf() && forall|c: int|
                        0 <= c < arch.columns@.len() ==> (#[trigger] arch.columns@[c]).max_epoch
                            <= w1.epoch
                } by {
                    assert(w0.archetypes@[k].wf());
                    if k != a as int {
                        assert(w1.archetypes@[k] == w0.archetypes@[k]);
                    } else {
                        assert(w1.archetypes@[k].wf());
                        assert forall|c: int| 0 <= c < w1.archetypes@[k].columns@.len() implies (
                        #[trigger] w1.archetypes@[k].columns@[c]).max_epoch <= w1.epoch by {
                            assert(w1.archetypes@[k].columns@[c].max_epoch == epoch);
                        }
                    }
                }
            }
            assert(w1.signatures_unique()) by {
                assert forall|a1: int, a2: int|
                    0 <= a1 < w1.archetypes@.len() && 0 <= a2 < w1.archetypes@.len() && a1
                        != a2 implies (#[trigger] w1.archetypes@[a1]).sig() != (
                #[trigger] w1.archetypes@[a2]).sig() by {
                    assert(w1.archetypes@[a1].sig() == w0.archetypes@[a1].sig());
                    assert(w1.archetypes@[a2].sig() == w0.archetypes@[a2].sig());
                }
            }
            assert(w1.directory_consistent()) by {
                assert forall|i2: int| 0 <= i2 < w1.slots@.len() implies {
                    let s = #[trigger] w1.slots@[i2];
                    s.generation >= 1 && match s.loc {
                        Loc::Vacant => true,
                        Loc::Reserved => s.generation < u32::MAX,
                        Loc::Row(aa, r) => {
                            &&& s.generation < u32::MAX
                            &&& (aa as int) < w1.archetypes@.len()
                            &&& (r as int) < w1.archetypes@[aa as int].entities@.len()
                            &&& w1.archetypes@[aa as int].entities@[r as int] == (EntityId {
                                index: i2 as u32,
                                generation: s.generation,
                            })
                        },
                    }
                } by {
                    if i2 == idx as int {
                        assert(w1.slots@[i2].loc == Loc::Row(a, row));
                        assert(w1.archetypes@[a as int].entities@[row as int] == e);
                        assert(e == (EntityId { index: i2 as u32, generation: gen }));
                    } else {
                        assert(w1.slots@[i2] == w0.slots@[i2]);
                        match w0.slots@[i2].loc {
                            Loc::Row(aa, r) => {
                                if aa as int == a as int {
                                    assert(w1.archetypes@[a as int].entities@[r as int]
                                        == w0.archetypes@[a as int].entities@[r as int]);
                                }
                            },
                            _ => {},
                        }
                    }
                }
            }
            assert(w1.rows_backed()) by {
                assert forall|aa: int, r: int|
                    0 <= aa < w1.archetypes@.len() && 0 <= r
                        < w1.archetypes@[aa].entities@.len() implies {
                    let e2 = #[trigger] w1.archetypes@[aa].entities@[r];
                    &&& e2.index < w1.slots@.len()
                    &&& w1.slots@[e2.index as int].generation == e2.generation
                    &&& w1.slots@[e2.index as int].loc == Loc::Row(aa as usize, r as usize)
                } by {
                    if aa == a as int && r == row as int {
                        assert(w1.archetypes@[aa].entities@[r] == e);
                    } else {
                        assert(w1.archetypes@[aa].entities@[r] == w0.archetypes@[aa].entities@[r]);
                        let e2 = w0.archetypes@[aa].entities@[r];
                        assert(w0.slots@[e2.index as int].loc == Loc::Row(
                            aa as usize,
                            r as usize,
                        ));
                        assert(e2.index as int != idx as int);
                    }
                }
            }
            assert(w1.wf());
            assert forall|ty: u32| #![auto] w1.has_c(e, ty) == w0.archetypes@[a as int].has_ty(
                ty,
            ) by {}
            assert forall|j: int| #![auto] 0 <= j < comps0.len() implies w1.has_c(e, comps0[j].ty)
                && w1.comp_at(e, comps0[j].ty) == comps0[j] && w1.epoch_at(e, comps0[j].ty)
                == w1.epoch by {
                assert(sig[j] == comps0[j].ty);
                let c = w1.archetypes@[a as int].col_idx(comps0[j].ty);
                assert(sig.contains(comps0[j].ty));
                assert(sig[c] == comps0[j].ty);
                crate::archetype::lemma_strict_sorted_unique(sig, c, j);
            }
            assert forall|e2: EntityId| #![auto] e2.index != e.index implies entity_view_kept(
                w0,
                w1,
                e2,
            ) by {
                if e2.index < w0.slots@.len() {
                    assert(w1.slots@[e2.index as int] == w0.slots@[e2.index as int]);
                }
                if w0.placed(e2) {
                    let aa = w0.arch_of(e2);
                    let r = w0.row_of(e2);
                    assert(w0.slots@[e2.index as int].loc == Loc::Row(aa as usize, r as usize));
                    if aa == a as int {
                        assert(r < row as int || r == row as int || r > row as int);
                        assert(w0.archetypes@[aa].entities@[r] == (EntityId {
                            index: e2.index,
                            generation: e2.generation,
                        }));
                        assert(r < w0.archetypes@[aa].entities@.len());
                        assert forall|ty: u32| #![auto] w0.has_c(e2, ty) implies w1.comp_at(e2, ty)
                            == w0.comp_at(e2, ty) && w1.epoch_at(e2, ty) == w0.epoch_at(
                            e2,
                            ty,
                        ) by {
                            let c = w0.archetypes@[aa].col_idx(ty);
                            assert(w0.archetypes@[aa].sig().contains(ty));
                            assert(0 <= c < ncols);
                            assert(w0.archetypes@[aa].columns@[c].wf());
                        }
                    }
                }
            }
        }
    }

    /// Takes a placed entity out of its archetype row, returning its
    /// components in signature order. The last row is swapped into the
    /// hole and the displaced entity's directory entry is updated; the
    /// entity itself is left reserved.
    fn remove_row(&mut self, e: EntityId) -> (comps: Vec<Component>)
        requires
            old(self).wf(),
            old(self).placed(e),
        ensures
            final(self).wf(),
            final(self).alive(e),
            !final(self).placed(e),
            comps@.len() == old(self).archetypes@[old(self).arch_of(e)].sig().len(),
            forall|i: int| #![auto]
                0 <= i < comps@.len() ==> comps@[i] == old(self).comp_at(
                    e,
                    old(self).archetypes@[old(self).arch_of(e)].sig()[i],
                ) && comps@[i].ty == old(self).archetypes@[old(self).arch_of(e)].sig()[i],
            others_kept(*old(self), *final(self), e),
            final(self).slots@.len() == old(self).slots@.len(),
            final(self).slots@[e.index as int].generation == e.generation,
            final(self).archetypes@.len() == old(self).archetypes@.len(),
            forall|k: int|
                0 <= k < old(self).archetypes@.len() && k != old(self).arch_of(e)
                    ==> final(self).archetypes@[k] == old(self).archetypes@[k],
            final(self).archetypes@[old(self).arch_of(e)].sig() == old(self).archetypes@[old(
                self,
            ).arch_of(e)].sig(),
            final(self).archetypes@[old(self).arch_of(e)].rows() + 1 == old(self).archetypes@[old(
                self,
            ).arch_of(e)].rows(),
            forall|c: int| #![auto]
                0 <= c < final(self).archetypes@[old(self).arch_of(e)].columns@.len()
                    ==> final(self).archetypes@[old(self).arch_of(e)].columns@[c].state
                    == old(self).archetypes@[old(self).arch_of(e)].columns@[c].state
                    && final(self).archetypes@[old(self).arch_of(e)].columns@[c].max_epoch
                    == old(self).archetypes@[old(self).arch_of(e)].columns@[c].max_epoch,
            borrow_states_kept(*old(self), *final(self)),
            final(self).epoch == old(self).epoch,
            final(self).types == old(self).types,
            final(self).resources == old(self).resources,
    {
        let ghost w0 = *old(self);
        let idx = e.index as usize;
        let (a, r) = match self.slots[idx].loc {
            Loc::Row(a, r) => (a, r),
            _ => {
                proof {
                    assert(false);
                }
                (0, 0)
            },
        };
        let n = self.archetypes[a].entities.len();
        let ncols = self.archetypes[a].columns.len();
        let ghost sig = self.archetypes@[a as int].sig();
        proof {
            assert(self.archetypes@[a as int].wf());
            assert(r < n);
        }
        let mut comps: Vec<Component> = Vec::new();
        let mut c: usize = 0;
        while c < ncols
            invariant
                c <= ncols,
                a < self.archetypes@.len(),
                ncols == self.archetypes@[a as int].columns@.len(),
                ncols == sig.len(),
                r < n,
                w0.wf(),
                w0.placed(e),
                a as int == w0.arch_of(e),
                r as int == w0.row_of(e),
                n == w0.archetypes@[a as int].rows(),
                sig == w0.archetypes@[a as int].sig(),
                self.slots == w0.slots,
                self.epoch == w0.epoch,
                self.types == w0.types,
                self.resources == w0.resources,
                self.archetypes@.len() == w0.archetypes@.len(),
                forall|k: int|
                    0 <= k < w0.archetypes@.len() && k != a as int ==> self.archetypes@[k]
                        == w0.archetypes@[k],
                self.archetypes@[a as int].signature == w0.archetypes@[a as int].signature,
                self.archetypes@[a as int].entities == w0.archetypes@[a as int].entities,
                comps@.len() == c,
                forall|j: int|
                    0 <= j < c ==> (#[trigger] comps@[j]) == w0.archetypes@[a as int].columns@[
                        j
                    ].values@[r as int],
                forall|k: int|
                    c <= k < ncols ==> (#[trigger] self.archetypes@[a as int].columns@[k])
                        == w0.archetypes@[a as int].columns@[k],
                forall|k: int|
                    0 <= k < c ==> {
                        let col = #[trigger] self.archetypes@[a as int].columns@[k];
                        let col0 = w0.archetypes@[a as int].columns@[k];
                        &&& col.ty == col0.ty
                        &&& col.state == col0.state
                        &&& col.max_epoch == col0.max_epoch
                        &&& col.values@ == col0.values@.update(r as int, col0.values@.last(),
                        ).drop_last()
                        &&& col.epochs@ == col0.epochs@.update(r as int, col0.epochs@.last(),
                        ).drop_last()
                    },
            decreases ncols - c,
        {
            proof {
                assert(w0.archetypes@[a as int].columns@[c as int].wf());
            }
            let col = &mut self.archetypes[a].columns[c];
            let v = col.values.swap_remove(r);
            col.epochs.swap_remove(r);
            comps.push(v);
            c = c + 1;
        }
        self.archetypes[a].entities.swap_remove(r);
        let displaced = r + 1 < n;
        if displaced {
            let d = self.archetypes[a].entities[r];
            proof {
                assert(self.archetypes@[a as int].entities@[r as int] == w0.archetypes@[
                    a as int
                ].entities@[n - 1]);
                let dd = w0.archetypes@[a as int].entities@[n - 1];
                assert(w0.slots@[dd.index as int].loc == Loc::Row(a, (n - 1) as usize));
                assert(dd.index as int != idx as int);
            }
            let dgen = self.slots[d.index as usize].generation;
            self.slots.set(d.index as usize, Slot { generation: dgen, loc: Loc::Row(a, r) });
        }
        self.slots.set(idx, Slot { generation: e.generation, loc: Loc::Reserved });
        let archn = self.archetypes.len();
        proof {
            let w1 = *self;
            assert(w1.archetypes@.len() == archn as int);
            let ghost d = w0.archetypes@[a as int].entities@[n - 1];
            assert(w0.slots@[d.index as int].loc == Loc::Row(a, (n - 1) as usize));
            assert(w1.archetypes@[a as int].entities@ == w0.archetypes@[a as int].entities@.update(
                r as int,
                d,
            ).drop_last());
            if displaced {
                assert(d.index as int != idx as int);
                assert(w1.slots@[d.index as int] == (Slot {
                    generation: d.generation,
                    loc: Loc::Row(a, r),
                }));
            } else {
                assert(d == e);
            }
            assert(w1.archetypes@[a as int].wf()) by {
                assert forall|k: int| 0 <= k < w1.archetypes@[a as int].columns@.len() implies {
                    let col = #[trigger] w1.archetypes@[a as int].columns@[k];
                    col.ty == w1.archetypes@[a as int].signature@[k] && col.wf() && col.len()
                        == w1.archetypes@[a as int].rows()
                } by {
                    let col0 = w0.archetypes@[a as int].columns@[k];
                    assert(col0.wf());
                    let col = w1.archetypes@[a as int].columns@[k];
                    assert forall|r2: int| 0 <= r2 < col.values@.len() implies (
                    #[trigger] col.values@[r2]).ty == col.ty by {
                        if r2 == r as int {
                            assert(col.values@[r2] == col0.values@[n - 1]);
                        } else {
                            assert(col.values@[r2] == col0.values@[r2]);
                        }
                    }
                    assert forall|r2: int| 0 <= r2 < col.epochs@.len() implies (
                    #[trigger] col.epochs@[r2]) <= col.max_epoch by {
                        if r2 == r as int {
                            assert(col.epochs@[r2] == col0.epochs@[n - 1]);
                        } else {
                            assert(col.epochs@[r2] == col0.epochs@[r2]);
                        }
                    }
                }
            }
            assert(w1.archetypes_wf()) by {
                assert forall|k: int| 0 <= k < w1.archetypes@.len() implies {
                    let arch = #[trigger] w1.archetypes@[k];
                    arch.wf() && forall|c2: int|
                        0 <= c2 < arch.columns@.len() ==> (#[trigger] arch.columns@[c2]).max_epoch
                            <= w1.epoch
                } by {
                    assert(w0.archetypes@[k].wf());
                    if k != a as int {
                        assert(w1.archetypes@[k] == w0.archetypes@[k]);
                    }
                }
            }
            assert(w1.signatures_unique()) by {
                assert forall|a1: int, a2: int|
                    0 <= a1 < w1.archetypes@.len() && 0 <= a2 < w1.archetypes@.len() && a1
                        != a2 implies (#[trigger] w1.archetypes@[a1]).sig() != (
                #[trigger] w1.archetypes@[a2]).sig() by {
                    assert(w1.archetypes@[a1].sig() == w0.archetypes@[a1].sig());
                    assert(w1.archetypes@[a2].sig() == w0.archetypes@[a2].sig());
                }
            }
            assert(w1.directory_consistent()) by {
                assert forall|i2: int| 0 <= i2 < w1.slots@.len() implies {
                    let s = #[trigger] w1.slots@[i2];
                    s.generation >= 1 && match s.loc {
                        Loc::Vacant => true,
                        Loc::Reserved => s.generation < u32::MAX,
                        Loc::Row(aa, rr) => {
                            &&& s.generation < u32::MAX
                            &&& (aa as int) < w1.archetypes@.len()
                            &&& (rr as int) < w1.archetypes@[aa as int].entities@.len()
                            &&& w1.archetypes@[aa as int].entities@[rr as int] == (EntityId {
                                index: i2 as u32,
                                generation: s.generation,
                            })
                        },
                    }
                } by {
                    if i2 == idx as int {
                        assert(w1.slots@[i2].loc == Loc::Reserved);
                    } else if displaced && i2 == d.index as int {
                        assert(w1.slots@[i2].loc == Loc::Row(a, r));
                        assert(w1.archetypes@[a as int].entities@[r as int] == d);
                        assert(w0.slots@[i2].generation == d.generation);
                    } else {
                        assert(w1.slots@[i2] == w0.slots@[i2]);
                        match w0.slots@[i2].loc {
                            Loc::Row(aa, rr) => {
                                let e2 = w0.archetypes@[aa as int].entities@[rr as int];
                                assert(e2 == (EntityId {
                                    index: i2 as u32,
                                    generation: w0.slots@[i2].generation,
                                }));
                                if aa as int == a as int {
                                    assert(rr as int != r as int);
                                    assert(rr as int != n - 1) by {
                                        if rr as int == n - 1 {
                                            assert(w0.slots@[d.index as int].loc == Loc::Row(
                                                aa,
                                                rr,
                                            ));
                                            assert(i2 == d.index as int);
                                        }
                                    }
                                    assert(w1.archetypes@[a as int].entities@[rr as int]
                                        == w0.archetypes@[a as int].entities@[rr as int]);
                                }
                            },
                            _ => {},
                        }
                    }
                }
            }
            assert(w1.rows_backed()) by {
                assert forall|aa: int, rr: int|
                    0 <= aa < w1.archetypes@.len() && 0 <= rr
                        < w1.archetypes@[aa].entities@.len() implies {
                    let e2 = #[trigger] w1.archetypes@[aa].entities@[rr];
                    &&& e2.index < w1.slots@.len()
                    &&& w1.slots@[e2.index as int].generation == e2.generation
                    &&& w1.slots@[e2.index as int].loc == Loc::Row(aa as usize, rr as usize)
                } by {
                    if aa == a as int && rr == r as int && displaced {
                        assert(w1.archetypes@[aa].entities@[rr] == d);
                    } else {
                        assert(w1.archetypes@[aa].entities@[rr] == w0.archetypes@[aa].entities@[
                            rr
                        ]);
                        let e2 = w0.archetypes@[aa].entities@[rr];
                        assert(w0.slots@[e2.index as int].loc == Loc::Row(aa as usize, rr as usize));
                        assert(aa < archn as int && aa as usize as int == aa);
                        assert(e2.index as int != idx as int) by {
                            if e2.index as int == idx as int {
                                assert(w0.slots@[idx as int].loc == Loc::Row(a, r));
                                assert(aa as usize == a);
                                assert(aa == a as int);
                                assert(rr < w1.archetypes@[a as int].entities@.len());
                                assert(rr <= n);
                                assert(rr as usize as int == rr);
                                assert(rr == r as int);
                                assert(!displaced);
                                assert(r as int == n - 1);
                                assert(rr < w1.archetypes@[aa].entities@.len());
                                assert(w1.archetypes@[aa].entities@.len() == n - 1);
                                assert(false);
                            }
                        }
                        assert(!(displaced && e2.index as int == d.index as int)) by {
                            if displaced && e2.index as int == d.index as int {
                                assert(w0.slots@[d.index as int].loc == Loc::Row(
                                    a,
                                    (n - 1) as usize,
                                ));
                                assert(aa as usize == a);
                                assert(aa == a as int);
                                assert(rr < w1.archetypes@[a as int].entities@.len());
                                assert(rr <= n);
                                assert(rr as usize as int == rr);
                                assert(rr == n - 1);
                                assert(rr < w1.archetypes@[aa].entities@.len());
                                assert(w1.archetypes@[aa].entities@.len() == n - 1);
                                assert(false);
                            }
                        }
                        assert(w1.slots@[e2.index as int] == w0.slots@[e2.index as int]);
                    }
                }
            }
            assert forall|k: int|
                0 <= k < w1.archetypes@.len() implies (#[trigger] w1.archetypes@[k]).entities@.len()
                <= usize::MAX as nat by {
                if k != a as int {
                    assert(w1.archetypes@[k] == w0.archetypes@[k]);
                }
            }
            assert(w1.wf());
            assert(borrow_states_kept(w0, w1)) by {
                assert forall|k: int| 0 <= k < w0.archetypes@.len() implies {
                    &&& (#[trigger] w1.archetypes@[k]).columns@.len() == w0.archetypes@[
                        k
                    ].columns@.len()
                    &&& forall|c2: int|
                        0 <= c2 < w0.archetypes@[k].columns@.len()
                            ==> (#[trigger] w1.archetypes@[k].columns@[c2]).state
                            == w0.archetypes@[k].columns@[c2].state
                } by {
                    assert(w0.archetypes@[k].wf());
                    if k != a as int {
                        assert(w1.archetypes@[k] == w0.archetypes@[k]);
                    }
                }
            }
            assert forall|i: int| #![auto] 0 <= i < comps@.len() implies comps@[i] == w0.comp_at(
                e,
                sig[i],
            ) && comps@[i].ty == sig[i] by {
                assert(comps@[i] == w0.archetypes@[a as int].columns@[i].values@[r as int]);
                assert(sig.contains(sig[i]));
                let ci = w0.archetypes@[a as int].col_idx(sig[i]);
                assert(sig[ci] == sig[i]);
                crate::archetype::lemma_strict_sorted_unique(sig, ci, i);
                assert(w0.archetypes@[a as int].columns@[i].wf());
            }
            assert forall|e2: EntityId| #![auto] e2.index != e.index implies entity_view_kept(
                w0,
                w1,
                e2,
            ) by {
                if e2.index < w0.slots@.len() {
                    if displaced && e2.index as int == d.index as int {
                        assert(w1.slots@[e2.index as int].generation == w0.slots@[
                            e2.index as int
                        ].generation);
                        if e2.generation == d.generation {
                            assert(w0.placed(e2));
                            assert(w0.arch_of(e2) == a as int);
                            assert(w0.row_of(e2) == n - 1);
                            assert(w1.placed(e2));
                            assert(w1.arch_of(e2) == a as int);
                            assert(w1.row_of(e2) == r as int);
                            assert forall|ty: u32| #![auto] w0.has_c(e2, ty) implies w1.comp_at(
                                e2,
                                ty,
                            ) == w0.comp_at(e2, ty) && w1.epoch_at(e2, ty) == w0.epoch_at(
                                e2,
                                ty,
                            ) by {
                                let ci = w0.archetypes@[a as int].col_idx(ty);
                                assert(sig.contains(ty));
                                assert(0 <= ci < ncols);
                                assert(w0.archetypes@[a as int].columns@[ci].wf());
                                assert(w1.archetypes@[a as int].columns@[ci].values@[r as int]
                                    == w0.archetypes@[a as int].columns@[ci].values@[n - 1]);
                            }
                        } else {
                            assert(!w0.alive(e2));
                            assert(!w1.alive(e2));
                        }
                    } else {
                        assert(w1.slots@[e2.index as int] == w0.slots@[e2.index as int]);
                        if w0.placed(e2) {
                            let aa = w0.arch_of(e2);
                            let rr = w0.row_of(e2);
                            assert(w0.slots@[e2.index as int].loc == Loc::Row(
                                aa as usize,
                                rr as usize,
                            ));
                            if aa == a as int {
                                assert(w0.archetypes@[aa].entities@[rr] == (EntityId {
                                    index: e2.index,
                                    generation: e2.generation,
                                }));
                                assert(rr != r as int);
                                assert(rr != n - 1) by {
                                    if rr == n - 1 {
                                        assert(w0.slots@[d.index as int].loc == Loc::Row(
                                            a,
                                            (n - 1) as usize,
                                        ));
                                        assert(e2.index as int == d.index as int);
                                        assert(displaced);
                                    }
                                }
                                assert forall|ty: u32| #![auto] w0.has_c(e2, ty) implies w1.comp_at(
                                    e2,
                                    ty,
                                ) == w0.comp_at(e2, ty) && w1.epoch_at(e2, ty) == w0.epoch_at(
                                    e2,
                                    ty,
                                ) by {
                                    let ci = w0.archetypes@[a as int].col_idx(ty);
                                    assert(sig.contains(ty));
                                    assert(0 <= ci < ncols);
                                    assert(w0.archetypes@[a as int].columns@[ci].wf());
                                    assert(w1.archetypes@[a as int].columns@[ci].values@[rr]
                                        == w0.archetypes@[a as int].columns@[ci].values@[rr]);
                                }
                            }
                        }
                    }
                }
            }
        }
        comps
    }

    /// Overwrites the entity's cell of the given type and stamps it, and
    /// the column maximum, with the current epoch.
    fn write_cell(&mut self, e: EntityId, value: Component)
        requires
            old(self).wf(),
            old(self).has_c(e, value.ty),
        ensures
            final(self).wf(),
            final(self).placed(e),
            final(self).arch_of(e) == old(self).arch_of(e),
            final(self).row_of(e) == old(self).row_of(e),
            forall|ty: u32| #![auto] final(self).has_c(e, ty) == old(self).has_c(e, ty),
            final(self).comp_at(e, value.ty) == value,
            final(self).epoch_at(e, value.ty) == final(self).epoch,
            forall|ty: u32| #![auto]
                old(self).has_c(e, ty) && ty != value.ty ==> final(self).comp_at(e, ty) == old(
                    self,
                ).comp_at(e, ty) && final(self).epoch_at(e, ty) == old(self).epoch_at(e, ty),
            others_kept(*old(self), *final(self), e),
            final(self).slots == old(self).slots,
            final(self).epoch == old(self).epoch,
            final(self).types == old(self).types,
            final(self).resources == old(self).resources,
            final(self).archetypes@.len() == old(self).archetypes@.len(),
            forall|k: int|
                0 <= k < old(self).archetypes@.len() && k != old(self).arch_of(e)
                    ==> final(self).archetypes@[k] == old(self).archetypes@[k],
            final(self).archetypes@[old(self).arch_of(e)].sig() == old(self).archetypes@[old(
                self,
            ).arch_of(e)].sig(),
            final(self).archetypes@[old(self).arch_of(e)].rows() == old(self).archetypes@[old(
                self,
            ).arch_of(e)].rows(),
            forall|c: int| #![auto]
                0 <= c < final(self).archetypes@[old(self).arch_of(e)].columns@.len()
                    ==> final(self).archetypes@[old(self).arch_of(e)].columns@[c].state
                    == old(self).archetypes@[old(self).arch_of(e)].columns@[c].state,
            borrow_states_kept(*old(self), *final(self)),
    {
        let ghost w0 = *old(self);
        let idx = e.index as usize;
        let (a, r) = match self.slots[idx].loc {
            Loc::Row(a, r) => (a, r),
            _ => {
                proof {
                    assert(false);
                }
                (0, 0)
            },
        };
        proof {
            assert(w0.archetypes@[a as int].wf());
            assert(w0.archetypes@[a as int].sig().contains(value.ty));
        }
        let c = match self.archetypes[a].find_col(value.ty) {
            Some(c) => c,
            None => {
                proof {
                    assert(false);
                }
                0
            },
        };
        let epoch = self.epoch;
        let ghost sig = w0.archetypes@[a as int].sig();
        proof {
            assert(w0.archetypes@[a as int].columns@[c as int].wf());
            assert(r < self.archetypes@[a as int].columns@[c as int].values@.len());
        }
        let col = &mut self.archetypes[a].columns[c];
        col.values.set(r, value);
        col.epochs.set(r, epoch);
        col.max_epoch = epoch;
        proof {
            let w1 = *self;
            assert(w1.archetypes@[a as int].wf()) by {
                assert forall|k: int| 0 <= k < w1.archetypes@[a as int].columns@.len() implies {
                    let cl = #[trigger] w1.archetypes@[a as int].columns@[k];
                    cl.ty == w1.archetypes@[a as int].signature@[k] && cl.wf() && cl.len()
                        == w1.archetypes@[a as int].rows()
                } by {
                    assert(w0.archetypes@[a as int].columns@[k].wf());
                    if k == c as int {
                        assert forall|r2: int|
                            0 <= r2 < w1.archetypes@[a as int].columns@[k].epochs@.len() implies (
                        #[trigger] w1.archetypes@[a as int].columns@[k].epochs@[r2])
                            <= w1.archetypes@[a as int].columns@[k].max_epoch by {
                            if r2 != r as int {
                                assert(w1.archetypes@[a as int].columns@[k].epochs@[r2]
                                    == w0.archetypes@[a as int].columns@[k].epochs@[r2]);
                                assert(w0.archetypes@[a as int].columns@[k].max_epoch <= epoch);
                            }
                        }
                    }
                }
            }
            assert(w1.archetypes_wf()) by {
                assert forall|k: int| 0 <= k < w1.archetypes@.len() implies {
                    let arch = #[trigger] w1.archetypes@[k];
                    arch.wf() && forall|c2: int|
                        0 <= c2 < arch.columns@.len() ==> (#[trigger] arch.columns@[c2]).max_epoch
                            <= w1.epoch
                } by {
                    assert(w0.archetypes@[k].wf());
                    if k != a as int {
                        assert(w1.archetypes@[k] == w0.archetypes@[k]);
                    }
                }
            }
            assert(w1.signatures_unique()) by {
                assert forall|a1: int, a2: int|
                    0 <= a1 < w1.archetypes@.len() && 0 <= a2 < w1.archetypes@.len() && a1
                        != a2 implies (#[trigger] w1.archetypes@[a1]).sig() != (
                #[trigger] w1.archetypes@[a2]).sig() by {
                    assert(w1.archetypes@[a1].sig() == w0.archetypes@[a1].sig());
                    assert(w1.archetypes@[a2].sig() == w0.archetypes@[a2].sig());
                }
            }
            assert(w1.directory_consistent()) by {
                assert forall|i2: int| 0 <= i2 < w1.slots@.len() implies {
                    let s = #[trigger] w1.slots@[i2];
                    s.generation >= 1 && match s.loc {
                        Loc::Vacant => true,
                        Loc::Reserved => s.generation < u32::MAX,
                        Loc::Row(aa, rr) => {
                            &&& s.generation < u32::MAX
                            &&& (aa as int) < w1.archetypes@.len()
                            &&& (rr as int) < w1.archetypes@[aa as int].entities@.len()
                            &&& w1.archetypes@[aa as int].entities@[rr as int] == (EntityId {
                                index: i2 as u32,
                                generation: s.generation,
                            })
                        },
                    }
                } by {
                    assert(w1.slots@[i2] == w0.slots@[i2]);
                    match w0.slots@[i2].loc {
                        Loc::Row(aa, rr) => {
                            assert(w1.archetypes@[aa as int].entities@ == w0.archetypes@[
                                aa as int
                            ].entities@);
                        },
                        _ => {},
                    }
                }
            }
            assert(w1.rows_backed()) by {
                assert forall|aa: int, rr: int|
                    0 <= aa < w1.archetypes@.len() && 0 <= rr
                        < w1.archetypes@[aa].entities@.len() implies {
                    let e2 = #[trigger] w1.archetypes@[aa].entities@[rr];
                    &&& e2.index < w1.slots@.len()
                    &&& w1.slots@[e2.index as int].generation == e2.generation
                    &&& w1.slots@[e2.index as int].loc == Loc::Row(aa as usize, rr as usize)
                } by {
                    assert(w1.archetypes@[aa].entities@[rr] == w0.archetypes@[aa].entities@[rr]);
                }
            }
            assert(w1.wf());
            assert(borrow_states_kept(w0, w1)) by {
                assert forall|k: int| 0 <= k < w0.archetypes@.len() implies {
                    &&& (#[trigger] w1.archetypes@[k]).columns@.len() == w0.archetypes@[
                        k
                    ].columns@.len()
                    &&& forall|c2: int|
                        0 <= c2 < w0.archetypes@[k].columns@.len()
                            ==> (#[trigger] w1.archetypes@[k].columns@[c2]).state
                            == w0.archetypes@[k].columns@[c2].state
                } by {
                    assert(w0.archetypes@[k].wf());
                    if k != a as int {
                        assert(w1.archetypes@[k] == w0.archetypes@[k]);
                    }
                }
            }
            assert(w1.comp_at(e, value.ty) == value) by {
                let ci = w1.archetypes@[a as int].col_idx(value.ty);
                crate::archetype::lemma_strict_sorted_unique(sig, ci, c as int);
            }
            assert forall|ty: u32| #![auto] w0.has_c(e, ty) && ty != value.ty implies w1.comp_at(
                e,
                ty,
            ) == w0.comp_at(e, ty) && w1.epoch_at(e, ty) == w0.epoch_at(e, ty) by {
                let ci = w0.archetypes@[a as int].col_idx(ty);
                assert(sig.contains(ty));
                assert(sig[ci] == ty);
                assert(ci != c as int) by {
                    if ci == c as int {
                        assert(sig[c as int] == value.ty);
                    }
                }
                assert(w1.archetypes@[a as int].columns@[ci] == w0.archetypes@[a as int].columns@[
                    ci
                ]);
            }
            assert forall|e2: EntityId| #![auto] e2.index != e.index implies entity_view_kept(
                w0,
                w1,
                e2,
            ) by {
                if e2.index < w0.slots@.len() {
                    assert(w1.slots@[e2.index as int] == w0.slots@[e2.index as int]);
                    if w0.placed(e2) {
                        let aa = w0.arch_of(e2);
                        let rr = w0.row_of(e2);
                        assert(w0.slots@[e2.index as int].loc == Loc::Row(
                            aa as usize,
                            rr as usize,
                        ));
                        if aa == a as int {
                            assert(w0.archetypes@[aa].entities@[rr] == (EntityId {
                                index: e2.index,
                                generation: e2.generation,
                            }));
                            assert(rr != r as int) by {
                                if rr == r as int {
                                    assert(w0.archetypes@[a as int].entities@[r as int] == e);
                                }
                            }
                            assert forall|ty: u32| #![auto] w0.has_c(e2, ty) implies w1.comp_at(
                                e2,
                                ty,
                            ) == w0.comp_at(e2, ty) && w1.epoch_at(e2, ty) == w0.epoch_at(
                                e2,
                                ty,
                            ) by {
                                let ci = w0.archetypes@[a as int].col_idx(ty);
                                assert(sig.contains(ty));
                                assert(0 <= ci < sig.len());
                                if ci == c as int {
                                    assert(w1.archetypes@[a as int].columns@[ci].values@[rr]
                                        == w0.archetypes@[a as int].columns@[ci].values@[rr]);
                                    assert(w1.archetypes@[a as int].columns@[ci].epochs@[rr]
                                        == w0.archetypes@[a as int].columns@[ci].epochs@[rr]);
                                }
                            }
                        }
                    }
                }
            }
        }
    }

    /// Frees a reserved slot: the generation is bumped and the slot is
    /// marked vacant, so every id of this index is dead afterwards.
    fn kill_slot(&mut self, e: EntityId)
        requires
            old(self).wf(),
            old(self).alive(e),
            !old(self).placed(e),
        ensures
            final(self).wf(),
            forall|e2: EntityId| #![auto] e2.index == e.index ==> !final(self).alive(e2),
            others_kept(*old(self), *final(self), e),
            final(self).slots@.len() == old(self).slots@.len(),
            final(self).archetypes == old(self).archetypes,
            final(self).epoch == old(self).epoch,
            final(self).types == old(self).types,
            final(self).resources == old(self).resources,
    {
        let ghost w0 = *old(self);
        let idx = e.index as usize;
        let gen = self.slots[idx].generation;
        self.slots.set(idx, Slot { generation: gen + 1, loc: Loc::Vacant });
        proof {
            let w1 = *self;
            assert(w1.directory_consistent()) by {
                assert forall|i2: int| 0 <= i2 < w1.slots@.len() implies {
                    let s = #[trigger] w1.slots@[i2];
                    s.generation >= 1 && match s.loc {
                        Loc::Vacant => true,
                        Loc::Reserved => s.generation < u32::MAX,
                        Loc::Row(aa, rr) => {
                            &&& s.generation < u32::MAX
                            &&& (aa as int) < w1.archetypes@.len()
                            &&& (rr as int) < w1.archetypes@[aa as int].entities@.len()
                            &&& w1.archetypes@[aa as int].entities@[rr as int] == (EntityId {
                                index: i2 as u32,
                                generation: s.generation,
                            })
                        },
                    }
                } by {
                    if i2 != idx as int {
                        assert(w1.slots@[i2] == w0.slots@[i2]);
                    }
                }
            }
            assert(w1.rows_backed()) by {
                assert forall|aa: int, rr: int|
                    0 <= aa < w1.archetypes@.len() && 0 <= rr
                        < w1.archetypes@[aa].entities@.len() implies {
                    let e2 = #[trigger] w1.archetypes@[aa].entities@[rr];
                    &&& e2.index < w1.slots@.len()
                    &&& w1.slots@[e2.index as int].generation == e2.generation
                    &&& w1.slots@[e2.index as int].loc == Loc::Row(aa as usize, rr as usize)
                } by {
                    let e2 = w0.archetypes@[aa].entities@[rr];
                    assert(w0.slots@[e2.index as int].loc == Loc::Row(aa as usize, rr as usize));
                    assert(e2.index as int != idx as int);
                    assert(w1.slots@[e2.index as int] == w0.slots@[e2.index as int]);
                }
            }
            assert(w1.wf());
            assert forall|e2: EntityId| #![auto] e2.index != e.index implies entity_view_kept(
                w0,
                w1,
                e2,
            ) by {
                if e2.index < w0.slots@.len() {
                    assert(w1.slots@[e2.index as int] == w0.slots@[e2.index as int]);
                }
            }
        }
    }

    /// Moves a live entity to the archetype that carries its old types
    /// plus the added bundle's types, writing the added components (which
    /// replace old ones of the same type) and re-stamping every retained
    /// cell with the current epoch. A reserved entity is materialized.
    fn migrate_add(&mut self, e: EntityId, adds: Vec<Component>)
        requires
            old(self).wf(),
            old(self).alive(e),
            distinct_tys(adds@),
        ensures
            final(self).wf(),
            final(self).placed(e),
            forall|ty: u32| #![trigger final(self).has_c(e, ty)] #![trigger old(self).has_c(e, ty)]
                final(self).has_c(e, ty) == (old(self).has_c(e, ty) || has_ty_in(adds@, ty)),
            forall|i: int| #![auto]
                0 <= i < adds@.len() ==> final(self).comp_at(e, adds@[i].ty) == adds@[i]
                    && final(self).epoch_at(e, adds@[i].ty) == final(self).epoch,
            forall|ty: u32| #![trigger final(self).comp_at(e, ty)] #![trigger old(self).comp_at(e, ty)]
                old(self).has_c(e, ty) && !has_ty_in(adds@, ty) ==> final(self).comp_at(e, ty)
                    == old(self).comp_at(e, ty) && final(self).epoch_at(e, ty) == final(self).epoch,
            others_kept(*old(self), *final(self), e),
            borrow_states_kept(*old(self), *final(self)),
            old(self).archetypes@.len() <= final(self).archetypes@.len(),
            final(self).archetypes@.len() <= old(self).archetypes@.len() + 1,
            final(self).epoch == old(self).epoch,
            final(self).slots@.len() == old(self).slots@.len(),
            final(self).types == old(self).types,
            final(self).resources == old(self).resources,
    {
        let ghost w0 = *old(self);
        let placed_now = match self.slots[e.index as usize].loc {
            Loc::Row(_, _) => true,
            _ => false,
        };
        let ghost sig_old: Seq<u32> = if w0.placed(e) {
            w0.archetypes@[w0.arch_of(e)].sig()
        } else {
            Seq::empty()
        };
        let olds: Vec<Component> = if placed_now {
            self.remove_row(e)
        } else {
            Vec::new()
        };
        let ghost wmid = *self;
        proof {
            assert(wmid.alive(e) && !wmid.placed(e));
            assert(olds@.len() == sig_old.len());
            assert forall|i: int| #![auto] 0 <= i < olds@.len() implies olds@[i].ty == sig_old[i]
                && olds@[i] == w0.comp_at(e, sig_old[i]) by {}
            assert(distinct_tys(olds@)) by {
                if w0.placed(e) {
                    assert(strict_sorted(sig_old));
                }
            }
            assert forall|ty: u32| w0.has_c(e, ty) == has_ty_in(olds@, ty) by {
                if w0.has_c(e, ty) {
                    let c = sig_old.index_of(ty);
                    assert(sig_old.contains(ty));
                    assert(sig_old[c] == ty);
                    assert(olds@[c].ty == ty);
                }
                if has_ty_in(olds@, ty) {
                    let i = choose|i: int| 0 <= i < olds@.len() && (#[trigger] olds@[i]).ty == ty;
                    assert(sig_old[i] == ty);
                    assert(sig_old.contains(ty));
                }
            }
        }
        let mut combined: Vec<Component> = Vec::new();
        let mut i: usize = 0;
        while i < olds.len()
            invariant
                i <= olds@.len(),
                distinct_tys(olds@),
                distinct_tys(combined@),
                forall|k: int|
                    0 <= k < combined@.len() ==> olds@.take(i as int).contains(
                        #[trigger] combined@[k],
                    ) && !has_ty_in(adds@, combined@[k].ty),
                forall|j: int|
                    0 <= j < i && !has_ty_in(adds@, (#[trigger] olds@[j]).ty) ==> has_ty_in(
                        combined@,
                        olds@[j].ty,
                    ),
            decreases olds@.len() - i,
        {
            let skip = has_ty_at(&adds, olds[i].ty);
            if skip.is_none() {
                proof {
                    assert(!has_ty_in(combined@, olds@[i as int].ty)) by {
                        if has_ty_in(combined@, olds@[i as int].ty) {
                            let k = choose|k: int|
                                0 <= k < combined@.len() && (#[trigger] combined@[k]).ty == olds@[
                                    i as int
                                ].ty;
                            let j = choose|j: int|
                                0 <= j < olds@.take(i as int).len() && olds@.take(i as int)[j]
                                    == combined@[k];
                            assert(olds@[j].ty == olds@[i as int].ty);
                        }
                    }
                }
                let ghost comb0 = combined@;
                combined.push(olds[i].duplicate());
                proof {
                    assert forall|k: int|
                        0 <= k < combined@.len() implies olds@.take(i + 1 as int).contains(
                        #[trigger] combined@[k],
                    ) && !has_ty_in(adds@, combined@[k].ty) by {
                        if k < comb0.len() {
                            assert(combined@[k] == comb0[k]);
                            let j = choose|j: int|
                                0 <= j < olds@.take(i as int).len() && olds@.take(i as int)[j]
                                    == comb0[k];
                            assert(olds@.take(i + 1 as int)[j] == comb0[k]);
                        } else {
                            assert(combined@[k] == olds@[i as int]);
                            assert(olds@.take(i + 1 as int)[i as int] == olds@[i as int]);
                        }
                    }
                    assert forall|j2: int|
                        0 <= j2 < i + 1 && !has_ty_in(adds@, (#[trigger] olds@[j2]).ty) implies has_ty_in(
                        combined@,
                        olds@[j2].ty,
                    ) by {
                        if j2 < i {
                            let k = choose|k: int|
                                0 <= k < comb0.len() && (#[trigger] comb0[k]).ty == olds@[j2].ty;
                            assert(combined@[k].ty == olds@[j2].ty);
                        } else {
                            assert(combined@[comb0.len() as int].ty == olds@[i as int].ty);
                        }
                    }
                }
            } else {
                proof {
                    assert forall|j2: int|
                        0 <= j2 < i + 1 && !has_ty_in(adds@, (#[trigger] olds@[j2]).ty) implies has_ty_in(
                        combined@,
                        olds@[j2].ty,
                    ) by {
                        assert(j2 != i as int);
                    }
                }
            }
            i = i + 1;
        }
        let fl = combined.len();
        let ghost filtered = combined@;
        let mut j: usize = 0;
        while j < adds.len()
            invariant
                j <= adds@.len(),
                fl == filtered.len(),
                distinct_tys(adds@),
                distinct_tys(filtered),
                combined@.len() == fl + j,
                combined@.take(fl as int) == filtered,
                forall|k: int|
                    0 <= k < fl ==> olds@.contains(#[trigger] filtered[k]) && !has_ty_in(
                        adds@,
                        filtered[k].ty,
                    ),
                forall|k: int|
                    fl <= k < combined@.len() ==> (#[trigger] combined@[k]) == adds@[k - fl],
                distinct_tys(combined@),
            decreases adds@.len() - j,
        {
            let ghost comb0 = combined@;
            combined.push(adds[j].duplicate());
            proof {
                assert(combined@.take(fl as int) =~= filtered);
                assert(distinct_tys(combined@)) by {
                    assert forall|k1: int, k2: int|
                        0 <= k1 < k2 < combined@.len() implies (#[trigger] combined@[k1]).ty != (
                    #[trigger] combined@[k2]).ty by {
                        if k2 == combined@.len() - 1 {
                            assert(combined@[k2] == adds@[j as int]);
                            if k1 < fl {
                                assert(combined@[k1] == filtered[k1]);
                                assert(!has_ty_in(adds@, filtered[k1].ty));
                            } else {
                                assert(combined@[k1] == adds@[k1 - fl]);
                            }
                        } else {
                            assert(combined@[k1] == comb0[k1] && combined@[k2] == comb0[k2]);
                        }
                    }
                }
            }
            j = j + 1;
        }
        proof {
            assert forall|ty: u32|
                has_ty_in(combined@, ty) == (w0.has_c(e, ty) || has_ty_in(adds@, ty)) by {
                if has_ty_in(combined@, ty) {
                    let k = choose|k: int|
                        0 <= k < combined@.len() && (#[trigger] combined@[k]).ty == ty;
                    if k < fl {
                        assert(combined@[k] == filtered[k]);
                        assert(olds@.contains(filtered[k]));
                        let i2 = choose|i2: int|
                            0 <= i2 < olds@.len() && olds@[i2] == filtered[k];
                        assert(olds@[i2].ty == ty);
                        assert(has_ty_in(olds@, ty));
                    } else {
                        assert(combined@[k] == adds@[k - fl]);
                        assert(has_ty_in(adds@, ty));
                    }
                }
                if w0.has_c(e, ty) && !has_ty_in(adds@, ty) {
                    assert(has_ty_in(olds@, ty));
                    let i2 = choose|i2: int| 0 <= i2 < olds@.len() && (#[trigger] olds@[i2]).ty == ty;
                    assert(has_ty_in(filtered, olds@[i2].ty));
                    let k = choose|k: int|
                        0 <= k < filtered.len() && (#[trigger] filtered[k]).ty == olds@[i2].ty;
                    assert(combined@.take(fl as int)[k] == filtered[k]);
                    assert(combined@[k].ty == ty);
                    assert(has_ty_in(combined@, ty));
                }
                if has_ty_in(adds@, ty) {
                    let j2 = choose|j2: int| 0 <= j2 < adds@.len() && (#[trigger] adds@[j2]).ty == ty;
                    assert(combined@[fl + j2] == adds@[j2]);
                    assert(has_ty_in(combined@, ty));
                }
            }
        }
        let sigv = bundle_signature(&combined);
        let comps = arrange(&combined, &sigv);
        let ghost sigs = sigv@;
        let a = self.ensure_archetype(sigv);
        let ghost wmid2 = *self;
        proof {
            assert(wmid2.alive(e) && !wmid2.placed(e)) by {
                assert(entity_view_kept(wmid, wmid2, e));
            }
        }
        self.place_row(a, e, comps);
        proof {
            let w1 = *self;
            let ghost comps_s = comps@;
            assert forall|ty: u32| #![auto] w1.has_c(e, ty) == (w0.has_c(e, ty) || has_ty_in(
                adds@,
                ty,
            )) by {
                assert(w1.has_c(e, ty) == wmid2.archetypes@[a as int].has_ty(ty));
                assert(wmid2.archetypes@[a as int].sig() == sigs);
                assert(sigs.contains(ty) == has_ty_in(combined@, ty));
            }
            assert forall|i2: int| #![auto] 0 <= i2 < adds@.len() implies w1.comp_at(
                e,
                adds@[i2].ty,
            ) == adds@[i2] && w1.epoch_at(e, adds@[i2].ty) == w1.epoch by {
                let ty = adds@[i2].ty;
                assert(has_ty_in(combined@, ty));
                assert(sigs.contains(ty));
                let c = sigs.index_of(ty);
                assert(sigs[c] == ty);
                assert(comps_s[c].ty == ty);
                assert(w1.comp_at(e, comps_s[c].ty) == comps_s[c] && w1.epoch_at(
                    e,
                    comps_s[c].ty,
                ) == w1.epoch);
                assert(combined@.contains(comps_s[c]));
                let k = choose|k: int| 0 <= k < combined@.len() && combined@[k] == comps_s[c];
                assert(comps_s[c] == adds@[i2]) by {
                    if k < fl {
                        assert(combined@[k] == filtered[k]);
                        assert(!has_ty_in(adds@, filtered[k].ty));
                        assert(adds@[i2].ty == filtered[k].ty);
                        assert(false);
                    } else {
                        assert(combined@[k] == adds@[k - fl]);
                        if k - fl != i2 {
                            assert(adds@[k - fl].ty != adds@[i2].ty);
                            assert(false);
                        }
                    }
                }
            }
            assert forall|ty: u32| #![auto]
                w0.has_c(e, ty) && !has_ty_in(adds@, ty) implies w1.comp_at(e, ty) == w0.comp_at(
                e,
                ty,
            ) && w1.epoch_at(e, ty) == w1.epoch by {
                assert(has_ty_in(combined@, ty));
                assert(sigs.contains(ty));
                let c = sigs.index_of(ty);
                assert(sigs[c] == ty);
                assert(comps_s[c].ty == ty);
                assert(w1.comp_at(e, comps_s[c].ty) == comps_s[c] && w1.epoch_at(
                    e,
                    comps_s[c].ty,
                ) == w1.epoch);
                assert(combined@.contains(comps_s[c]));
                let k = choose|k: int| 0 <= k < combined@.len() && combined@[k] == comps_s[c];
                assert(comps_s[c] == w0.comp_at(e, ty)) by {
                    if k < fl {
                        assert(combined@[k] == filtered[k]);
                        assert(olds@.contains(filtered[k]));
                        let i2 = choose|i2: int|
                            0 <= i2 < olds@.len() && olds@[i2] == filtered[k];
                        assert(olds@[i2].ty == ty);
                        assert(olds@[i2] == w0.comp_at(e, sig_old[i2]));
                        assert(sig_old[i2] == ty);
                    } else {
                        assert(combined@[k] == adds@[k - fl]);
                        assert(has_ty_in(adds@, ty));
                        assert(false);
                    }
                }
            }
            assert forall|e2: EntityId| #![auto] e2.index != e.index implies entity_view_kept(
                w0,
                w1,
                e2,
            ) by {
                assert(entity_view_kept(w0, wmid, e2));
                assert(entity_view_kept(wmid, wmid2, e2));
                assert(entity_view_kept(wmid2, w1, e2));
            }
            assert(borrow_states_kept(w0, wmid)) by {
                if !w0.placed(e) {
                    lemma_borrow_states_refl(w0, wmid);
                }
            }
            lemma_borrow_states_trans(w0, wmid, wmid2);
            lemma_borrow_states_trans(w0, wmid2, w1);
        }
    }

    /// Moves a placed entity to the archetype that carries its old types
    /// minus the dropped ones, re-stamping every retained cell with the
    /// current epoch. The ejected components are returned; dropped types
    /// the entity does not carry are ignored.
    fn migrate_drop(&mut self, e: EntityId, drops: &Vec<u32>) -> (dropped: Vec<Component>)
        requires
            old(self).wf(),
            old(self).placed(e),
        ensures
            final(self).wf(),
            final(self).placed(e),
            forall|ty: u32| #![trigger final(self).has_c(e, ty)] #![trigger old(self).has_c(e, ty)]
                final(self).has_c(e, ty) == (old(self).has_c(e, ty) && !drops@.contains(ty)),
            forall|ty: u32| #![trigger final(self).comp_at(e, ty)] #![trigger old(self).comp_at(e, ty)]
                old(self).has_c(e, ty) && !drops@.contains(ty) ==> final(self).comp_at(e, ty)
                    == old(self).comp_at(e, ty) && final(self).epoch_at(e, ty) == final(self).epoch,
            forall|i: int| #![auto]
                0 <= i < dropped@.len() ==> drops@.contains(dropped@[i].ty) && old(self).has_c(
                    e,
                    dropped@[i].ty,
                ) && dropped@[i] == old(self).comp_at(e, dropped@[i].ty),
            forall|ty: u32| #![auto]
                old(self).has_c(e, ty) && drops@.contains(ty) ==> has_ty_in(dropped@, ty),
            others_kept(*old(self), *final(self), e),
            borrow_states_kept(*old(self), *final(self)),
            old(self).archetypes@.len() <= final(self).archetypes@.len(),
            final(self).archetypes@.len() <= old(self).archetypes@.len() + 1,
            final(self).epoch == old(self).epoch,
            final(self).slots@.len() == old(self).slots@.len(),
            final(self).types == old(self).types,
            final(self).resources == old(self).resources,
    {
        let ghost w0 = *old(self);
        let ghost sig_old: Seq<u32> = w0.archetypes@[w0.arch_of(e)].sig();
        let olds: Vec<Component> = self.remove_row(e);
        let ghost wmid = *self;
        proof {
            assert(wmid.alive(e) && !wmid.placed(e));
            assert(olds@.len() == sig_old.len());
            assert(distinct_tys(olds@)) by {
                assert(strict_sorted(sig_old));
            }
            assert forall|ty: u32| w0.has_c(e, ty) == has_ty_in(olds@, ty) by {
                if w0.has_c(e, ty) {
                    let c = sig_old.index_of(ty);
                    assert(sig_old.contains(ty));
                    assert(sig_old[c] == ty);
                    assert(olds@[c].ty == ty);
                }
                if has_ty_in(olds@, ty) {
                    let i = choose|i: int| 0 <= i < olds@.len() && (#[trigger] olds@[i]).ty == ty;
                    assert(sig_old[i] == ty);
                    assert(sig_old.contains(ty));
                }
            }
        }
        let mut kept: Vec<Component> = Vec::new();
        let mut dropped: Vec<Component> = Vec::new();
        let mut i: usize = 0;
        while i < olds.len()
            invariant
                i <= olds@.len(),
                distinct_tys(olds@),
                distinct_tys(kept@),
                forall|k: int|
                    0 <= k < kept@.len() ==> olds@.take(i as int).contains(#[trigger] kept@[k])
                        && !drops@.contains(kept@[k].ty),
                forall|j: int|
                    0 <= j < i && !drops@.contains((#[trigger] olds@[j]).ty) ==> has_ty_in(
                        kept@,
                        olds@[j].ty,
                    ),
                forall|k: int|
                    0 <= k < dropped@.len() ==> olds@.take(i as int).contains(
                        #[trigger] dropped@[k],
                    ) && drops@.contains(dropped@[k].ty),
                forall|j: int|
                    0 <= j < i && drops@.contains((#[trigger] olds@[j]).ty) ==> has_ty_in(
                        dropped@,
                        olds@[j].ty,
                    ),
            decreases olds@.len() - i,
        {
            let is_dropped = u32_in(drops, olds[i].ty);
            let ghost kept0 = kept@;
            let ghost dropped0 = dropped@;
            if is_dropped {
                dropped.push(olds[i].duplicate());
            } else {
                proof {
                    assert(!has_ty_in(kept@, olds@[i as int].ty)) by {
                        if has_ty_in(kept@, olds@[i as int].ty) {
                            let k = choose|k: int|
                                0 <= k < kept@.len() && (#[trigger] kept@[k]).ty == olds@[
                                    i as int
                                ].ty;
                            let j = choose|j: int|
                                0 <= j < olds@.take(i as int).len() && olds@.take(i as int)[j]
                                    == kept@[k];
                            assert(olds@[j].ty == olds@[i as int].ty);
                        }
                    }
                }
                kept.push(olds[i].duplicate());
            }
            proof {
                assert forall|k: int|
                    0 <= k < kept@.len() implies olds@.take(i + 1 as int).contains(
                    #[trigger] kept@[k],
                ) && !drops@.contains(kept@[k].ty) by {
                    if k < kept0.len() {
                        assert(kept@[k] == kept0[k]);
                        let j = choose|j: int|
                            0 <= j < olds@.take(i as int).len() && olds@.take(i as int)[j]
                                == kept0[k];
                        assert(olds@.take(i + 1 as int)[j] == kept0[k]);
                    } else {
                        assert(kept@[k] == olds@[i as int]);
                        assert(olds@.take(i + 1 as int)[i as int] == olds@[i as int]);
                    }
                }
                assert forall|k: int|
                    0 <= k < dropped@.len() implies olds@.take(i + 1 as int).contains(
                    #[trigger] dropped@[k],
                ) && drops@.contains(dropped@[k].ty) by {
                    if k < dropped0.len() {
                        assert(dropped@[k] == dropped0[k]);
                        let j = choose|j: int|
                            0 <= j < olds@.take(i as int).len() && olds@.take(i as int)[j]
                                == dropped0[k];
                        assert(olds@.take(i + 1 as int)[j] == dropped0[k]);
                    } else {
                        assert(dropped@[k] == olds@[i as int]);
                        assert(olds@.take(i + 1 as int)[i as int] == olds@[i as int]);
                    }
                }
                assert forall|j2: int|
                    0 <= j2 < i + 1 && !drops@.contains((#[trigger] olds@[j2]).ty) implies has_ty_in(
                    kept@,
                    olds@[j2].ty,
                ) by {
                    if j2 < i {
                        let k = choose|k: int|
                            0 <= k < kept0.len() && (#[trigger] kept0[k]).ty == olds@[j2].ty;
                        assert(kept@[k].ty == olds@[j2].ty);
                    } else {
                        assert(kept@[kept0.len() as int].ty == olds@[i as int].ty);
                    }
                }
                assert forall|j2: int|
                    0 <= j2 < i + 1 && drops@.contains((#[trigger] olds@[j2]).ty) implies has_ty_in(
                    dropped@,
                    olds@[j2].ty,
                ) by {
                    if j2 < i {
                        let k = choose|k: int|
                            0 <= k < dropped0.len() && (#[trigger] dropped0[k]).ty == olds@[
                                j2
                            ].ty;
                        assert(dropped@[k].ty == olds@[j2].ty);
                    } else {
                        assert(dropped@[dropped0.len() as int].ty == olds@[i as int].ty);
                    }
                }
            }
            i = i + 1;
        }
        proof {
            assert(olds@.take(olds@.len() as int) =~= olds@);
        }
        let sigv = bundle_signature(&kept);
        let comps = arrange(&kept, &sigv);
        let ghost sigs = sigv@;
        let a = self.ensure_archetype(sigv);
        let ghost wmid2 = *self;
        proof {
            assert(wmid2.alive(e) && !wmid2.placed(e)) by {
                assert(entity_view_kept(wmid, wmid2, e));
            }
        }
        self.place_row(a, e, comps);
        proof {
            let w1 = *self;
            let ghost comps_s = comps@;
            assert forall|ty: u32| #![auto] w1.has_c(e, ty) == (w0.has_c(e, ty) && !drops@.contains(
                ty,
            )) by {
                assert(w1.has_c(e, ty) == wmid2.archetypes@[a as int].has_ty(ty));
                assert(wmid2.archetypes@[a as int].sig() == sigs);
                assert(sigs.contains(ty) == has_ty_in(kept@, ty));
                if has_ty_in(kept@, ty) {
                    let k = choose|k: int| 0 <= k < kept@.len() && (#[trigger] kept@[k]).ty == ty;
                    assert(olds@.contains(kept@[k]));
                    let i2 = choose|i2: int| 0 <= i2 < olds@.len() && olds@[i2] == kept@[k];
                    assert(olds@[i2].ty == ty);
                    assert(has_ty_in(olds@, ty));
                }
                if w0.has_c(e, ty) && !drops@.contains(ty) {
                    assert(has_ty_in(olds@, ty));
                    let i2 = choose|i2: int|
                        0 <= i2 < olds@.len() && (#[trigger] olds@[i2]).ty == ty;
                    assert(has_ty_in(kept@, olds@[i2].ty));
                }
            }
            assert forall|ty: u32| #![auto]
                w0.has_c(e, ty) && !drops@.contains(ty) implies w1.comp_at(e, ty) == w0.comp_at(
                e,
                ty,
            ) && w1.epoch_at(e, ty) == w1.epoch by {
                assert(has_ty_in(olds@, ty));
                let i2 = choose|i2: int| 0 <= i2 < olds@.len() && (#[trigger] olds@[i2]).ty == ty;
                assert(has_ty_in(kept@, olds@[i2].ty));
                assert(sigs.contains(ty));
                let c = sigs.index_of(ty);
                assert(sigs[c] == ty);
                assert(comps_s[c].ty == ty);
                assert(w1.comp_at(e, comps_s[c].ty) == comps_s[c] && w1.epoch_at(
                    e,
                    comps_s[c].ty,
                ) == w1.epoch);
                assert(kept@.contains(comps_s[c]));
                let k = choose|k: int| 0 <= k < kept@.len() && kept@[k] == comps_s[c];
                assert(olds@.contains(kept@[k]));
                let i3 = choose|i3: int| 0 <= i3 < olds@.len() && olds@[i3] == kept@[k];
                assert(olds@[i3].ty == ty);
                assert(olds@[i3] == w0.comp_at(e, sig_old[i3]));
                assert(sig_old[i3] == ty);
            }
            assert forall|i2: int| #![auto] 0 <= i2 < dropped@.len() implies drops@.contains(
                dropped@[i2].ty,
            ) && w0.has_c(e, dropped@[i2].ty) && dropped@[i2] == w0.comp_at(
                e,
                dropped@[i2].ty,
            ) by {
                assert(olds@.contains(dropped@[i2]));
                let i3 = choose|i3: int| 0 <= i3 < olds@.len() && olds@[i3] == dropped@[i2];
                assert(olds@[i3] == w0.comp_at(e, sig_old[i3]));
                assert(sig_old[i3] == dropped@[i2].ty);
                assert(sig_old.contains(sig_old[i3]));
            }
            assert forall|ty: u32| #![auto]
                w0.has_c(e, ty) && drops@.contains(ty) implies has_ty_in(dropped@, ty) by {
                assert(has_ty_in(olds@, ty));
                let i2 = choose|i2: int| 0 <= i2 < olds@.len() && (#[trigger] olds@[i2]).ty == ty;
                assert(has_ty_in(dropped@, olds@[i2].ty));
            }
            assert forall|e2: EntityId| #![auto] e2.index != e.index implies entity_view_kept(
                w0,
                w1,
                e2,
            ) by {
                assert(entity_view_kept(w0, wmid, e2));
                assert(entity_view_kept(wmid, wmid2, e2));
                assert(entity_view_kept(wmid2, w1, e2));
            }
            lemma_borrow_states_trans(w0, wmid, wmid2);
            lemma_borrow_states_trans(w0, wmid2, w1);
        }
        dropped
    }

    /// Spawns a new entity carrying the bundle. The bundle is a set: no
    /// two of its components may share a type.
    pub fn spawn(&mut self, bundle: Vec<Component>) -> (e: EntityId)
        requires
            old(self).wf(),
            distinct_tys(bundle@),
            old(self).slots@.len() < u32::MAX as nat,
            old(self).epoch < u64::MAX,
        ensures
            final(self).wf(),
            borrow_states_kept(*old(self), *final(self)),
            old(self).archetypes@.len() <= final(self).archetypes@.len(),
            final(self).archetypes@.len() <= old(self).archetypes@.len() + 1,
            final(self).epoch == old(self).epoch + 1,
            !old(self).alive(e),
            final(self).alive(e),
            final(self).placed(e),
            e.index == old(self).slots@.len(),
            final(self).slots@.len() == old(self).slots@.len() + 1,
            e.generation == 1,
            forall|ty: u32| #![auto] final(self).has_c(e, ty) == has_ty_in(bundle@, ty),
            forall|i: int| #![auto]
                0 <= i < bundle@.len() ==> final(self).comp_at(e, bundle@[i].ty) == bundle@[i]
                    && final(self).epoch_at(e, bundle@[i].ty) == final(self).epoch,
            others_kept(*old(self), *final(self), e),
            forall|i: int|
                0 <= i < bundle@.len() ==> final(self).registered((#[trigger] bundle@[i]).ty),
            forall|t2: u32| #![auto] old(self).registered(t2) ==> final(self).registered(t2),
            final(self).resources == old(self).resources,
    {
        self.register_bundle(&bundle);
        let ghost wreg = *self;
        proof {
            assert forall|e2: EntityId| #![auto] true implies entity_view_kept(
                *old(self),
                wreg,
                e2,
            ) by {}
        }
        let e = self.allocate();
        let ghost walloc = *self;
        self.bump_epoch();
        let ghost wmid = *self;
        proof {
            assert(entity_view_kept(walloc, wmid, e));
        }
        self.migrate_add(e, bundle);
        proof {
            assert forall|e2: EntityId| #![auto] e2.index != e.index implies entity_view_kept(
                *old(self),
                *self,
                e2,
            ) by {
                assert(entity_view_kept(*old(self), wreg, e2));
                assert(entity_view_kept(wreg, walloc, e2));
                assert(entity_view_kept(walloc, wmid, e2));
                assert(entity_view_kept(wmid, *self, e2));
            }
        }
        e
    }

    /// Despawns the entity: its components are dropped, the slot's
    /// generation is bumped and every id of this index is dead.
    pub fn despawn(&mut self, e: EntityId) -> (r: Result<(), EntityError>)
        requires
            old(self).wf(),
            old(self).epoch < u64::MAX,
        ensures
            final(self).wf(),
            borrow_states_kept(*old(self), *final(self)),
            final(self).archetypes@.len() == old(self).archetypes@.len() || *final(self) == *old(self),
            r is Ok <==> old(self).alive(e),
            r is Err ==> r == Result::<(), EntityError>::Err(EntityError::NoSuchEntity) && *final(self) == *old(self),
            r is Ok ==> {
                &&& forall|e2: EntityId| #![auto] e2.index == e.index ==> !final(self).alive(e2)
                &&& others_kept(*old(self), *final(self), e)
                &&& final(self).epoch == old(self).epoch + 1
                &&& final(self).slots@.len() == old(self).slots@.len()
                &&& final(self).types == old(self).types
                &&& final(self).resources == old(self).resources
            },
    {
        if !self.is_alive(e) {
            return Err(EntityError::NoSuchEntity);
        }
        self.bump_epoch();
        let ghost w1 = *self;
        proof {
            assert(entity_view_kept(*old(self), w1, e));
        }
        let placed_now = match self.slots[e.index as usize].loc {
            Loc::Row(_, _) => true,
            _ => false,
        };
        if placed_now {
            let _dropped = self.remove_row(e);
        }
        let ghost w2 = *self;
        self.kill_slot(e);
        proof {
            assert forall|e2: EntityId| #![auto] e2.index != e.index implies entity_view_kept(
                *old(self),
                *self,
                e2,
            ) by {
                assert(entity_view_kept(*old(self), w1, e2));
                assert(entity_view_kept(w1, w2, e2));
                assert(entity_view_kept(w2, *self, e2));
            }
        }
        Ok(())
    }

    /// Despawns the entity if it is live; despawning a dead entity is a
    /// no-op that leaves the world exactly as it was. Deferred actions
    /// use this form.
    pub fn despawn_deferred(&mut self, e: EntityId)
        requires
            old(self).wf(),
            old(self).epoch < u64::MAX,
        ensures
            final(self).wf(),
            borrow_states_kept(*old(self), *final(self)),
            final(self).archetypes@.len() == old(self).archetypes@.len() || *final(self) == *old(self),
            !old(self).alive(e) ==> *final(self) == *old(self),
            old(self).alive(e) ==> {
                &&& forall|e2: EntityId| #![auto] e2.index == e.index ==> !final(self).alive(e2)
                &&& others_kept(*old(self), *final(self), e)
                &&& final(self).epoch == old(self).epoch + 1
                &&& final(self).slots@.len() == old(self).slots@.len()
                &&& final(self).types == old(self).types
                &&& final(self).resources == old(self).resources
            },
    {
        if self.is_alive(e) {
            let _ = self.despawn(e);
        }
    }

    /// Whether the id names a live entity.
    pub fn is_alive(&self, e: EntityId) -> (r: bool)
        ensures
            r == self.alive(e),
    {
        if (e.index as usize) < self.slots.len() {
            let slot = self.slots[e.index as usize];
            slot.generation == e.generation && !matches!(slot.loc, Loc::Vacant)
        } else {
            false
        }
    }

    /// Inserts one component. A component of the same type is replaced
    /// in place; a new type moves the entity to the wider archetype.
    pub fn try_insert(&mut self, e: EntityId, c: Component) -> (r: Result<(), EntityError>)
        requires
            old(self).wf(),
            old(self).epoch < u64::MAX,
        ensures
            final(self).wf(),
            borrow_states_kept(*old(self), *final(self)),
            old(self).archetypes@.len() <= final(self).archetypes@.len(),
            final(self).archetypes@.len() <= old(self).archetypes@.len() + 1,
            r is Ok <==> old(self).alive(e),
            r is Err ==> r == Result::<(), EntityError>::Err(EntityError::NoSuchEntity) && *final(self) == *old(self),
            r is Ok ==> {
                &&& final(self).epoch == old(self).epoch + 1
                &&& final(self).placed(e)
                &&& final(self).has_c(e, c.ty)
                &&& final(self).comp_at(e, c.ty) == c
                &&& final(self).epoch_at(e, c.ty) == final(self).epoch
                &&& forall|ty: u32| #![auto]
                    ty != c.ty ==> final(self).has_c(e, ty) == old(self).has_c(e, ty)
                &&& forall|ty: u32| #![auto]
                    ty != c.ty && old(self).has_c(e, ty) ==> final(self).comp_at(e, ty) == old(
                        self,
                    ).comp_at(e, ty)
                &&& (old(self).has_c(e, c.ty) ==> forall|ty: u32| #![auto]
                    ty != c.ty && old(self).has_c(e, ty) ==> final(self).epoch_at(e, ty) == old(
                        self,
                    ).epoch_at(e, ty))
                &&& (!old(self).has_c(e, c.ty) ==> forall|ty: u32| #![auto]
                    ty != c.ty && old(self).has_c(e, ty) ==> final(self).epoch_at(e, ty)
                        == final(self).epoch)
                &&& others_kept(*old(self), *final(self), e)
                &&& final(self).slots@.len() == old(self).slots@.len()
                &&& final(self).registered(c.ty)
                &&& (forall|t2: u32| #![auto]
                    old(self).registered(t2) ==> final(self).registered(t2))
                &&& final(self).resources == old(self).resources
            },
    {
        if !self.is_alive(e) {
            return Err(EntityError::NoSuchEntity);
        }
        self.ensure_registered(c.ty);
        let ghost wreg = *self;
        proof {
            assert forall|e2: EntityId| #![auto] true implies entity_view_kept(
                *old(self),
                wreg,
                e2,
            ) by {}
        }
        match self.has_component(e, c.ty) {
            Ok(true) => {
                self.bump_epoch();
                let ghost wmid = *self;
                proof {
                    assert(entity_view_kept(*old(self), wreg, e));
                    assert(entity_view_kept(wreg, wmid, e));
                    assert(entity_view_kept(*old(self), wmid, e));
                    assert forall|ty: u32| #![auto] wmid.has_c(e, ty) == old(self).has_c(e, ty) by {}
                    assert forall|ty: u32| #![auto]
                        old(self).has_c(e, ty) implies wmid.comp_at(e, ty) == old(self).comp_at(
                        e,
                        ty,
                    ) && wmid.epoch_at(e, ty) == old(self).epoch_at(e, ty) by {}
                }
                self.write_cell(e, c);
                proof {
                    assert(wmid.has_c(e, c.ty));
                    assert(self.has_c(e, c.ty));
                    assert(self.comp_at(e, c.ty) == c);
                    assert forall|e2: EntityId| #![auto]
                        e2.index != e.index implies entity_view_kept(*old(self), *self, e2) by {
                        assert(entity_view_kept(*old(self), wreg, e2));
                        assert(entity_view_kept(wreg, wmid, e2));
                        assert(entity_view_kept(wmid, *self, e2));
                    }
                }
                Ok(())
            },
            _ => {
                self.bump_epoch();
                let ghost wmid = *self;
                proof {
                    assert(entity_view_kept(*old(self), wreg, e));
                    assert(entity_view_kept(wreg, wmid, e));
                    assert(entity_view_kept(*old(self), wmid, e));
                    assert forall|ty: u32| #![auto] wmid.has_c(e, ty) == old(self).has_c(e, ty) by {}
                    assert forall|ty: u32| #![auto]
                        old(self).has_c(e, ty) implies wmid.comp_at(e, ty) == old(self).comp_at(
                        e,
                        ty,
                    ) && wmid.epoch_at(e, ty) == old(self).epoch_at(e, ty) by {}
                }
                let mut adds: Vec<Component> = Vec::new();
                adds.push(c);
                proof {
                    assert(adds@ =~= seq![c]);
                    assert(has_ty_in(adds@, c.ty)) by {
                        assert(adds@[0].ty == c.ty);
                    }
                }
                self.migrate_add(e, adds);
                proof {
                    assert(self.comp_at(e, c.ty) == c && self.epoch_at(e, c.ty) == self.epoch) by {
                        let ghost adds2 = seq![c];
                        assert(adds2[0] == c);
                    }
                    assert forall|e2: EntityId| #![auto]
                        e2.index != e.index implies entity_view_kept(*old(self), *self, e2) by {
                        assert(entity_view_kept(*old(self), wreg, e2));
                        assert(entity_view_kept(wreg, wmid, e2));
                        assert(entity_view_kept(wmid, *self, e2));
                    }
                    assert forall|ty: u32| #![auto]
                        ty != c.ty implies self.has_c(e, ty) == old(self).has_c(e, ty) by {
                        assert(!has_ty_in(seq![c], ty)) by {
                            if has_ty_in(seq![c], ty) {
                                let i = choose|i: int|
                                    0 <= i < seq![c].len() && (#[trigger] seq![c][i]).ty == ty;
                                assert(seq![c][0] == c);
                            }
                        }
                        assert(self.has_c(e, ty) == (wmid.has_c(e, ty) || has_ty_in(seq![c], ty)));
                    }
                    assert forall|ty: u32| #![auto]
                        ty != c.ty && old(self).has_c(e, ty) implies self.comp_at(e, ty) == old(
                        self,
                    ).comp_at(e, ty) by {
                        assert(!has_ty_in(seq![c], ty)) by {
                            if has_ty_in(seq![c], ty) {
                                let i = choose|i: int|
                                    0 <= i < seq![c].len() && (#[trigger] seq![c][i]).ty == ty;
                                assert(seq![c][0] == c);
                            }
                        }
                        assert(wmid.has_c(e, ty));
                    }
                }
                Ok(())
            },
        }
    }

    /// Inserts a bundle. Components the entity already carries are
    /// replaced; new types move it to the wider archetype. A reserved
    /// entity is materialized. The bundle is a set: no two of its
    /// components may share a type.
    pub fn try_insert_bundle(&mut self, e: EntityId, bundle: Vec<Component>) -> (r: Result<
        (),
        EntityError,
    >)
        requires
            old(self).wf(),
            distinct_tys(bundle@),
            old(self).epoch < u64::MAX,
        ensures
            final(self).wf(),
            borrow_states_kept(*old(self), *final(self)),
            old(self).archetypes@.len() <= final(self).archetypes@.len(),
            final(self).archetypes@.len() <= old(self).archetypes@.len() + 1,
            r is Ok <==> old(self).alive(e),
            r is Err ==> r == Result::<(), EntityError>::Err(EntityError::NoSuchEntity) && *final(self) == *old(self),
            r is Ok ==> {
                &&& final(self).epoch == old(self).epoch + 1
                &&& final(self).placed(e)
                &&& forall|ty: u32|
                    #![trigger final(self).has_c(e, ty)]
                    #![trigger old(self).has_c(e, ty)]
                    final(self).has_c(e, ty) == (old(self).has_c(e, ty) || has_ty_in(bundle@, ty))
                &&& forall|i: int| #![auto]
                    0 <= i < bundle@.len() ==> final(self).comp_at(e, bundle@[i].ty) == bundle@[i]
                        && final(self).epoch_at(e, bundle@[i].ty) == final(self).epoch
                &&& forall|ty: u32|
                    #![trigger final(self).comp_at(e, ty)]
                    #![trigger old(self).comp_at(e, ty)]
                    old(self).has_c(e, ty) && !has_ty_in(bundle@, ty) ==> final(self).comp_at(
                        e,
                        ty,
                    ) == old(self).comp_at(e, ty)
                &&& others_kept(*old(self), *final(self), e)
                &&& final(self).slots@.len() == old(self).slots@.len()
                &&& (forall|i: int|
                    0 <= i < bundle@.len() ==> final(self).registered((#[trigger] bundle@[i]).ty))
                &&& (forall|t2: u32| #![auto]
                    old(self).registered(t2) ==> final(self).registered(t2))
                &&& final(self).resources == old(self).resources
            },
    {
        if !self.is_alive(e) {
            return Err(EntityError::NoSuchEntity);
        }
        self.register_bundle(&bundle);
        let ghost wreg = *self;
        proof {
            assert forall|e2: EntityId| #![auto] true implies entity_view_kept(
                *old(self),
                wreg,
                e2,
            ) by {}
        }
        self.bump_epoch();
        let ghost wmid = *self;
        proof {
            assert(entity_view_kept(*old(self), wmid, e));
            assert forall|ty: u32| #![auto] wmid.has_c(e, ty) == old(self).has_c(e, ty) by {}
            assert forall|ty: u32| #![auto]
                old(self).has_c(e, ty) implies wmid.comp_at(e, ty) == old(self).comp_at(e, ty)
                && wmid.epoch_at(e, ty) == old(self).epoch_at(e, ty) by {}
        }
        let ghost bundle0 = bundle@;
        self.migrate_add(e, bundle);
        proof {
            assert forall|e2: EntityId| #![auto] e2.index != e.index implies entity_view_kept(
                *old(self),
                *self,
                e2,
            ) by {
                assert(entity_view_kept(*old(self), wmid, e2));
                assert(entity_view_kept(wmid, *self, e2));
            }
            assert forall|ty: u32| #![auto] self.has_c(e, ty) == (old(self).has_c(e, ty)
                || has_ty_in(bundle0, ty)) by {
                assert(self.has_c(e, ty) == (wmid.has_c(e, ty) || has_ty_in(bundle0, ty)));
                assert(wmid.has_c(e, ty) == old(self).has_c(e, ty));
            }
            assert forall|i: int| #![auto] 0 <= i < bundle0.len() implies self.comp_at(
                e,
                bundle0[i].ty,
            ) == bundle0[i] && self.epoch_at(e, bundle0[i].ty) == self.epoch by {}
            assert forall|ty: u32| #![auto]
                old(self).has_c(e, ty) && !has_ty_in(bundle0, ty) implies self.comp_at(e, ty)
                == old(self).comp_at(e, ty) by {
                assert(wmid.has_c(e, ty));
                assert(self.comp_at(e, ty) == wmid.comp_at(e, ty));
            }
        }
        Ok(())
    }

    /// Removes one component and returns its value.
    pub fn remove(&mut self, e: EntityId, ty: u32) -> (r: Result<Component, EntityError>)
        requires
            old(self).wf(),
            old(self).epoch < u64::MAX,
        ensures
            final(self).wf(),
            borrow_states_kept(*old(self), *final(self)),
            old(self).archetypes@.len() <= final(self).archetypes@.len(),
            final(self).archetypes@.len() <= old(self).archetypes@.len() + 1,
            r is Ok <==> old(self).has_c(e, ty),
            r == Result::<Component, EntityError>::Err(EntityError::NoSuchEntity) <==> !old(
                self,
            ).alive(e),
            r == Result::<Component, EntityError>::Err(EntityError::MissingComponents) <==> old(
                self,
            ).alive(e) && !old(self).has_c(e, ty),
            r is Err ==> *final(self) == *old(self),
            r is Ok ==> {
                &&& r == Result::<Component, EntityError>::Ok(old(self).comp_at(e, ty))
                &&& final(self).epoch == old(self).epoch + 1
                &&& final(self).placed(e)
                &&& !final(self).has_c(e, ty)
                &&& forall|ty2: u32| #![auto]
                    ty2 != ty ==> final(self).has_c(e, ty2) == old(self).has_c(e, ty2)
                &&& forall|ty2: u32| #![auto]
                    ty2 != ty && old(self).has_c(e, ty2) ==> final(self).comp_at(e, ty2) == old(
                        self,
                    ).comp_at(e, ty2)
                &&& others_kept(*old(self), *final(self), e)
                &&& final(self).slots@.len() == old(self).slots@.len()
                &&& final(self).types == old(self).types
                &&& final(self).resources == old(self).resources
            },
    {
        if !self.is_alive(e) {
            return Err(EntityError::NoSuchEntity);
        }
        match self.has_component(e, ty) {
            Ok(true) => {},
            _ => {
                return Err(EntityError::MissingComponents);
            },
        }
        self.bump_epoch();
        let ghost wmid = *self;
        proof {
            assert(entity_view_kept(*old(self), wmid, e));
            assert forall|ty: u32| #![auto] wmid.has_c(e, ty) == old(self).has_c(e, ty) by {}
            assert forall|ty: u32| #![auto]
                old(self).has_c(e, ty) implies wmid.comp_at(e, ty) == old(self).comp_at(e, ty)
                && wmid.epoch_at(e, ty) == old(self).epoch_at(e, ty) by {}
        }
        let mut drops: Vec<u32> = Vec::new();
        drops.push(ty);
        let mut dropped = self.migrate_drop(e, &drops);
        proof {
            assert forall|e2: EntityId| #![auto] e2.index != e.index implies entity_view_kept(
                *old(self),
                *self,
                e2,
            ) by {
                assert(entity_view_kept(*old(self), wmid, e2));
                assert(entity_view_kept(wmid, *self, e2));
            }
            assert(drops@[0] == ty);
            assert(drops@.contains(ty));
            assert(wmid.has_c(e, ty));
            assert(has_ty_in(dropped@, ty));
            assert(!self.has_c(e, ty));
            assert forall|ty2: u32| #![auto]
                ty2 != ty implies self.has_c(e, ty2) == old(self).has_c(e, ty2) by {
                assert(!drops@.contains(ty2)) by {
                    if drops@.contains(ty2) {
                        let k = choose|k: int| 0 <= k < drops@.len() && drops@[k] == ty2;
                        assert(drops@[0] == ty);
                    }
                }
                assert(self.has_c(e, ty2) == (wmid.has_c(e, ty2) && !drops@.contains(ty2)));
                assert(wmid.has_c(e, ty2) == old(self).has_c(e, ty2));
            }
            assert forall|ty2: u32| #![auto]
                ty2 != ty && old(self).has_c(e, ty2) implies self.comp_at(e, ty2) == old(
                self,
            ).comp_at(e, ty2) by {
                assert(!drops@.contains(ty2)) by {
                    if drops@.contains(ty2) {
                        let k = choose|k: int| 0 <= k < drops@.len() && drops@[k] == ty2;
                        assert(drops@[0] == ty);
                    }
                }
                assert(wmid.has_c(e, ty2));
                assert(self.comp_at(e, ty2) == wmid.comp_at(e, ty2));
            }
        }
        let at = match has_ty_at(&dropped, ty) {
            Some(i) => i,
            None => {
                proof {
                    assert(false);
                }
                0
            },
        };
        let ghost dropped0 = dropped@;
        let v = dropped.swap_remove(at);
        proof {
            assert(v == dropped0[at as int]);
            assert(dropped0[at as int].ty == ty);
            assert(dropped0[at as int] == wmid.comp_at(e, dropped0[at as int].ty));
            assert(wmid.comp_at(e, ty) == old(self).comp_at(e, ty));
        }
        Ok(v)
    }

    /// Drops every component of the given types the entity carries;
    /// types it does not carry are ignored.
    pub fn drop_bundle(&mut self, e: EntityId, tys: &Vec<u32>) -> (r: Result<(), EntityError>)
        requires
            old(self).wf(),
            old(self).epoch < u64::MAX,
        ensures
            final(self).wf(),
            borrow_states_kept(*old(self), *final(self)),
            old(self).archetypes@.len() <= final(self).archetypes@.len(),
            final(self).archetypes@.len() <= old(self).archetypes@.len() + 1,
            r is Ok <==> old(self).alive(e),
            r is Err ==> r == Result::<(), EntityError>::Err(EntityError::NoSuchEntity) && *final(self) == *old(self),
            r is Ok ==> {
                &&& final(self).epoch == old(self).epoch + 1
                &&& forall|ty: u32|
                    #![trigger final(self).has_c(e, ty)]
                    #![trigger old(self).has_c(e, ty)]
                    final(self).has_c(e, ty) == (old(self).has_c(e, ty) && !tys@.contains(ty))
                &&& forall|ty: u32|
                    #![trigger final(self).comp_at(e, ty)]
                    #![trigger old(self).comp_at(e, ty)]
                    old(self).has_c(e, ty) && !tys@.contains(ty) ==> final(self).comp_at(e, ty)
                        == old(self).comp_at(e, ty)
                &&& others_kept(*old(self), *final(self), e)
                &&& final(self).slots@.len() == old(self).slots@.len()
                &&& final(self).types == old(self).types
                &&& final(self).resources == old(self).resources
            },
    {
        if !self.is_alive(e) {
            return Err(EntityError::NoSuchEntity);
        }
        self.bump_epoch();
        let ghost wmid = *self;
        proof {
            assert(entity_view_kept(*old(self), wmid, e));
            assert forall|ty: u32| #![auto] wmid.has_c(e, ty) == old(self).has_c(e, ty) by {}
            assert forall|ty: u32| #![auto]
                old(self).has_c(e, ty) implies wmid.comp_at(e, ty) == old(self).comp_at(e, ty)
                && wmid.epoch_at(e, ty) == old(self).epoch_at(e, ty) by {}
        }
        let placed_now = match self.slots[e.index as usize].loc {
            Loc::Row(_, _) => true,
            _ => false,
        };
        if placed_now {
            let _dropped = self.migrate_drop(e, tys);
            proof {
                assert forall|ty: u32| #![auto] self.has_c(e, ty) == (old(self).has_c(e, ty)
                    && !tys@.contains(ty)) by {
                    assert(self.has_c(e, ty) == (wmid.has_c(e, ty) && !tys@.contains(ty)));
                    assert(wmid.has_c(e, ty) == old(self).has_c(e, ty));
                }
                assert forall|ty: u32| #![auto]
                    old(self).has_c(e, ty) && !tys@.contains(ty) implies self.comp_at(e, ty)
                    == old(self).comp_at(e, ty) by {
                    assert(wmid.has_c(e, ty));
                    assert(self.comp_at(e, ty) == wmid.comp_at(e, ty));
                }
            }
        } else {
            proof {
                assert(!old(self).placed(e));
                assert forall|ty: u32| #![auto] self.has_c(e, ty) == (old(self).has_c(e, ty)
                    && !tys@.contains(ty)) by {
                    assert(!self.placed(e));
                    assert(!old(self).has_c(e, ty));
                }
            }
        }
        proof {
            assert forall|e2: EntityId| #![auto] e2.index != e.index implies entity_view_kept(
                *old(self),
                *self,
                e2,
            ) by {
                assert(entity_view_kept(*old(self), wmid, e2));
                assert(entity_view_kept(wmid, *self, e2));
            }
        }
        Ok(())
    }

    /// Reads the entity's components of the given types, in the given
    /// order. Fails with `MissingComponents` when any type is absent.
    pub fn query_one(&self, e: EntityId, tys: &Vec<u32>) -> (r: Result<Vec<Component>, EntityError>)
        requires
            self.wf(),
        ensures
            r is Ok <==> self.alive(e) && (forall|i: int| #![auto]
                0 <= i < tys@.len() ==> self.has_c(e, tys@[i])),
            r == Result::<Vec<Component>, EntityError>::Err(EntityError::NoSuchEntity)
                <==> !self.alive(e),
            r is Ok ==> {
                let v = r->Ok_0;
                v@.len() == tys@.len() && forall|i: int| #![auto]
                    0 <= i < tys@.len() ==> v@[i] == self.comp_at(e, tys@[i])
            },
    {
        if !self.is_alive(e) {
            return Err(EntityError::NoSuchEntity);
        }
        let mut out: Vec<Component> = Vec::new();
        let mut i: usize = 0;
        while i < tys.len()
            invariant
                i <= tys@.len(),
                self.wf(),
                self.alive(e),
                out@.len() == i,
                forall|k: int| #![auto] 0 <= k < i ==> self.has_c(e, tys@[k]),
                forall|k: int| #![auto] 0 <= k < i ==> out@[k] == self.comp_at(e, tys@[k]),
            decreases tys@.len() - i,
        {
            let ty = tys[i];
            let (a, r) = match self.slots[e.index as usize].loc {
                Loc::Row(a, r) => (a, r),
                _ => {
                    return Err(EntityError::MissingComponents);
                },
            };
            proof {
                assert(self.archetypes@[a as int].wf());
            }
            let c = match self.archetypes[a].find_col(ty) {
                Some(c) => c,
                None => {
                    return Err(EntityError::MissingComponents);
                },
            };
            proof {
                assert(r < self.archetypes@[a as int].columns@[c as int].values@.len());
            }
            out.push(self.archetypes[a].columns[c].values[r].duplicate());
            i = i + 1;
        }
        Ok(out)
    }

    /// Overwrites one component the entity already carries, stamping the
    /// cell with the bumped epoch. This is the exclusive single-entity
    /// write path.
    pub fn write_component(&mut self, e: EntityId, c: Component) -> (r: Result<(), EntityError>)
        requires
            old(self).wf(),
            old(self).epoch < u64::MAX,
        ensures
            final(self).wf(),
            borrow_states_kept(*old(self), *final(self)),
            r is Ok <==> old(self).has_c(e, c.ty),
            r == Result::<(), EntityError>::Err(EntityError::NoSuchEntity) <==> !old(self).alive(e),
            r == Result::<(), EntityError>::Err(EntityError::MissingComponents) <==> old(
                self,
            ).alive(e) && !old(self).has_c(e, c.ty),
            r is Err ==> *final(self) == *old(self),
            r is Ok ==> {
                &&& final(self).epoch == old(self).epoch + 1
                &&& final(self).comp_at(e, c.ty) == c
                &&& final(self).epoch_at(e, c.ty) == final(self).epoch
                &&& forall|ty: u32| #![auto] final(self).has_c(e, ty) == old(self).has_c(e, ty)
                &&& forall|ty: u32| #![auto]
                    ty != c.ty && old(self).has_c(e, ty) ==> final(self).comp_at(e, ty) == old(
                        self,
                    ).comp_at(e, ty) && final(self).epoch_at(e, ty) == old(self).epoch_at(e, ty)
                &&& others_kept(*old(self), *final(self), e)
                &&& final(self).slots@.len() == old(self).slots@.len()
                &&& final(self).types == old(self).types
                &&& final(self).resources == old(self).resources
            },
    {
        if !self.is_alive(e) {
            return Err(EntityError::NoSuchEntity);
        }
        match self.has_component(e, c.ty) {
            Ok(true) => {},
            _ => {
                return Err(EntityError::MissingComponents);
            },
        }
        self.bump_epoch();
        let ghost wmid = *self;
        proof {
            assert(entity_view_kept(*old(self), wmid, e));
            assert forall|ty: u32| #![auto] wmid.has_c(e, ty) == old(self).has_c(e, ty) by {}
            assert forall|ty: u32| #![auto]
                old(self).has_c(e, ty) implies wmid.comp_at(e, ty) == old(self).comp_at(e, ty)
                && wmid.epoch_at(e, ty) == old(self).epoch_at(e, ty) by {}
        }
        self.write_cell(e, c);
        proof {
            assert forall|e2: EntityId| #![auto] e2.index != e.index implies entity_view_kept(
                *old(self),
                *self,
                e2,
            ) by {
                assert(entity_view_kept(*old(self), wmid, e2));
                assert(entity_view_kept(wmid, *self, e2));
            }
        }
        Ok(())
    }

    /// Registers a component type explicitly. Registering a type twice
    /// fails with `AlreadyRegistered`.
    pub fn register_type(&mut self, info: TypeInfo) -> (r: Result<(), RegistryError>)
        requires
            old(self).wf(),
        ensures
            final(self).wf(),
            r is Ok <==> !old(self).registered(info.ty),
            r is Err ==> r == Result::<(), RegistryError>::Err(RegistryError::AlreadyRegistered)
                && *final(self) == *old(self),
            r is Ok ==> final(self).types@ == old(self).types@.push(info),
            final(self).registered(info.ty),
            final(self).slots == old(self).slots,
            final(self).archetypes == old(self).archetypes,
            final(self).epoch == old(self).epoch,
            final(self).resources == old(self).resources,
    {
        let mut i: usize = 0;
        while i < self.types.len()
            invariant
                i <= self.types@.len(),
                *self == *old(self),
                old(self).wf(),
                forall|k: int| 0 <= k < i ==> (#[trigger] self.types@[k]).ty != info.ty,
            decreases self.types@.len() - i,
        {
            if self.types[i].ty == info.ty {
                proof {
                    assert(self.types@[i as int].ty == info.ty);
                }
                return Err(RegistryError::AlreadyRegistered);
            }
            i = i + 1;
        }
        self.types.push(info);
        proof {
            assert(self.types@[self.types@.len() - 1].ty == info.ty);
        }
        Ok(())
    }

    /// Whether a type identity has been registered.
    pub fn registered_type(&self, ty: u32) -> (r: bool)
        ensures
            r == self.registered(ty),
    {
        let mut i: usize = 0;
        while i < self.types.len()
            invariant
                i <= self.types@.len(),
                forall|k: int| 0 <= k < i ==> (#[trigger] self.types@[k]).ty != ty,
            decreases self.types@.len() - i,
        {
            if self.types[i].ty == ty {
                proof {
                    assert(self.types@[i as int].ty == ty);
                }
                return true;
            }
            i = i + 1;
        }
        false
    }

    /// Registers a type with the default descriptor if it is unknown;
    /// insertion paths register implicitly through this.
    pub fn ensure_registered(&mut self, ty: u32)
        requires
            old(self).wf(),
        ensures
            final(self).wf(),
            final(self).registered(ty),
            forall|t2: u32| #![auto] old(self).registered(t2) ==> final(self).registered(t2),
            final(self).slots == old(self).slots,
            final(self).archetypes == old(self).archetypes,
            final(self).epoch == old(self).epoch,
            final(self).resources == old(self).resources,
    {
        if !self.registered_type(ty) {
            let ghost t0 = self.types@;
            self.types.push(TypeInfo::plain(ty));
            proof {
                assert(self.types@[t0.len() as int].ty == ty);
                assert forall|t2: u32| old(self).registered(t2) implies self.registered(t2) by {
                    let i = choose|i: int| 0 <= i < t0.len() && (#[trigger] t0[i]).ty == t2;
                    assert(self.types@[i].ty == t2);
                }
            }
        }
    }

    /// Registers every type of a bundle implicitly, with the default
    /// descriptor, where not yet known.
    fn register_bundle(&mut self, bundle: &Vec<Component>)
        requires
            old(self).wf(),
        ensures
            final(self).wf(),
            forall|i: int|
                0 <= i < bundle@.len() ==> final(self).registered((#[trigger] bundle@[i]).ty),
            forall|t2: u32| #![auto] old(self).registered(t2) ==> final(self).registered(t2),
            final(self).slots == old(self).slots,
            final(self).archetypes == old(self).archetypes,
            final(self).epoch == old(self).epoch,
            final(self).resources == old(self).resources,
    {
        let mut i: usize = 0;
        while i < bundle.len()
            invariant
                i <= bundle@.len(),
                self.wf(),
                forall|k: int|
                    0 <= k < i ==> self.registered((#[trigger] bundle@[k]).ty),
                forall|t2: u32| #![auto] old(self).registered(t2) ==> self.registered(t2),
                self.slots == old(self).slots,
                self.archetypes == old(self).archetypes,
                self.epoch == old(self).epoch,
                self.resources == old(self).resources,
            decreases bundle@.len() - i,
        {
            let ghost pre = *self;
            self.ensure_registered(bundle[i].ty);
            proof {
                assert forall|k: int| 0 <= k < i + 1 implies self.registered(
                    (#[trigger] bundle@[k]).ty,
                ) by {
                    if k < i {
                        assert(pre.registered(bundle@[k].ty));
                    }
                }
            }
            i = i + 1;
        }
    }

    /// The registered descriptor of a type identity. Identity-only
    /// operations fail with `TypeNotRegistered` on an unknown type.
    pub fn type_info(&self, ty: u32) -> (r: Result<TypeInfo, RegistryError>)
        requires
            self.wf(),
        ensures
            r is Ok <==> self.registered(ty),
            r is Err ==> r == Result::<TypeInfo, RegistryError>::Err(
                RegistryError::TypeNotRegistered,
            ),
            r is Ok ==> (r->Ok_0).ty == ty && self.types@.contains(r->Ok_0),
    {
        let mut i: usize = 0;
        while i < self.types.len()
            invariant
                i <= self.types@.len(),
                forall|k: int| 0 <= k < i ==> (#[trigger] self.types@[k]).ty != ty,
            decreases self.types@.len() - i,
        {
            if self.types[i].ty == ty {
                proof {
                    assert(self.types@[i as int].ty == ty);
                    assert(self.types@.contains(self.types@[i as int]));
                }
                return Ok(self.types[i]);
            }
            i = i + 1;
        }
        Err(RegistryError::TypeNotRegistered)
    }

    /// Whether the entity is live; an error when it is not.
    pub fn has_component(&self, e: EntityId, ty: u32) -> (r: Result<bool, EntityError>)
        requires
            self.wf(),
        ensures
            match r {
                Ok(b) => self.alive(e) && b == self.has_c(e, ty),
                Err(err) => err == EntityError::NoSuchEntity && !self.alive(e),
            },
    {
        if (e.index as usize) < self.slots.len() {
            let slot = self.slots[e.index as usize];
            if slot.generation != e.generation {
                return Err(EntityError::NoSuchEntity);
            }
            match slot.loc {
                Loc::Vacant => Err(EntityError::NoSuchEntity),
                Loc::Reserved => Ok(false),
                Loc::Row(a, _r) => Ok(self.archetypes[a].find_col(ty).is_some()),
            }
        } else {
            Err(EntityError::NoSuchEntity)
        }
    }

    /// Whether a resource of the type is present.
    pub open spec fn has_resource(self, ty: u32) -> bool {
        exists|i: int| 0 <= i < self.resources@.len() && (#[trigger] self.resources@[i]).ty == ty
    }

    /// The resource value of the type.
    pub open spec fn resource_at(self, ty: u32) -> Component {
        self.resources@[choose|i: int|
            0 <= i < self.resources@.len() && (#[trigger] self.resources@[i]).ty == ty]
    }

    /// Inserts a singleton resource, replacing an existing one of the
    /// same type.
    pub fn insert_resource(&mut self, c: Component)
        requires
            old(self).wf(),
        ensures
            final(self).wf(),
            final(self).has_resource(c.ty),
            final(self).resource_at(c.ty) == c,
            forall|ty: u32| #![trigger final(self).has_resource(ty)]
                ty != c.ty ==> final(self).has_resource(ty) == old(self).has_resource(ty) && (old(
                    self,
                ).has_resource(ty) ==> final(self).resource_at(ty) == old(self).resource_at(ty)),
            final(self).slots == old(self).slots,
            final(self).archetypes == old(self).archetypes,
            final(self).epoch == old(self).epoch,
            final(self).types == old(self).types,
    {
        let ghost w0 = *old(self);
        let mut i: usize = 0;
        while i < self.resources.len()
            invariant
                i <= self.resources@.len(),
                *self == *old(self),
                old(self).wf(),
                forall|k: int| 0 <= k < i ==> (#[trigger] self.resources@[k]).ty != c.ty,
            decreases self.resources@.len() - i,
        {
            if self.resources[i].ty == c.ty {
                let ghost w0 = *self;
                self.resources.set(i, c);
                proof {
                    let w1 = *self;
                    assert(w0 == *old(self));
                    assert(w0.wf());
                    assert(w1.resources_wf()) by {
                        assert forall|x: int, y: int|
                            0 <= x < y < w1.resources@.len() implies (
                        #[trigger] w1.resources@[x]).ty != (#[trigger] w1.resources@[y]).ty by {
                            assert(w0.resources@[x].ty != w0.resources@[y].ty);
                            if x == i as int {
                                assert(w1.resources@[x].ty == w0.resources@[x].ty);
                            }
                            if y == i as int {
                                assert(w1.resources@[y].ty == w0.resources@[y].ty);
                            }
                        }
                    }
                    assert(w1.resources@[i as int].ty == c.ty);
                    assert(w1.resource_at(c.ty) == c) by {
                        let k = choose|k: int|
                            0 <= k < w1.resources@.len() && (#[trigger] w1.resources@[k]).ty
                                == c.ty;
                        if k != i as int {
                            assert(w0.resources@[k].ty == c.ty);
                            assert(w0.resources@[i as int].ty == c.ty);
                        }
                    }
                    assert forall|ty: u32| #![trigger w1.has_resource(ty)]
                        ty != c.ty implies w1.has_resource(ty) == w0.has_resource(ty) && (
                    w0.has_resource(ty) ==> w1.resource_at(ty) == w0.resource_at(ty)) by {
                        if w0.has_resource(ty) {
                            let k = choose|k: int|
                                0 <= k < w0.resources@.len() && (#[trigger] w0.resources@[k]).ty
                                    == ty;
                            assert(k != i as int);
                            assert(w1.resources@[k].ty == ty);
                            assert(w1.has_resource(ty));
                            let k2 = choose|k2: int|
                                0 <= k2 < w1.resources@.len() && (#[trigger] w1.resources@[k2]).ty
                                    == ty;
                            assert(k2 != i as int);
                            assert(w0.resources@[k2].ty == ty);
                            let k0 = choose|k0: int|
                                0 <= k0 < w0.resources@.len() && (#[trigger] w0.resources@[k0]).ty
                                    == ty;
                            if k0 != k2 {
                                assert(w0.resources@[k0].ty == w0.resources@[k2].ty);
                            }
                        }
                        if w1.has_resource(ty) {
                            let k = choose|k: int|
                                0 <= k < w1.resources@.len() && (#[trigger] w1.resources@[k]).ty
                                    == ty;
                            assert(k != i as int);
                            assert(w0.resources@[k].ty == ty);
                            assert(w0.has_resource(ty));
                        }
                    }
                }
                return ;
            }
            i = i + 1;
        }
        let ghost r0 = self.resources@;
        self.resources.push(c);
        proof {
            let w1 = *self;
            assert(w1.resources@[r0.len() as int].ty == c.ty);
            assert(w1.resources_wf()) by {
                assert forall|x: int, y: int| 0 <= x < y < w1.resources@.len() implies (
                #[trigger] w1.resources@[x]).ty != (#[trigger] w1.resources@[y]).ty by {
                    if y == r0.len() as int {
                        assert(w1.resources@[x] == r0[x]);
                    } else {
                        assert(w1.resources@[x] == r0[x] && w1.resources@[y] == r0[y]);
                    }
                }
            }
            assert(w1.resource_at(c.ty) == c) by {
                let k = choose|k: int|
                    0 <= k < w1.resources@.len() && (#[trigger] w1.resources@[k]).ty == c.ty;
                if k != r0.len() as int {
                    assert(r0[k].ty == c.ty);
                }
            }
            assert forall|ty: u32| #![trigger w1.has_resource(ty)]
                ty != c.ty implies w1.has_resource(ty) == w0.has_resource(ty) && (w0.has_resource(
                ty,
            ) ==> w1.resource_at(ty) == w0.resource_at(ty)) by {
                if w0.has_resource(ty) {
                    let k = choose|k: int|
                        0 <= k < w0.resources@.len() && (#[trigger] w0.resources@[k]).ty == ty;
                    assert(w1.resources@[k].ty == ty);
                    assert(w1.has_resource(ty));
                    let k2 = choose|k2: int|
                        0 <= k2 < w1.resources@.len() && (#[trigger] w1.resources@[k2]).ty == ty;
                    assert(k2 != r0.len() as int);
                    assert(w0.resources@[k2].ty == ty);
                    let k0 = choose|k0: int|
                        0 <= k0 < w0.resources@.len() && (#[trigger] w0.resources@[k0]).ty == ty;
                    if k0 != k2 {
                        assert(w0.resources@[k0].ty == w0.resources@[k2].ty);
                    }
                }
                if w1.has_resource(ty) {
                    let k = choose|k: int|
                        0 <= k < w1.resources@.len() && (#[trigger] w1.resources@[k]).ty == ty;
                    assert(k != r0.len() as int);
                    assert(w0.resources@[k].ty == ty);
                    assert(w0.has_resource(ty));
                }
            }
        }
    }

    /// Reads a copy of the resource of the type, if one is present.
    pub fn get_resource(&self, ty: u32) -> (r: Option<Component>)
        requires
            self.wf(),
        ensures
            match r {
                Some(c) => self.has_resource(ty) && c == self.resource_at(ty),
                None => !self.has_resource(ty),
            },
    {
        let mut i: usize = 0;
        while i < self.resources.len()
            invariant
                i <= self.resources@.len(),
                self.wf(),
                forall|k: int| 0 <= k < i ==> (#[trigger] self.resources@[k]).ty != ty,
            decreases self.resources@.len() - i,
        {
            if self.resources[i].ty == ty {
                proof {
                    assert(self.resources@[i as int].ty == ty);
                    let k = choose|k: int|
                        0 <= k < self.resources@.len() && (#[trigger] self.resources@[k]).ty == ty;
                    if k != i as int {
                        assert(self.resources@[k].ty == self.resources@[i as int].ty);
                    }
                }
                return Some(self.resources[i].duplicate());
            }
            i = i + 1;
        }
        None
    }
}

} // verus!
