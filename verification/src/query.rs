//! The query engine: terms, runtime borrow locks and iteration.
//!
//! A query is a sequence of terms. Iteration visits archetypes in
//! creation order and rows in row order; each term contributes an access
//! (for borrow checking), an archetype filter, a per-row filter and a
//! per-row item. A change-tracking query yields exactly the rows whose
//! write epoch exceeds the caller's token, then advances the token to
//! the current world epoch.

use vstd::prelude::*;

use crate::archetype::{Archetype, Shared};
use crate::component::{Component, Value};
use crate::entity::EntityId;
use crate::relation::FetchFilterNotRelatesTo;
use crate::world::{TrackToken, World};

verus! {

/// Errors raised when a query cannot take its borrows.
#[derive(Clone, Copy, Debug, PartialEq, Eq, Structural)]
pub enum QueryError {
    /// A needed column is already borrowed in a conflicting mode.
    BorrowConflict,
    /// A non-send or non-sync component was asked for off the main
    /// thread.
    NotMainThread,
}

/// The sequence of pairs a change-tracking query yields from the first
/// `n` rows of one archetype: each row whose cell of the type was
/// written after `tau`, with its entity and value, in row order.
pub open spec fn arch_modified_upto(arch: Archetype, ty: u32, tau: u64, n: int) -> Seq<
    (EntityId, Component),
>
    decreases n,
{
    if n <= 0 {
        Seq::empty()
    } else {
        arch_modified_upto(arch, ty, tau, n - 1) + if arch.cell_epoch(n - 1, ty) > tau {
            seq![(arch.entities@[n - 1], arch.cell(n - 1, ty))]
        } else {
            Seq::empty()
        }
    }
}

/// What a change-tracking query yields from one archetype.
pub open spec fn arch_modified(arch: Archetype, ty: u32, tau: u64) -> Seq<(EntityId, Component)> {
    if arch.has_ty(ty) {
        arch_modified_upto(arch, ty, tau, arch.rows() as int)
    } else {
        Seq::empty()
    }
}

/// What a change-tracking query yields from the first `a` archetypes,
/// in creation order.
pub open spec fn modified_upto(w: World, ty: u32, tau: u64, a: int) -> Seq<(EntityId, Component)>
    decreases a,
{
    if a <= 0 {
        Seq::empty()
    } else {
        modified_upto(w, ty, tau, a - 1) + arch_modified(w.archetypes@[a - 1], ty, tau)
    }
}

/// Everything a change-tracking query with token `tau` yields.
pub open spec fn modified_view(w: World, ty: u32, tau: u64) -> Seq<(EntityId, Component)> {
    modified_upto(w, ty, tau, w.archetypes@.len() as int)
}

/// Whether some column of the type is writer-locked, which blocks the
/// read borrow a change-tracking query needs.
pub open spec fn modified_blocked(w: World, ty: u32) -> bool {
    exists|a: int|
        0 <= a < w.archetypes@.len() && (#[trigger] w.archetypes@[a]).has_ty(ty)
            && w.archetypes@[a].columns@[w.archetypes@[a].col_idx(ty)].state is Exclusive
}

/// Runs a change-tracking query: yields every entity whose cell of the
/// type was written at an epoch above the token, in archetype creation
/// order and row order, and advances the token to the current epoch.
/// Fails with `BorrowConflict`, consuming nothing, when a needed column
/// is writer-locked.
pub fn tracked_modified(world: &World, ty: u32, token: &mut TrackToken) -> (r: Result<
    Vec<(EntityId, Component)>,
    QueryError,
>)
    requires
        world.wf(),
    ensures
        r is Err <==> modified_blocked(*world, ty),
        r is Err ==> r == Result::<Vec<(EntityId, Component)>, QueryError>::Err(
            QueryError::BorrowConflict,
        ) && *final(token) == *old(token),
        r is Ok ==> (r->Ok_0)@ == modified_view(*world, ty, old(token).epoch)
            && final(token).epoch == world.epoch,
{
    let mut a: usize = 0;
    while a < world.archetypes.len()
        invariant
            a <= world.archetypes@.len(),
            world.wf(),
            forall|k: int|
                0 <= k < a ==> !((#[trigger] world.archetypes@[k]).has_ty(ty)
                    && world.archetypes@[k].columns@[world.archetypes@[k].col_idx(ty)].state
                    is Exclusive),
        decreases world.archetypes@.len() - a,
    {
        proof {
            assert(world.archetypes@[a as int].wf());
        }
        match world.archetypes[a].find_col(ty) {
            Some(c) => {
                if matches!(world.archetypes[a].columns[c].state, Shared::Exclusive) {
                    proof {
                        assert(world.archetypes@[a as int].has_ty(ty));
                    }
                    return Err(QueryError::BorrowConflict);
                }
            },
            None => {},
        }
        a = a + 1;
    }
    let tau = token.epoch;
    let ghost tau0 = token.epoch;
    let mut out: Vec<(EntityId, Component)> = Vec::new();
    let mut a: usize = 0;
    while a < world.archetypes.len()
        invariant
            a <= world.archetypes@.len(),
            world.wf(),
            tau == tau0,
            out@ == modified_upto(*world, ty, tau0, a as int),
        decreases world.archetypes@.len() - a,
    {
        proof {
            assert(world.archetypes@[a as int].wf());
        }
        match world.archetypes[a].find_col(ty) {
            Some(c) => {
                let rows = world.archetypes[a].entities.len();
                let mut r: usize = 0;
                while r < rows
                    invariant
                        r <= rows,
                        a < world.archetypes@.len(),
                        world.wf(),
                        tau == tau0,
                        rows == world.archetypes@[a as int].rows(),
                        c < world.archetypes@[a as int].columns@.len(),
                        c as int == world.archetypes@[a as int].col_idx(ty),
                        world.archetypes@[a as int].has_ty(ty),
                        out@ == modified_upto(*world, ty, tau0, a as int) + arch_modified_upto(
                            world.archetypes@[a as int],
                            ty,
                            tau0,
                            r as int,
                        ),
                    decreases rows - r,
                {
                    proof {
                        assert(world.archetypes@[a as int].wf());
                        assert(world.archetypes@[a as int].columns@[c as int].wf());
                    }
                    if world.archetypes[a].columns[c].epochs[r] > tau {
                        out.push(
                            (
                                world.archetypes[a].entities[r],
                                world.archetypes[a].columns[c].values[r].duplicate(),
                            ),
                        );
                    }
                    proof {
                        assert(out@ == modified_upto(*world, ty, tau0, a as int)
                            + arch_modified_upto(
                            world.archetypes@[a as int],
                            ty,
                            tau0,
                            r + 1 as int,
                        ));
                    }
                    r = r + 1;
                }
                proof {
                    assert(arch_modified(world.archetypes@[a as int], ty, tau0)
                        == arch_modified_upto(
                        world.archetypes@[a as int],
                        ty,
                        tau0,
                        rows as int,
                    ));
                    assert(out@ == modified_upto(*world, ty, tau0, a + 1 as int));
                }
            },
            None => {
                proof {
                    assert(arch_modified(world.archetypes@[a as int], ty, tau0) == Seq::<
                        (EntityId, Component),
                    >::empty());
                    assert(out@ =~= modified_upto(*world, ty, tau0, a + 1 as int));
                }
            },
        }
        a = a + 1;
    }
    token.epoch = world.epoch;
    Ok(out)
}

/// A change-tracking query yields an entity's pair whenever its cell of
/// the type was written after the token.
pub proof fn lemma_modified_complete(w: World, ty: u32, tau: u64, e: EntityId)
    requires
        w.wf(),
        w.has_c(e, ty),
        w.epoch_at(e, ty) > tau,
    ensures
        modified_view(w, ty, tau).contains((e, w.comp_at(e, ty))),
{
    let a = w.arch_of(e);
    let r = w.row_of(e);
    assert(w.archetypes@[a].wf());
    lemma_arch_upto_contains(w.archetypes@[a], ty, tau, r, w.archetypes@[a].rows() as int);
    lemma_modified_upto_flat(w, ty, tau, a, w.archetypes@.len() as int, (e, w.comp_at(e, ty)));
}

/// Helper: row `r`'s pair occurs in the archetype's filtered rows.
proof fn lemma_arch_upto_contains(arch: Archetype, ty: u32, tau: u64, r: int, n: int)
    requires
        0 <= r < n,
        arch.cell_epoch(r, ty) > tau,
    ensures
        arch_modified_upto(arch, ty, tau, n).contains((arch.entities@[r], arch.cell(r, ty))),
    decreases n,
{
    if r == n - 1 {
        let s = arch_modified_upto(arch, ty, tau, n);
        assert(s[s.len() - 1] == (arch.entities@[r], arch.cell(r, ty)));
    } else {
        lemma_arch_upto_contains(arch, ty, tau, r, n - 1);
        let s0 = arch_modified_upto(arch, ty, tau, n - 1);
        let k = choose|k: int| 0 <= k < s0.len() && s0[k] == (arch.entities@[r], arch.cell(r, ty));
        assert(arch_modified_upto(arch, ty, tau, n)[k] == s0[k]);
    }
}

/// Helper: an archetype's contribution is contained in the flattening.
proof fn lemma_modified_upto_flat(
    w: World,
    ty: u32,
    tau: u64,
    a: int,
    n: int,
    p: (EntityId, Component),
)
    requires
        0 <= a < n <= w.archetypes@.len(),
        arch_modified(w.archetypes@[a], ty, tau).contains(p),
    ensures
        modified_upto(w, ty, tau, n).contains(p),
    decreases n,
{
    if a == n - 1 {
        let s0 = modified_upto(w, ty, tau, n - 1);
        let part = arch_modified(w.archetypes@[a], ty, tau);
        let k = choose|k: int| 0 <= k < part.len() && part[k] == p;
        assert(modified_upto(w, ty, tau, n)[s0.len() + k] == p);
    } else {
        lemma_modified_upto_flat(w, ty, tau, a, n - 1, p);
        let s0 = modified_upto(w, ty, tau, n - 1);
        let k = choose|k: int| 0 <= k < s0.len() && s0[k] == p;
        assert(modified_upto(w, ty, tau, n)[k] == p);
    }
}

/// Every pair a change-tracking query yields belongs to a live entity
/// that carries the component, holds exactly the stored value, and was
/// written after the token.
pub proof fn lemma_modified_sound(w: World, ty: u32, tau: u64, p: (EntityId, Component))
    requires
        w.wf(),
        modified_view(w, ty, tau).contains(p),
    ensures
        w.has_c(p.0, ty),
        p.1 == w.comp_at(p.0, ty),
        w.epoch_at(p.0, ty) > tau,
{
    lemma_modified_sound_upto(w, ty, tau, w.archetypes@.len() as int, p);
}

/// Helper: soundness over a prefix of the archetypes.
proof fn lemma_modified_sound_upto(w: World, ty: u32, tau: u64, n: int, p: (EntityId, Component))
    requires
        w.wf(),
        n <= w.archetypes@.len(),
        modified_upto(w, ty, tau, n).contains(p),
    ensures
        w.has_c(p.0, ty),
        p.1 == w.comp_at(p.0, ty),
        w.epoch_at(p.0, ty) > tau,
    decreases n,
{
    let s0 = modified_upto(w, ty, tau, n - 1);
    let part = arch_modified(w.archetypes@[n - 1], ty, tau);
    let k = choose|k: int|
        0 <= k < modified_upto(w, ty, tau, n).len() && modified_upto(w, ty, tau, n)[k] == p;
    if k < s0.len() {
        assert(s0[k] == p);
        lemma_modified_sound_upto(w, ty, tau, n - 1, p);
    } else {
        assert(part[k - s0.len()] == p);
        let arch = w.archetypes@[n - 1];
        assert(arch.has_ty(ty));
        lemma_arch_sound_upto(arch, ty, tau, arch.rows() as int, p);
        let r = choose|r: int|
            0 <= r < arch.rows() && (#[trigger] arch.entities@[r]) == p.0 && arch.cell(r, ty)
                == p.1 && arch.cell_epoch(r, ty) > tau;
        assert(w.slots@[p.0.index as int].loc == crate::world::Loc::Row(
            (n - 1) as usize,
            r as usize,
        ));
        assert(w.arch_of(p.0) == n - 1);
        assert(w.row_of(p.0) == r);
    }
}

/// Helper: soundness of one archetype's filtered rows.
proof fn lemma_arch_sound_upto(arch: Archetype, ty: u32, tau: u64, n: int, p: (EntityId, Component))
    requires
        arch.wf(),
        arch.has_ty(ty),
        n <= arch.rows(),
        arch_modified_upto(arch, ty, tau, n).contains(p),
    ensures
        exists|r: int|
            0 <= r < arch.rows() && (#[trigger] arch.entities@[r]) == p.0 && arch.cell(r, ty)
                == p.1 && arch.cell_epoch(r, ty) > tau,
    decreases n,
{
    let s0 = arch_modified_upto(arch, ty, tau, n - 1);
    let k = choose|k: int|
        0 <= k < arch_modified_upto(arch, ty, tau, n).len() && arch_modified_upto(
            arch,
            ty,
            tau,
            n,
        )[k] == p;
    if k < s0.len() {
        assert(s0[k] == p);
        lemma_arch_sound_upto(arch, ty, tau, n - 1, p);
    } else {
        assert(arch.cell_epoch(n - 1, ty) > tau);
        assert(p == (arch.entities@[n - 1], arch.cell(n - 1, ty)));
        assert(0 <= n - 1 < arch.rows() && arch.entities@[n - 1] == p.0 && arch.cell(n - 1, ty)
            == p.1 && arch.cell_epoch(n - 1, ty) > tau);
    }
}

/// A token that has caught up with the world epoch sees nothing: a
/// change-tracking query re-run without an intervening write yields no
/// entity again.
pub proof fn lemma_tracked_quiescent(w: World, ty: u32)
    requires
        w.wf(),
    ensures
        modified_view(w, ty, w.epoch).len() == 0,
{
    lemma_quiescent_upto(w, ty, w.archetypes@.len() as int);
}

/// Helper: no archetype contributes at the current epoch.
proof fn lemma_quiescent_upto(w: World, ty: u32, n: int)
    requires
        w.wf(),
        n <= w.archetypes@.len(),
    ensures
        modified_upto(w, ty, w.epoch, n).len() == 0,
    decreases n,
{
    if n > 0 {
        lemma_quiescent_upto(w, ty, n - 1);
        let arch = w.archetypes@[n - 1];
        assert(arch.wf());
        if arch.has_ty(ty) {
            lemma_arch_quiescent_upto(w, arch, ty, arch.rows() as int);
        }
    }
}

/// One term of a query.
#[derive(Clone, Copy, Debug, PartialEq, Eq, Structural)]
pub enum Term {
    /// Reads the component; skips entities without it.
    Read(u32),
    /// Writes the component; skips entities without it.
    Write(u32),
    /// Reads the component and yields it by value.
    Copied(u32),
    /// Yields the entity id; skips nothing.
    Entities,
    /// Reads the component where present, yields nothing where absent.
    OptRead(u32),
    /// Reads the component; skips entities whose cell was not written
    /// after the query's token.
    Modified(u32),
    /// Pure filter: keeps entities carrying the type.
    With(u32),
    /// Pure filter: keeps entities not carrying the type.
    Without(u32),
    /// Pure filter: keeps entities that do not relate to the target
    /// through the relation type.
    NotRelatesTo(u32, EntityId),
}

/// The access a term declares: the type it touches and whether it
/// writes.
pub open spec fn term_access(t: Term) -> Option<(u32, bool)> {
    match t {
        Term::Read(ty) => Some((ty, false)),
        Term::Write(ty) => Some((ty, true)),
        Term::Copied(ty) => Some((ty, false)),
        Term::Entities => None,
        Term::OptRead(ty) => Some((ty, false)),
        Term::Modified(ty) => Some((ty, false)),
        Term::With(_) => None,
        Term::Without(_) => None,
        Term::NotRelatesTo(rel, _) => Some((rel, false)),
    }
}

/// Whether the term lets the query visit the archetype at all.
pub open spec fn term_visits(t: Term, arch: Archetype) -> bool {
    match t {
        Term::Read(ty) => arch.has_ty(ty),
        Term::Write(ty) => arch.has_ty(ty),
        Term::Copied(ty) => arch.has_ty(ty),
        Term::Modified(ty) => arch.has_ty(ty),
        _ => true,
    }
}

/// Whether the query visits the archetype: every term accepts it.
pub open spec fn arch_visited(w: World, terms: Seq<Term>, a: int) -> bool {
    forall|t: int| 0 <= t < terms.len() ==> term_visits(#[trigger] terms[t], w.archetypes@[a])
}

/// Whether the query needs a borrow on column `c` of archetype `a`,
/// and in which mode.
pub open spec fn lock_needed(w: World, terms: Seq<Term>, a: int, c: int, wr: bool) -> bool {
    &&& 0 <= a < w.archetypes@.len()
    &&& arch_visited(w, terms, a)
    &&& 0 <= c < w.archetypes@[a].signature@.len()
    &&& exists|t: int|
        0 <= t < terms.len() && term_access(#[trigger] terms[t]) == Some(
            (w.archetypes@[a].signature@[c], wr),
        )
}

/// Whether the query is invalid in itself: two of its terms access one
/// type and at least one of them writes.
pub open spec fn self_conflict(terms: Seq<Term>) -> bool {
    exists|t1: int, t2: int|
        0 <= t1 < terms.len() && 0 <= t2 < terms.len() && t1 != t2 && match (
            term_access(#[trigger] terms[t1]),
            term_access(#[trigger] terms[t2]),
        ) {
            (Some((ty1, w1)), Some((ty2, w2))) => ty1 == ty2 && (w1 || w2),
            _ => false,
        }
}

/// Whether every borrow the query needs can be taken: a write needs the
/// column free, a read needs it free or below the reader bound.
pub open spec fn lock_available(w: World, terms: Seq<Term>) -> bool {
    forall|a: int, c: int, wr: bool|
        #![trigger lock_needed(w, terms, a, c, wr)]
        lock_needed(w, terms, a, c, wr) ==> {
            let st = w.archetypes@[a].columns@[c].state;
            if wr {
                st == Shared::Free
            } else {
                st == Shared::Free || (st is Readers && st->Readers_0 < u32::MAX)
            }
        }
}

/// One borrow a lock holds.
#[derive(Clone, Copy, Debug, PartialEq, Eq, Structural)]
pub struct LockEntry {
    /// The archetype index.
    pub arch: usize,
    /// The column index within the archetype.
    pub col: usize,
    /// Whether the borrow is exclusive.
    pub write: bool,
}

/// A query: its terms, in item order. No borrow is taken yet.
pub struct QueryRef {
    /// The terms.
    pub terms: Vec<Term>,
}

impl QueryRef {
    /// Builds a query from its terms.
    pub fn new(terms: Vec<Term>) -> (q: QueryRef)
        ensures
            q.terms == terms,
    {
        QueryRef { terms }
    }
}

impl World {
    /// Builds a query over this world from its terms; no borrow is
    /// taken yet.
    pub fn query(&self, terms: Vec<Term>) -> (q: QueryRef)
        ensures
            q.terms == terms,
    {
        QueryRef::new(terms)
    }
}

/// The borrows one query holds on the world's columns, until released.
pub struct QueryLock {
    /// The held borrows, one per column, no column twice.
    pub entries: Vec<LockEntry>,
}

impl QueryLock {
    /// A lock that is actually held against the world: its entries name
    /// distinct, existing columns, and each named column's state shows
    /// the borrow (exclusive for a write, readers for a read).
    pub open spec fn held(self, w: World) -> bool {
        &&& forall|k: int, m: int|
            0 <= k < m < self.entries@.len() ==> !((#[trigger] self.entries@[k]).arch == (
            #[trigger] self.entries@[m]).arch && self.entries@[k].col == self.entries@[m].col)
        &&& forall|k: int|
            0 <= k < self.entries@.len() ==> {
                let en = #[trigger] self.entries@[k];
                &&& (en.arch as int) < w.archetypes@.len()
                &&& (en.col as int) < w.archetypes@[en.arch as int].columns@.len()
                &&& (en.write ==> w.archetypes@[en.arch as int].columns@[en.col as int].state
                    == Shared::Exclusive)
                &&& (!en.write ==> w.archetypes@[en.arch as int].columns@[en.col as int].state
                    is Readers)
            }
    }
}

/// Both worlds agree on everything but the runtime borrow states of
/// their columns.
pub open spec fn same_but_states(w0: World, w1: World) -> bool {
    &&& w1.slots == w0.slots
    &&& w1.epoch == w0.epoch
    &&& w1.types == w0.types
    &&& w1.resources == w0.resources
    &&& w1.archetypes@.len() == w0.archetypes@.len()
    &&& forall|a: int|
        0 <= a < w0.archetypes@.len() ==> {
            &&& (#[trigger] w1.archetypes@[a]).signature == w0.archetypes@[a].signature
            &&& w1.archetypes@[a].entities == w0.archetypes@[a].entities
            &&& w1.archetypes@[a].columns@.len() == w0.archetypes@[a].columns@.len()
            &&& forall|c: int|
                0 <= c < w0.archetypes@[a].columns@.len() ==> {
                    &&& (#[trigger] w1.archetypes@[a].columns@[c]).ty
                        == w0.archetypes@[a].columns@[c].ty
                    &&& w1.archetypes@[a].columns@[c].values == w0.archetypes@[a].columns@[c].values
                    &&& w1.archetypes@[a].columns@[c].epochs == w0.archetypes@[a].columns@[c].epochs
                    &&& w1.archetypes@[a].columns@[c].max_epoch
                        == w0.archetypes@[a].columns@[c].max_epoch
                }
        }
}

/// A world that differs from a consistent one only in borrow states,
/// each of them well formed, is itself consistent.
proof fn lemma_wf_state_only(w0: World, w1: World)
    requires
        w0.wf(),
        same_but_states(w0, w1),
        forall|a: int, c: int|
            0 <= a < w1.archetypes@.len() && 0 <= c < w1.archetypes@[a].columns@.len() ==> match (
            #[trigger] w1.archetypes@[a].columns@[c]).state {
                Shared::Readers(n) => n >= 1,
                _ => true,
            },
    ensures
        w1.wf(),
{
    assert forall|a: int| 0 <= a < w1.archetypes@.len() implies {
        let arch = #[trigger] w1.archetypes@[a];
        arch.wf() && forall|c: int|
            0 <= c < arch.columns@.len() ==> (#[trigger] arch.columns@[c]).max_epoch <= w1.epoch
    } by {
        assert(w0.archetypes@[a].wf());
        let arch = w1.archetypes@[a];
        assert forall|c: int| 0 <= c < arch.columns@.len() implies {
            let col = #[trigger] arch.columns@[c];
            col.ty == arch.signature@[c] && col.wf() && col.len() == arch.rows()
        } by {
            assert(w0.archetypes@[a].columns@[c].wf());
        }
    }
    assert(w1.signatures_unique()) by {
        assert forall|a1: int, a2: int|
            0 <= a1 < w1.archetypes@.len() && 0 <= a2 < w1.archetypes@.len() && a1 != a2 implies (
        #[trigger] w1.archetypes@[a1]).sig() != (#[trigger] w1.archetypes@[a2]).sig() by {
            assert(w1.archetypes@[a1].sig() == w0.archetypes@[a1].sig());
            assert(w1.archetypes@[a2].sig() == w0.archetypes@[a2].sig());
        }
    }
    assert(w1.directory_consistent()) by {
        assert forall|i: int| 0 <= i < w1.slots@.len() implies {
            let s = #[trigger] w1.slots@[i];
            s.generation >= 1 && match s.loc {
                crate::world::Loc::Vacant => true,
                crate::world::Loc::Reserved => s.generation < u32::MAX,
                crate::world::Loc::Row(a, r) => {
                    &&& s.generation < u32::MAX
                    &&& (a as int) < w1.archetypes@.len()
                    &&& (r as int) < w1.archetypes@[a as int].entities@.len()
                    &&& w1.archetypes@[a as int].entities@[r as int] == (EntityId {
                        index: i as u32,
                        generation: s.generation,
                    })
                },
            }
        } by {
            assert(w1.slots@[i] == w0.slots@[i]);
            match w0.slots@[i].loc {
                crate::world::Loc::Row(a, r) => {
                    assert(w1.archetypes@[a as int].entities@ == w0.archetypes@[
                        a as int
                    ].entities@);
                },
                _ => {},
            }
        }
    }
    assert(w1.rows_backed()) by {
        assert forall|a: int, r: int|
            0 <= a < w1.archetypes@.len() && 0 <= r < w1.archetypes@[a].entities@.len() implies {
            let e = #[trigger] w1.archetypes@[a].entities@[r];
            &&& e.index < w1.slots@.len()
            &&& w1.slots@[e.index as int].generation == e.generation
            &&& w1.slots@[e.index as int].loc == crate::world::Loc::Row(a as usize, r as usize)
        } by {
            assert(w1.archetypes@[a].entities@[r] == w0.archetypes@[a].entities@[r]);
        }
    }
    assert forall|a: int|
        0 <= a < w1.archetypes@.len() implies (#[trigger] w1.archetypes@[a]).entities@.len()
        <= usize::MAX as nat by {
        assert(w0.archetypes@[a].entities@.len() <= usize::MAX as nat);
    }
}

/// Whether asking for the query's borrows off the main thread violates
/// a registered descriptor: writing a non-send type or reading a
/// non-sync type is main-thread work.
/// Whether one term's access may not be taken off the main thread
/// against the descriptor: it writes a non-send type or reads a
/// non-sync type.
pub open spec fn term_thread_bad(t: Term, info: crate::component::TypeInfo) -> bool {
    match term_access(t) {
        Some((ty, wr)) => info.ty == ty && (if wr {
            info.non_send
        } else {
            info.non_sync
        }),
        None => false,
    }
}

pub open spec fn thread_violation(w: World, terms: Seq<Term>, on_main: bool) -> bool {
    !on_main && exists|t: int, i: int|
        #![trigger terms[t], w.types@[i]]
        0 <= t < terms.len() && 0 <= i < w.types@.len() && term_thread_bad(terms[t], w.types@[i])
}

/// The access a term declares.
pub fn t_access(t: &Term) -> (r: Option<(u32, bool)>)
    ensures
        r == term_access(*t),
{
    match t {
        Term::Read(ty) => Some((*ty, false)),
        Term::Write(ty) => Some((*ty, true)),
        Term::Copied(ty) => Some((*ty, false)),
        Term::Entities => None,
        Term::OptRead(ty) => Some((*ty, false)),
        Term::Modified(ty) => Some((*ty, false)),
        Term::With(_) => None,
        Term::Without(_) => None,
        Term::NotRelatesTo(rel, _) => Some((*rel, false)),
    }
}

/// Whether the term lets the query visit the archetype.
pub fn t_visits(t: &Term, arch: &Archetype) -> (r: bool)
    requires
        arch.wf(),
    ensures
        r == term_visits(*t, *arch),
{
    match t {
        Term::Read(ty) => arch.find_col(*ty).is_some(),
        Term::Write(ty) => arch.find_col(*ty).is_some(),
        Term::Copied(ty) => arch.find_col(*ty).is_some(),
        Term::Modified(ty) => arch.find_col(*ty).is_some(),
        _ => true,
    }
}

/// Whether the query visits the archetype.
fn visits_all(terms: &Vec<Term>, arch: &Archetype) -> (r: bool)
    requires
        arch.wf(),
    ensures
        r == (forall|t: int|
            0 <= t < terms@.len() ==> term_visits(#[trigger] terms@[t], *arch)),
{
    let mut t: usize = 0;
    while t < terms.len()
        invariant
            t <= terms@.len(),
            arch.wf(),
            forall|k: int| 0 <= k < t ==> term_visits(#[trigger] terms@[k], *arch),
        decreases terms@.len() - t,
    {
        if !t_visits(&terms[t], arch) {
            return false;
        }
        t = t + 1;
    }
    true
}

/// Whether a lock already holds an entry for the column.
fn holds_col(entries: &Vec<LockEntry>, a: usize, c: usize) -> (r: bool)
    ensures
        r == exists|k: int|
            0 <= k < entries@.len() && (#[trigger] entries@[k]).arch == a && entries@[k].col == c,
{
    let mut k: usize = 0;
    while k < entries.len()
        invariant
            k <= entries@.len(),
            forall|m: int|
                0 <= m < k ==> !((#[trigger] entries@[m]).arch == a && entries@[m].col == c),
        decreases entries@.len() - k,
    {
        if entries[k].arch == a && entries[k].col == c {
            proof {
                assert((entries@[k as int]).arch == a && entries@[k as int].col == c);
            }
            return true;
        }
        k = k + 1;
    }
    false
}

/// Takes the borrows a query needs, column by column: writes mark the
/// column exclusive, reads raise its reader count. Nothing is taken
/// unless everything can be: an invalid query (two of its accesses
/// conflict), a main-thread violation, or an unavailable column leaves
/// the world exactly as it was.
pub fn try_lock_from(world: &mut World, q: &QueryRef, on_main: bool) -> (r: Result<
    QueryLock,
    QueryError,
>)
    requires
        old(world).wf(),
    ensures
        final(world).wf(),
        r is Err ==> *final(world) == *old(world),
        r is Ok <==> !self_conflict(q.terms@) && !thread_violation(*old(world), q.terms@, on_main)
            && lock_available(*old(world), q.terms@),
        r == Result::<QueryLock, QueryError>::Err(QueryError::NotMainThread) <==> !self_conflict(
            q.terms@,
        ) && thread_violation(*old(world), q.terms@, on_main),
        r is Ok ==> {
            let lock = r->Ok_0;
            &&& same_but_states(*old(world), *final(world))
            &&& lock.held(*final(world))
            &&& forall|k: int|
                0 <= k < lock.entries@.len() ==> lock_needed(
                    *old(world),
                    q.terms@,
                    (#[trigger] lock.entries@[k]).arch as int,
                    lock.entries@[k].col as int,
                    lock.entries@[k].write,
                )
            &&& forall|a: int, c: int, wr: bool|
                #![trigger lock_needed(*old(world), q.terms@, a, c, wr)]
                lock_needed(*old(world), q.terms@, a, c, wr) ==> exists|k: int|
                    0 <= k < lock.entries@.len() && (#[trigger] lock.entries@[k]).arch as int == a
                        && lock.entries@[k].col as int == c && lock.entries@[k].write == wr
            &&& forall|a: int, c: int, wr: bool|
                #![trigger lock_needed(*old(world), q.terms@, a, c, wr)]
                lock_needed(*old(world), q.terms@, a, c, wr) ==> (if wr {
                    final(world).archetypes@[a].columns@[c].state == Shared::Exclusive
                } else {
                    final(world).archetypes@[a].columns@[c].state is Readers
                })
            &&& forall|a: int, c: int, wr: bool|
                #![trigger lock_needed(*old(world), q.terms@, a, c, wr)]
                lock_needed(*old(world), q.terms@, a, c, wr) && !wr ==> {
                    let st0 = old(world).archetypes@[a].columns@[c].state;
                    let st1 = final(world).archetypes@[a].columns@[c].state;
                    &&& (st0 == Shared::Free ==> st1 == Shared::Readers(1u32))
                    &&& (st0 is Readers ==> st1 == Shared::Readers((st0->Readers_0 + 1) as u32))
                }
            &&& forall|a: int, c: int|
                0 <= a < old(world).archetypes@.len() && 0 <= c
                    < old(world).archetypes@[a].columns@.len() && !lock_needed(
                    *old(world),
                    q.terms@,
                    a,
                    c,
                    true,
                ) && !lock_needed(*old(world), q.terms@, a, c, false)
                    ==> (#[trigger] final(world).archetypes@[a].columns@[c]).state
                    == old(world).archetypes@[a].columns@[c].state
        },
{
    let nterms = q.terms.len();
    let mut t1: usize = 0;
    while t1 < nterms
        invariant
            t1 <= nterms,
            nterms == q.terms@.len(),
            *world == *old(world),
            old(world).wf(),
            forall|x: int, y: int|
                0 <= x < t1 && 0 <= y < nterms && x != y ==> match (
                    term_access(#[trigger] q.terms@[x]),
                    term_access(#[trigger] q.terms@[y]),
                ) {
                    (Some((ty1, w1)), Some((ty2, w2))) => !(ty1 == ty2 && (w1 || w2)),
                    _ => true,
                },
        decreases nterms - t1,
    {
        let a1 = t_access(&q.terms[t1]);
        let mut t2: usize = 0;
        while t2 < nterms
            invariant
                t1 < nterms,
                t2 <= nterms,
                nterms == q.terms@.len(),
                *world == *old(world),
                old(world).wf(),
                a1 == term_access(q.terms@[t1 as int]),
                forall|y: int|
                    0 <= y < t2 && y != t1 as int ==> match (
                        term_access(q.terms@[t1 as int]),
                        term_access(#[trigger] q.terms@[y]),
                    ) {
                        (Some((ty1, w1)), Some((ty2, w2))) => !(ty1 == ty2 && (w1 || w2)),
                        _ => true,
                    },
            decreases nterms - t2,
        {
            if t2 != t1 {
                let a2 = t_access(&q.terms[t2]);
                match (a1, a2) {
                    (Some((ty1, w1)), Some((ty2, w2))) => {
                        if ty1 == ty2 && (w1 || w2) {
                            proof {
                                assert(self_conflict(q.terms@));
                            }
                            return Err(QueryError::BorrowConflict);
                        }
                    },
                    _ => {},
                }
            }
            t2 = t2 + 1;
        }
        t1 = t1 + 1;
    }
    proof {
        assert(!self_conflict(q.terms@));
    }
    if !on_main {
        let mut t: usize = 0;
        while t < nterms
            invariant
                t <= nterms,
                nterms == q.terms@.len(),
                *world == *old(world),
                old(world).wf(),
                !self_conflict(q.terms@),
                !on_main,
                forall|x: int, i: int|
                    #![trigger q.terms@[x], world.types@[i]]
                    0 <= x < t && 0 <= i < world.types@.len() ==> !term_thread_bad(
                        q.terms@[x],
                        world.types@[i],
                    ),
            decreases nterms - t,
        {
            match t_access(&q.terms[t]) {
                Some((ty, wr)) => {
                    let mut i: usize = 0;
                    while i < world.types.len()
                        invariant
                            t < nterms,
                            nterms == q.terms@.len(),
                            i <= world.types@.len(),
                            *world == *old(world),
                            old(world).wf(),
                            !on_main,
                            !self_conflict(q.terms@),
                            Some((ty, wr)) == term_access(q.terms@[t as int]),
                            forall|m: int|
                                0 <= m < i ==> !term_thread_bad(
                                    q.terms@[t as int],
                                    #[trigger] world.types@[m],
                                ),
                        decreases world.types@.len() - i,
                    {
                        let info = world.types[i];
                        if info.ty == ty && (if wr {
                            info.non_send
                        } else {
                            info.non_sync
                        }) {
                            proof {
                                assert(term_access(q.terms@[t as int]) == Some((ty, wr)));
                                assert(term_thread_bad(
                                    q.terms@[t as int],
                                    old(world).types@[i as int],
                                ));
                                assert(thread_violation(*old(world), q.terms@, on_main));
                            }
                            return Err(QueryError::NotMainThread);
                        }
                        i = i + 1;
                    }
                },
                None => {},
            }
            t = t + 1;
        }
        proof {
            assert(!thread_violation(*old(world), q.terms@, on_main)) by {
                if thread_violation(*old(world), q.terms@, on_main) {
                    let (t2, i2) = choose|t2: int, i2: int|
                        #![trigger q.terms@[t2], old(world).types@[i2]]
                        0 <= t2 < q.terms@.len() && 0 <= i2 < old(world).types@.len()
                            && term_thread_bad(q.terms@[t2], old(world).types@[i2]);
                    assert(false);
                }
            }
        }
    }
    proof {
        assert(!thread_violation(*old(world), q.terms@, on_main));
    }
    let narch = world.archetypes.len();
    let mut entries: Vec<LockEntry> = Vec::new();
    let mut a: usize = 0;
    while a < narch
        invariant
            a <= narch,
            narch == world.archetypes@.len(),
            *world == *old(world),
            old(world).wf(),
            !self_conflict(q.terms@),
            forall|k: int, m: int|
                0 <= k < m < entries@.len() ==> !((#[trigger] entries@[k]).arch == (
                #[trigger] entries@[m]).arch && entries@[k].col == entries@[m].col),
            forall|k: int|
                0 <= k < entries@.len() ==> lock_needed(
                    *world,
                    q.terms@,
                    (#[trigger] entries@[k]).arch as int,
                    entries@[k].col as int,
                    entries@[k].write,
                ) && entries@[k].arch < a,
            forall|a2: int, c2: int, wr2: bool|
                #![trigger lock_needed(*world, q.terms@, a2, c2, wr2)]
                lock_needed(*world, q.terms@, a2, c2, wr2) && a2 < a ==> exists|k: int|
                    0 <= k < entries@.len() && (#[trigger] entries@[k]).arch as int == a2
                        && entries@[k].col as int == c2 && entries@[k].write == wr2,
        decreases narch - a,
    {
        proof {
            assert(world.archetypes@[a as int].wf());
        }
        let visited = visits_all(&q.terms, &world.archetypes[a]);
        if visited {
            let mut t: usize = 0;
            while t < q.terms.len()
                invariant
                    a < narch,
                    narch == world.archetypes@.len(),
                    t <= q.terms@.len(),
                    *world == *old(world),
                    old(world).wf(),
                    !self_conflict(q.terms@),
                    arch_visited(*world, q.terms@, a as int),
                    forall|k: int, m: int|
                        0 <= k < m < entries@.len() ==> !((#[trigger] entries@[k]).arch == (
                        #[trigger] entries@[m]).arch && entries@[k].col == entries@[m].col),
                    forall|k: int|
                        0 <= k < entries@.len() ==> lock_needed(
                            *world,
                            q.terms@,
                            (#[trigger] entries@[k]).arch as int,
                            entries@[k].col as int,
                            entries@[k].write,
                        ) && entries@[k].arch <= a,
                    forall|a2: int, c2: int, wr2: bool|
                        #![trigger lock_needed(*world, q.terms@, a2, c2, wr2)]
                        lock_needed(*world, q.terms@, a2, c2, wr2) && a2 < a ==> exists|k: int|
                            0 <= k < entries@.len() && (#[trigger] entries@[k]).arch as int == a2
                                && entries@[k].col as int == c2 && entries@[k].write == wr2,
                    forall|c2: int, wr2: bool|
                        #![trigger lock_needed(*world, q.terms@, a as int, c2, wr2)]
                        lock_needed(*world, q.terms@, a as int, c2, wr2) && (exists|x: int|
                            0 <= x < t && term_access(#[trigger] q.terms@[x]) == Some(
                                (world.archetypes@[a as int].signature@[c2], wr2),
                            )) ==> exists|k: int|
                            0 <= k < entries@.len() && (#[trigger] entries@[k]).arch as int
                                == a as int && entries@[k].col as int == c2 && entries@[k].write
                                == wr2,
                decreases q.terms@.len() - t,
            {
                let ghost entries0 = entries@;
                let acc = t_access(&q.terms[t]);
                match acc {
                    Some((ty, wr)) => {
                        proof {
                            assert(world.archetypes@[a as int].wf());
                        }
                        match world.archetypes[a].find_col(ty) {
                            Some(c) => {
                                if !holds_col(&entries, a, c) {
                                    entries.push(LockEntry { arch: a, col: c, write: wr });
                                    proof {
                                        assert(entries@[entries@.len() - 1] == (LockEntry {
                                            arch: a,
                                            col: c,
                                            write: wr,
                                        }));
                                        assert(term_access(q.terms@[t as int]) == Some((ty, wr)));
                                        assert(lock_needed(
                                            *world,
                                            q.terms@,
                                            a as int,
                                            c as int,
                                            wr,
                                        ));
                                    }
                                } else {
                                    proof {
                                        let k = choose|k: int|
                                            0 <= k < entries@.len() && (#[trigger] entries@[
                                                k
                                            ]).arch == a && entries@[k].col == c;
                                        assert(lock_needed(
                                            *world,
                                            q.terms@,
                                            a as int,
                                            c as int,
                                            entries@[k].write,
                                        ));
                                    }
                                }
                            },
                            None => {},
                        }
                    },
                    None => {},
                }
                proof {
                    let ghost sig = world.archetypes@[a as int].signature@;
                    assert forall|a2: int, c2: int, wr2: bool|
                        #![trigger lock_needed(*world, q.terms@, a2, c2, wr2)]
                        lock_needed(*world, q.terms@, a2, c2, wr2) && a2 < a implies exists|k: int|
                        0 <= k < entries@.len() && (#[trigger] entries@[k]).arch as int == a2
                            && entries@[k].col as int == c2 && entries@[k].write == wr2 by {
                        let k = choose|k: int|
                            0 <= k < entries0.len() && (#[trigger] entries0[k]).arch as int == a2
                                && entries0[k].col as int == c2 && entries0[k].write == wr2;
                        assert(entries@[k] == entries0[k]);
                    }
                    assert forall|c2: int, wr2: bool|
                        lock_needed(*world, q.terms@, a as int, c2, wr2) && (exists|x: int|
                            0 <= x < t + 1 && term_access(#[trigger] q.terms@[x]) == Some(
                                (sig[c2], wr2),
                            )) implies exists|k: int|
                        0 <= k < entries@.len() && (#[trigger] entries@[k]).arch as int == a as int
                            && entries@[k].col as int == c2 && entries@[k].write == wr2 by {
                        let x = choose|x: int|
                            0 <= x < t + 1 && term_access(#[trigger] q.terms@[x]) == Some(
                                (sig[c2], wr2),
                            );
                        if x < t {
                            let k = choose|k: int|
                                0 <= k < entries0.len() && (#[trigger] entries0[k]).arch as int
                                    == a as int && entries0[k].col as int == c2 && entries0[
                                    k
                                ].write == wr2;
                            assert(entries@[k] == entries0[k]);
                        } else {
                            assert(term_access(q.terms@[t as int]) == Some((sig[c2], wr2)));
                            match acc {
                                Some((ty, wr)) => {
                                    assert(ty == sig[c2] && wr == wr2);
                                    assert(sig.contains(sig[c2]));
                                    assert(world.archetypes@[a as int].has_ty(ty));
                                    let c = world.archetypes@[a as int].col_idx(ty);
                                    crate::archetype::lemma_strict_sorted_unique(sig, c, c2);
                                    let k = choose|k: int|
                                        0 <= k < entries@.len() && (#[trigger] entries@[k]).arch
                                            == a && entries@[k].col as int == c2;
                                    assert(lock_needed(
                                        *world,
                                        q.terms@,
                                        a as int,
                                        c2,
                                        entries@[k].write,
                                    ));
                                    assert(entries@[k].write == wr2) by {
                                        if entries@[k].write != wr2 {
                                            let t2 = choose|t2: int|
                                                0 <= t2 < q.terms@.len() && term_access(
                                                    #[trigger] q.terms@[t2],
                                                ) == Some((sig[c2], entries@[k].write));
                                            assert(t2 != x);
                                            assert(self_conflict(q.terms@));
                                        }
                                    }
                                },
                                None => {
                                    assert(false);
                                },
                            }
                        }
                    }
                }
                t = t + 1;
            }
        }
        proof {
            assert forall|a2: int, c2: int, wr2: bool|
                lock_needed(*world, q.terms@, a2, c2, wr2) && a2 < a + 1 implies exists|k: int|
                0 <= k < entries@.len() && (#[trigger] entries@[k]).arch as int == a2 && entries@[
                    k
                ].col as int == c2 && entries@[k].write == wr2 by {
                if a2 == a as int {
                    if visited {
                        let t2 = choose|t2: int|
                            0 <= t2 < q.terms@.len() && term_access(#[trigger] q.terms@[t2])
                                == Some((world.archetypes@[a2].signature@[c2], wr2));
                        assert(lock_needed(*world, q.terms@, a as int, c2, wr2));
                    } else {
                        assert(!arch_visited(*world, q.terms@, a2));
                    }
                }
            }
        }
        a = a + 1;
    }
    let nentries = entries.len();
    let mut k: usize = 0;
    while k < nentries
        invariant
            k <= nentries,
            nentries == entries@.len(),
            *world == *old(world),
            old(world).wf(),
            !self_conflict(q.terms@),
            !thread_violation(*old(world), q.terms@, on_main),
            forall|m: int|
                0 <= m < nentries ==> lock_needed(
                    *world,
                    q.terms@,
                    (#[trigger] entries@[m]).arch as int,
                    entries@[m].col as int,
                    entries@[m].write,
                ),
            forall|m: int|
                0 <= m < k ==> {
                    let en = #[trigger] entries@[m];
                    let st = world.archetypes@[en.arch as int].columns@[en.col as int].state;
                    if en.write {
                        st == Shared::Free
                    } else {
                        st == Shared::Free || (st is Readers && st->Readers_0 < u32::MAX)
                    }
                },
        decreases nentries - k,
    {
        let en = entries[k];
        proof {
            assert(lock_needed(
                *world,
                q.terms@,
                en.arch as int,
                en.col as int,
                en.write,
            ));
            assert(world.archetypes@[en.arch as int].wf());
        }
        let st = world.archetypes[en.arch].columns[en.col].state;
        let ok = if en.write {
            matches!(st, Shared::Free)
        } else {
            match st {
                Shared::Free => true,
                Shared::Readers(n) => n < u32::MAX,
                Shared::Exclusive => false,
            }
        };
        if !ok {
            proof {
                assert(!lock_available(*world, q.terms@));
            }
            return Err(QueryError::BorrowConflict);
        }
        k = k + 1;
    }
    proof {
        assert(lock_available(*world, q.terms@)) by {
            assert forall|a2: int, c2: int, wr2: bool|
                #![trigger lock_needed(*world, q.terms@, a2, c2, wr2)]
                lock_needed(*world, q.terms@, a2, c2, wr2) implies {
                let st = world.archetypes@[a2].columns@[c2].state;
                if wr2 {
                    st == Shared::Free
                } else {
                    st == Shared::Free || (st is Readers && st->Readers_0 < u32::MAX)
                }
            } by {
                let k2 = choose|k2: int|
                    0 <= k2 < entries@.len() && (#[trigger] entries@[k2]).arch as int == a2
                        && entries@[k2].col as int == c2 && entries@[k2].write == wr2;
                assert(entries@[k2].arch as int == a2);
            }
        }
    }
    let ghost w1 = *world;
    let mut k: usize = 0;
    while k < nentries
        invariant
            k <= nentries,
            nentries == entries@.len(),
            world.wf(),
            w1 == *old(world),
            old(world).wf(),
            same_but_states(w1, *world),
            forall|k2: int, m: int|
                0 <= k2 < m < entries@.len() ==> !((#[trigger] entries@[k2]).arch == (
                #[trigger] entries@[m]).arch && entries@[k2].col == entries@[m].col),
            forall|m: int|
                0 <= m < nentries ==> lock_needed(
                    w1,
                    q.terms@,
                    (#[trigger] entries@[m]).arch as int,
                    entries@[m].col as int,
                    entries@[m].write,
                ),
            forall|m: int|
                0 <= m < nentries ==> {
                    let en = #[trigger] entries@[m];
                    let st = w1.archetypes@[en.arch as int].columns@[en.col as int].state;
                    if en.write {
                        st == Shared::Free
                    } else {
                        st == Shared::Free || (st is Readers && st->Readers_0 < u32::MAX)
                    }
                },
            forall|m: int|
                0 <= m < k ==> {
                    let en = #[trigger] entries@[m];
                    let st0 = w1.archetypes@[en.arch as int].columns@[en.col as int].state;
                    let st = world.archetypes@[en.arch as int].columns@[en.col as int].state;
                    if en.write {
                        st == Shared::Exclusive
                    } else {
                        &&& st is Readers
                        &&& (st0 == Shared::Free ==> st == Shared::Readers(1u32))
                        &&& (st0 is Readers ==> st == Shared::Readers((st0->Readers_0 + 1) as u32))
                    }
                },
            forall|a2: int, c2: int|
                0 <= a2 < world.archetypes@.len() && 0 <= c2
                    < world.archetypes@[a2].columns@.len() && !(exists|m: int|
                    0 <= m < k && (#[trigger] entries@[m]).arch as int == a2 && entries@[m].col
                        as int == c2) ==> (#[trigger] world.archetypes@[a2].columns@[c2]).state
                    == w1.archetypes@[a2].columns@[c2].state,
        decreases nentries - k,
    {
        let en = entries[k];
        proof {
            assert(lock_needed(w1, q.terms@, en.arch as int, en.col as int, en.write));
            assert(w1.archetypes@[en.arch as int].wf());
            assert(world.archetypes@[en.arch as int].columns@[en.col as int].state
                == w1.archetypes@[en.arch as int].columns@[en.col as int].state) by {
                if exists|m: int|
                    0 <= m < k && (#[trigger] entries@[m]).arch as int == en.arch as int
                        && entries@[m].col as int == en.col as int {
                    let m = choose|m: int|
                        0 <= m < k && (#[trigger] entries@[m]).arch as int == en.arch as int
                            && entries@[m].col as int == en.col as int;
                    assert(m < k as int && (k as int) < entries@.len());
                    assert(false);
                }
            }
        }
        let ghost wpre = *world;
        let col = &mut world.archetypes[en.arch].columns[en.col];
        let newst = if en.write {
            Shared::Exclusive
        } else {
            match col.state {
                Shared::Free => Shared::Readers(1),
                Shared::Readers(n) => Shared::Readers(n + 1),
                Shared::Exclusive => Shared::Exclusive,
            }
        };
        col.state = newst;
        proof {
            assert(same_but_states(w1, *world)) by {
                assert forall|a2: int| 0 <= a2 < w1.archetypes@.len() implies {
                    &&& (#[trigger] world.archetypes@[a2]).signature == w1.archetypes@[a2].signature
                    &&& world.archetypes@[a2].entities == w1.archetypes@[a2].entities
                    &&& world.archetypes@[a2].columns@.len() == w1.archetypes@[a2].columns@.len()
                    &&& forall|c2: int|
                        0 <= c2 < w1.archetypes@[a2].columns@.len() ==> {
                            &&& (#[trigger] world.archetypes@[a2].columns@[c2]).ty
                                == w1.archetypes@[a2].columns@[c2].ty
                            &&& world.archetypes@[a2].columns@[c2].values == w1.archetypes@[
                                a2
                            ].columns@[c2].values
                            &&& world.archetypes@[a2].columns@[c2].epochs == w1.archetypes@[
                                a2
                            ].columns@[c2].epochs
                            &&& world.archetypes@[a2].columns@[c2].max_epoch == w1.archetypes@[
                                a2
                            ].columns@[c2].max_epoch
                        }
                } by {
                    if a2 != en.arch as int {
                        assert(world.archetypes@[a2] == wpre.archetypes@[a2]);
                    }
                }
            }
            lemma_wf_state_only(w1, *world);
        }
        k = k + 1;
    }
    proof {
        assert forall|a2: int, c2: int, wr2: bool|
            #![trigger lock_needed(*old(world), q.terms@, a2, c2, wr2)]
            lock_needed(*old(world), q.terms@, a2, c2, wr2) implies (if wr2 {
            world.archetypes@[a2].columns@[c2].state == Shared::Exclusive
        } else {
            world.archetypes@[a2].columns@[c2].state is Readers
        }) by {
            let k2 = choose|k2: int|
                0 <= k2 < entries@.len() && (#[trigger] entries@[k2]).arch as int == a2
                    && entries@[k2].col as int == c2 && entries@[k2].write == wr2;
            assert(entries@[k2].arch as int == a2 && entries@[k2].col as int == c2);
        }
        assert forall|a2: int, c2: int, wr2: bool|
            #![trigger lock_needed(*old(world), q.terms@, a2, c2, wr2)]
            lock_needed(*old(world), q.terms@, a2, c2, wr2) && !wr2 implies {
            let st0 = old(world).archetypes@[a2].columns@[c2].state;
            let st1 = world.archetypes@[a2].columns@[c2].state;
            &&& (st0 == Shared::Free ==> st1 == Shared::Readers(1u32))
            &&& (st0 is Readers ==> st1 == Shared::Readers((st0->Readers_0 + 1) as u32))
        } by {
            let k2 = choose|k2: int|
                0 <= k2 < entries@.len() && (#[trigger] entries@[k2]).arch as int == a2
                    && entries@[k2].col as int == c2 && entries@[k2].write == wr2;
            assert(entries@[k2].arch as int == a2 && entries@[k2].col as int == c2);
        }
        assert forall|a2: int, c2: int|
            0 <= a2 < old(world).archetypes@.len() && 0 <= c2
                < old(world).archetypes@[a2].columns@.len() && !lock_needed(
                *old(world),
                q.terms@,
                a2,
                c2,
                true,
            ) && !lock_needed(*old(world), q.terms@, a2, c2, false) implies (
        #[trigger] world.archetypes@[a2].columns@[c2]).state
            == old(world).archetypes@[a2].columns@[c2].state by {
            if exists|m: int|
                0 <= m < nentries && (#[trigger] entries@[m]).arch as int == a2 && entries@[m].col
                    as int == c2 {
                let m = choose|m: int|
                    0 <= m < nentries && (#[trigger] entries@[m]).arch as int == a2 && entries@[
                        m
                    ].col as int == c2;
                assert(lock_needed(
                    *old(world),
                    q.terms@,
                    a2,
                    c2,
                    entries@[m].write,
                ));
                assert(false);
            }
        }
        let lk = QueryLock { entries };
        assert(lk.held(*world)) by {
            assert forall|k2: int| 0 <= k2 < lk.entries@.len() implies {
                let en = #[trigger] lk.entries@[k2];
                &&& (en.arch as int) < world.archetypes@.len()
                &&& (en.col as int) < world.archetypes@[en.arch as int].columns@.len()
                &&& (en.write ==> world.archetypes@[en.arch as int].columns@[en.col as int].state
                    == Shared::Exclusive)
                &&& (!en.write ==> world.archetypes@[en.arch as int].columns@[en.col as int].state
                    is Readers)
            } by {
                assert(lk.entries@[k2] == entries@[k2]);
                assert(lock_needed(
                    *old(world),
                    q.terms@,
                    entries@[k2].arch as int,
                    entries@[k2].col as int,
                    entries@[k2].write,
                ));
            }
        }
    }
    Ok(QueryLock { entries })
}

/// Takes the borrows of a query on the main thread.
pub fn try_lock(world: &mut World, q: &QueryRef) -> (r: Result<QueryLock, QueryError>)
    requires
        old(world).wf(),
    ensures
        final(world).wf(),
        r is Err ==> *final(world) == *old(world),
        r is Ok <==> !self_conflict(q.terms@) && lock_available(*old(world), q.terms@),
        r is Ok ==> {
            let lock = r->Ok_0;
            &&& same_but_states(*old(world), *final(world))
            &&& lock.held(*final(world))
            &&& forall|a: int, c: int, wr: bool|
                #![trigger lock_needed(*old(world), q.terms@, a, c, wr)]
                lock_needed(*old(world), q.terms@, a, c, wr) ==> (if wr {
                    final(world).archetypes@[a].columns@[c].state == Shared::Exclusive
                } else {
                    final(world).archetypes@[a].columns@[c].state is Readers
                })
            &&& forall|k: int|
                0 <= k < lock.entries@.len() ==> lock_needed(
                    *old(world),
                    q.terms@,
                    (#[trigger] lock.entries@[k]).arch as int,
                    lock.entries@[k].col as int,
                    lock.entries@[k].write,
                )
            &&& forall|a: int, c: int, wr: bool|
                #![trigger lock_needed(*old(world), q.terms@, a, c, wr)]
                lock_needed(*old(world), q.terms@, a, c, wr) ==> exists|k: int|
                    0 <= k < lock.entries@.len() && (#[trigger] lock.entries@[k]).arch as int == a
                        && lock.entries@[k].col as int == c && lock.entries@[k].write == wr
            &&& forall|a: int, c: int, wr: bool|
                #![trigger lock_needed(*old(world), q.terms@, a, c, wr)]
                lock_needed(*old(world), q.terms@, a, c, wr) && !wr ==> {
                    let st0 = old(world).archetypes@[a].columns@[c].state;
                    let st1 = final(world).archetypes@[a].columns@[c].state;
                    &&& (st0 == Shared::Free ==> st1 == Shared::Readers(1u32))
                    &&& (st0 is Readers ==> st1 == Shared::Readers((st0->Readers_0 + 1) as u32))
                }
            &&& forall|a: int, c: int|
                0 <= a < old(world).archetypes@.len() && 0 <= c
                    < old(world).archetypes@[a].columns@.len() && !lock_needed(
                    *old(world),
                    q.terms@,
                    a,
                    c,
                    true,
                ) && !lock_needed(*old(world), q.terms@, a, c, false)
                    ==> (#[trigger] final(world).archetypes@[a].columns@[c]).state
                    == old(world).archetypes@[a].columns@[c].state
        },
{
    try_lock_from(world, q, true)
}

/// Gives the borrows of a held lock back: each write-held column
/// returns to free, each read-held column's reader count drops by one
/// (to free when this was the last reader), and columns the lock does
/// not name keep their state. A retried query can then take its
/// borrows again.
pub fn release(world: &mut World, lock: QueryLock)
    requires
        old(world).wf(),
        lock.held(*old(world)),
    ensures
        final(world).wf(),
        same_but_states(*old(world), *final(world)),
        forall|k: int|
            0 <= k < lock.entries@.len() ==> {
                let en = #[trigger] lock.entries@[k];
                let st0 = old(world).archetypes@[en.arch as int].columns@[en.col as int].state;
                let st1 = final(world).archetypes@[en.arch as int].columns@[en.col as int].state;
                if en.write {
                    st1 == Shared::Free
                } else {
                    &&& (st0->Readers_0 == 1 ==> st1 == Shared::Free)
                    &&& (st0->Readers_0 > 1 ==> st1 == Shared::Readers(
                        (st0->Readers_0 - 1) as u32,
                    ))
                }
            },
        forall|a: int, c: int|
            0 <= a < old(world).archetypes@.len() && 0 <= c
                < old(world).archetypes@[a].columns@.len() && !(exists|k: int|
                0 <= k < lock.entries@.len() && (#[trigger] lock.entries@[k]).arch as int == a
                    && lock.entries@[k].col as int == c)
                ==> (#[trigger] final(world).archetypes@[a].columns@[c]).state
                == old(world).archetypes@[a].columns@[c].state,
{
    let entries = lock.entries;
    let n = entries.len();
    let mut k: usize = 0;
    while k < n
        invariant
            k <= n,
            n == entries@.len(),
            world.wf(),
            old(world).wf(),
            (QueryLock { entries: entries }).held(*old(world)),
            same_but_states(*old(world), *world),
            forall|m: int|
                0 <= m < k ==> {
                    let en = #[trigger] entries@[m];
                    let st0 = old(world).archetypes@[en.arch as int].columns@[en.col as int].state;
                    let st1 = world.archetypes@[en.arch as int].columns@[en.col as int].state;
                    if en.write {
                        st1 == Shared::Free
                    } else {
                        &&& (st0->Readers_0 == 1 ==> st1 == Shared::Free)
                        &&& (st0->Readers_0 > 1 ==> st1 == Shared::Readers(
                            (st0->Readers_0 - 1) as u32,
                        ))
                    }
                },
            forall|a: int, c: int|
                0 <= a < old(world).archetypes@.len() && 0 <= c
                    < old(world).archetypes@[a].columns@.len() && !(exists|m: int|
                    0 <= m < k && (#[trigger] entries@[m]).arch as int == a && entries@[m].col
                        as int == c) ==> (#[trigger] world.archetypes@[a].columns@[c]).state
                    == old(world).archetypes@[a].columns@[c].state,
        decreases n - k,
    {
        let en = entries[k];
        let ghost lk = QueryLock { entries };
        proof {
            assert(lk.entries@[k as int] == en);
            assert((en.arch as int) < old(world).archetypes@.len());
            assert((en.col as int) < old(world).archetypes@[en.arch as int].columns@.len());
            assert(world.archetypes@[en.arch as int].columns@[en.col as int].state
                == old(world).archetypes@[en.arch as int].columns@[en.col as int].state) by {
                if exists|m: int|
                    0 <= m < k && (#[trigger] entries@[m]).arch as int == en.arch as int
                        && entries@[m].col as int == en.col as int {
                    let m = choose|m: int|
                        0 <= m < k && (#[trigger] entries@[m]).arch as int == en.arch as int
                            && entries@[m].col as int == en.col as int;
                    assert(lk.entries@[m] == entries@[m]);
                    assert(false);
                }
            }
        }
        let ghost wpre = *world;
        let col = &mut world.archetypes[en.arch].columns[en.col];
        let newst = if en.write {
            Shared::Free
        } else {
            match col.state {
                Shared::Readers(m) => if m <= 1 {
                    Shared::Free
                } else {
                    Shared::Readers(m - 1)
                },
                _ => {
                    proof {
                        assert(false);
                    }
                    Shared::Free
                },
            }
        };
        col.state = newst;
        proof {
            assert(same_but_states(wpre, *world)) by {
                assert forall|a2: int| 0 <= a2 < wpre.archetypes@.len() implies {
                    &&& (#[trigger] world.archetypes@[a2]).signature == wpre.archetypes@[
                        a2
                    ].signature
                    &&& world.archetypes@[a2].entities == wpre.archetypes@[a2].entities
                    &&& world.archetypes@[a2].columns@.len() == wpre.archetypes@[
                        a2
                    ].columns@.len()
                    &&& forall|c2: int|
                        0 <= c2 < wpre.archetypes@[a2].columns@.len() ==> {
                            &&& (#[trigger] world.archetypes@[a2].columns@[c2]).ty
                                == wpre.archetypes@[a2].columns@[c2].ty
                            &&& world.archetypes@[a2].columns@[c2].values == wpre.archetypes@[
                                a2
                            ].columns@[c2].values
                            &&& world.archetypes@[a2].columns@[c2].epochs == wpre.archetypes@[
                                a2
                            ].columns@[c2].epochs
                            &&& world.archetypes@[a2].columns@[c2].max_epoch == wpre.archetypes@[
                                a2
                            ].columns@[c2].max_epoch
                        }
                } by {
                    if a2 != en.arch as int {
                        assert(world.archetypes@[a2] == wpre.archetypes@[a2]);
                    }
                }
            }
            assert(match newst {
                Shared::Readers(m2) => m2 >= 1,
                _ => true,
            });
            lemma_wf_state_only(wpre, *world);
            assert forall|m: int| 0 <= m < k + 1 implies {
                let en2 = #[trigger] entries@[m];
                let st0 = old(world).archetypes@[en2.arch as int].columns@[en2.col as int].state;
                let st1 = world.archetypes@[en2.arch as int].columns@[en2.col as int].state;
                if en2.write {
                    st1 == Shared::Free
                } else {
                    &&& (st0->Readers_0 == 1 ==> st1 == Shared::Free)
                    &&& (st0->Readers_0 > 1 ==> st1 == Shared::Readers(
                        (st0->Readers_0 - 1) as u32,
                    ))
                }
            } by {
                if m < k {
                    let en2 = entries@[m];
                    assert(!(en2.arch as int == en.arch as int && en2.col as int
                        == en.col as int)) by {
                        assert(lk.entries@[m] == entries@[m]);
                        assert(lk.entries@[k as int] == en);
                    }
                    assert(world.archetypes@[en2.arch as int].columns@[en2.col as int]
                        == wpre.archetypes@[en2.arch as int].columns@[en2.col as int]);
                }
            }
        }
        k = k + 1;
    }
}

/// Taking a query's borrows and then giving them back restores every
/// column's borrow state exactly, so the same query's borrows are
/// available again: a retry after release succeeds.
pub proof fn lemma_release_restores(
    w0: World,
    w1: World,
    w2: World,
    terms: Seq<Term>,
    lock: QueryLock,
)
    requires
        w0.wf(),
        !self_conflict(terms),
        lock_available(w0, terms),
        same_but_states(w0, w1),
        lock.held(w1),
        forall|k: int|
            0 <= k < lock.entries@.len() ==> lock_needed(
                w0,
                terms,
                (#[trigger] lock.entries@[k]).arch as int,
                lock.entries@[k].col as int,
                lock.entries@[k].write,
            ),
        forall|a: int, c: int, wr: bool|
            #![trigger lock_needed(w0, terms, a, c, wr)]
            lock_needed(w0, terms, a, c, wr) ==> exists|k: int|
                0 <= k < lock.entries@.len() && (#[trigger] lock.entries@[k]).arch as int == a
                    && lock.entries@[k].col as int == c && lock.entries@[k].write == wr,
        forall|a: int, c: int, wr: bool|
            #![trigger lock_needed(w0, terms, a, c, wr)]
            lock_needed(w0, terms, a, c, wr) ==> (if wr {
                w1.archetypes@[a].columns@[c].state == Shared::Exclusive
            } else {
                w1.archetypes@[a].columns@[c].state is Readers
            }),
        forall|a: int, c: int, wr: bool|
            #![trigger lock_needed(w0, terms, a, c, wr)]
            lock_needed(w0, terms, a, c, wr) && !wr ==> {
                let st0 = w0.archetypes@[a].columns@[c].state;
                let st1 = w1.archetypes@[a].columns@[c].state;
                &&& (st0 == Shared::Free ==> st1 == Shared::Readers(1u32))
                &&& (st0 is Readers ==> st1 == Shared::Readers((st0->Readers_0 + 1) as u32))
            },
        forall|a: int, c: int|
            0 <= a < w0.archetypes@.len() && 0 <= c < w0.archetypes@[a].columns@.len()
                && !lock_needed(w0, terms, a, c, true) && !lock_needed(w0, terms, a, c, false)
                ==> (#[trigger] w1.archetypes@[a].columns@[c]).state
                == w0.archetypes@[a].columns@[c].state,
        same_but_states(w1, w2),
        forall|k: int|
            0 <= k < lock.entries@.len() ==> {
                let en = #[trigger] lock.entries@[k];
                let st1 = w1.archetypes@[en.arch as int].columns@[en.col as int].state;
                let st2 = w2.archetypes@[en.arch as int].columns@[en.col as int].state;
                if en.write {
                    st2 == Shared::Free
                } else {
                    &&& (st1->Readers_0 == 1 ==> st2 == Shared::Free)
                    &&& (st1->Readers_0 > 1 ==> st2 == Shared::Readers(
                        (st1->Readers_0 - 1) as u32,
                    ))
                }
            },
        forall|a: int, c: int|
            0 <= a < w1.archetypes@.len() && 0 <= c < w1.archetypes@[a].columns@.len() && !(
            exists|k: int|
                0 <= k < lock.entries@.len() && (#[trigger] lock.entries@[k]).arch as int == a
                    && lock.entries@[k].col as int == c)
                ==> (#[trigger] w2.archetypes@[a].columns@[c]).state
                == w1.archetypes@[a].columns@[c].state,
    ensures
        forall|a: int, c: int|
            0 <= a < w0.archetypes@.len() && 0 <= c < w0.archetypes@[a].columns@.len()
                ==> (#[trigger] w2.archetypes@[a].columns@[c]).state
                == w0.archetypes@[a].columns@[c].state,
        lock_available(w2, terms),
{
    assert forall|a: int, c: int|
        0 <= a < w0.archetypes@.len() && 0 <= c < w0.archetypes@[a].columns@.len() implies (
    #[trigger] w2.archetypes@[a].columns@[c]).state == w0.archetypes@[a].columns@[c].state by {
        if exists|k: int|
            0 <= k < lock.entries@.len() && (#[trigger] lock.entries@[k]).arch as int == a
                && lock.entries@[k].col as int == c {
            let k = choose|k: int|
                0 <= k < lock.entries@.len() && (#[trigger] lock.entries@[k]).arch as int == a
                    && lock.entries@[k].col as int == c;
            let en = lock.entries@[k];
            assert(lock_needed(w0, terms, a, c, en.write));
            let st0 = w0.archetypes@[a].columns@[c].state;
            let st1 = w1.archetypes@[a].columns@[c].state;
            if en.write {
                assert(st0 == Shared::Free);
                assert(w2.archetypes@[a].columns@[c].state == Shared::Free);
            } else {
                assert(st0 == Shared::Free || (st0 is Readers && st0->Readers_0 < u32::MAX));
                if st0 == Shared::Free {
                    assert(st1 == Shared::Readers(1u32));
                    assert(st1->Readers_0 == 1);
                    assert(w2.archetypes@[a].columns@[c].state == Shared::Free);
                } else {
                    assert(st1 == Shared::Readers((st0->Readers_0 + 1) as u32));
                    assert(st0->Readers_0 >= 1) by {
                        assert(w0.archetypes@[a].wf());
                        assert(w0.archetypes@[a].columns@[c].wf());
                    }
                    assert(st1->Readers_0 == st0->Readers_0 + 1);
                    assert(st1->Readers_0 > 1);
                    assert(w2.archetypes@[a].columns@[c].state == Shared::Readers(
                        (st1->Readers_0 - 1) as u32,
                    ));
                    assert((st1->Readers_0 - 1) as u32 == st0->Readers_0);
                    assert(w2.archetypes@[a].columns@[c].state == st0);
                }
            }
        } else {
            assert(!lock_needed(w0, terms, a, c, true) && !lock_needed(w0, terms, a, c, false))
                by {
                if lock_needed(w0, terms, a, c, true) {
                    let k = choose|k: int|
                        0 <= k < lock.entries@.len() && (#[trigger] lock.entries@[k]).arch as int
                            == a && lock.entries@[k].col as int == c && lock.entries@[k].write
                            == true;
                }
                if lock_needed(w0, terms, a, c, false) {
                    let k = choose|k: int|
                        0 <= k < lock.entries@.len() && (#[trigger] lock.entries@[k]).arch as int
                            == a && lock.entries@[k].col as int == c && lock.entries@[k].write
                            == false;
                }
            }
            assert(w1.archetypes@[a].columns@[c].state == w0.archetypes@[a].columns@[c].state);
            assert(w2.archetypes@[a].columns@[c].state == w1.archetypes@[a].columns@[c].state);
        }
    }
    assert forall|a: int| 0 <= a < w0.archetypes@.len() implies (
    #[trigger] w2.archetypes@[a]).signature == w0.archetypes@[a].signature by {
        assert(w1.archetypes@[a].signature == w0.archetypes@[a].signature);
    }
    assert(lock_available(w2, terms)) by {
        assert forall|a: int, c: int, wr: bool|
            #![trigger lock_needed(w2, terms, a, c, wr)]
            lock_needed(w2, terms, a, c, wr) implies {
            let st = w2.archetypes@[a].columns@[c].state;
            if wr {
                st == Shared::Free
            } else {
                st == Shared::Free || (st is Readers && st->Readers_0 < u32::MAX)
            }
        } by {
            assert(lock_needed(w0, terms, a, c, wr)) by {
                assert(w2.archetypes@[a].signature == w0.archetypes@[a].signature);
                assert forall|t: int|
                    0 <= t < terms.len() implies term_visits(
                    #[trigger] terms[t],
                    w0.archetypes@[a],
                ) by {
                    assert(term_visits(terms[t], w2.archetypes@[a]));
                    match terms[t] {
                        Term::Read(ty) => {
                            assert(w2.archetypes@[a].has_ty(ty));
                            assert(w0.archetypes@[a].signature@ == w2.archetypes@[a].signature@);
                        },
                        Term::Write(_) => {
                            assert(w0.archetypes@[a].signature@ == w2.archetypes@[a].signature@);
                        },
                        Term::Copied(_) => {
                            assert(w0.archetypes@[a].signature@ == w2.archetypes@[a].signature@);
                        },
                        Term::Modified(_) => {
                            assert(w0.archetypes@[a].signature@ == w2.archetypes@[a].signature@);
                        },
                        _ => {},
                    }
                }
                let t = choose|t: int|
                    0 <= t < terms.len() && term_access(#[trigger] terms[t]) == Some(
                        (w2.archetypes@[a].signature@[c], wr),
                    );
                assert(w0.archetypes@[a].signature@[c] == w2.archetypes@[a].signature@[c]);
            }
            assert(w2.archetypes@[a].columns@[c].state == w0.archetypes@[a].columns@[c].state);
        }
    }
}

/// Two queries whose accesses conflict on a column of an archetype both
/// visit cannot hold their borrows at once: after the first has taken
/// its lock, the second's borrows are no longer available.
pub proof fn lemma_borrow_exclusion(
    w0: World,
    w1: World,
    terms1: Seq<Term>,
    terms2: Seq<Term>,
    lock: QueryLock,
    a: int,
    c: int,
    wr1: bool,
    wr2: bool,
)
    requires
        w0.wf(),
        w1.wf(),
        same_but_states(w0, w1),
        lock_needed(w0, terms1, a, c, wr1),
        lock_needed(w1, terms2, a, c, wr2),
        wr1 || wr2,
        forall|a2: int, c2: int, wr: bool|
            #![trigger lock_needed(w0, terms1, a2, c2, wr)]
            lock_needed(w0, terms1, a2, c2, wr) ==> (if wr {
                w1.archetypes@[a2].columns@[c2].state == Shared::Exclusive
            } else {
                w1.archetypes@[a2].columns@[c2].state is Readers
            }),
    ensures
        !lock_available(w1, terms2),
{
    if wr1 {
        assert(w1.archetypes@[a].columns@[c].state == Shared::Exclusive);
        assert(!lock_available(w1, terms2)) by {
            if lock_available(w1, terms2) {
                assert(lock_needed(w1, terms2, a, c, wr2));
            }
        }
    } else {
        assert(wr2);
        assert(w1.archetypes@[a].columns@[c].state is Readers);
        assert(!lock_available(w1, terms2)) by {
            if lock_available(w1, terms2) {
                assert(lock_needed(w1, terms2, a, c, wr2));
            }
        }
    }
}

/// Helper: no row of one archetype is stamped above the world epoch.
proof fn lemma_arch_quiescent_upto(w: World, arch: Archetype, ty: u32, n: int)
    requires
        w.wf(),
        arch.wf(),
        arch.has_ty(ty),
        n <= arch.rows(),
        exists|a: int| 0 <= a < w.archetypes@.len() && w.archetypes@[a] == arch,
    ensures
        arch_modified_upto(arch, ty, w.epoch, n).len() == 0,
    decreases n,
{
    if n > 0 {
        lemma_arch_quiescent_upto(w, arch, ty, n - 1);
        let c = arch.col_idx(ty);
        assert(arch.signature@.contains(ty));
        assert(arch.columns@[c].wf());
        let a = choose|a: int| 0 <= a < w.archetypes@.len() && w.archetypes@[a] == arch;
        assert(w.archetypes@[a].columns@[c].max_epoch <= w.epoch);
        assert(arch.cell_epoch(n - 1, ty) <= arch.columns@[c].max_epoch);
    }
}

/// One position of a yielded item: what a single term contributes for
/// one row.
#[derive(Debug, PartialEq, Eq)]
pub enum ItemPart {
    /// The row's entity id.
    Id(EntityId),
    /// A component value, yielded by copy.
    Val(Component),
    /// An optional component the row does not carry.
    Absent,
    /// A pure filter's placeholder.
    Mark,
}

/// Whether the row passes the term's per-row filter.
pub open spec fn term_passes(t: Term, arch: Archetype, r: int, tau: u64) -> bool {
    match t {
        Term::Read(ty) => arch.has_ty(ty),
        Term::Write(ty) => arch.has_ty(ty),
        Term::Copied(ty) => arch.has_ty(ty),
        Term::Entities => true,
        Term::OptRead(_) => true,
        Term::Modified(ty) => arch.has_ty(ty) && arch.cell_epoch(r, ty) > tau,
        Term::With(ty) => arch.has_ty(ty),
        Term::Without(ty) => !arch.has_ty(ty),
        Term::NotRelatesTo(rel, tgt) => !arch.has_ty(rel) || arch.cell(r, rel).value
            != Value::Target(tgt),
    }
}

/// Whether the row passes every term of the query.
pub open spec fn row_passes(w: World, terms: Seq<Term>, tau: u64, a: int, r: int) -> bool {
    forall|t: int|
        0 <= t < terms.len() ==> term_passes(#[trigger] terms[t], w.archetypes@[a], r, tau)
}

/// What the term contributes for the row.
pub open spec fn term_item(t: Term, arch: Archetype, r: int) -> ItemPart {
    match t {
        Term::Read(ty) => ItemPart::Val(arch.cell(r, ty)),
        Term::Write(ty) => ItemPart::Val(arch.cell(r, ty)),
        Term::Copied(ty) => ItemPart::Val(arch.cell(r, ty)),
        Term::Entities => ItemPart::Id(arch.entities@[r]),
        Term::OptRead(ty) => if arch.has_ty(ty) {
            ItemPart::Val(arch.cell(r, ty))
        } else {
            ItemPart::Absent
        },
        Term::Modified(ty) => ItemPart::Val(arch.cell(r, ty)),
        Term::With(_) => ItemPart::Mark,
        Term::Without(_) => ItemPart::Mark,
        Term::NotRelatesTo(_, _) => ItemPart::Mark,
    }
}

/// The full item for the row: one part per term, in term order.
pub open spec fn row_item(terms: Seq<Term>, arch: Archetype, r: int) -> Seq<ItemPart> {
    Seq::new(terms.len(), |t: int| term_item(terms[t], arch, r))
}

/// The items yielded from the first `n` rows of archetype `a`.
pub open spec fn rows_view(w: World, terms: Seq<Term>, tau: u64, a: int, n: int) -> Seq<
    Seq<ItemPart>,
>
    decreases n,
{
    if n <= 0 {
        Seq::empty()
    } else {
        rows_view(w, terms, tau, a, n - 1) + if row_passes(w, terms, tau, a, n - 1) {
            seq![row_item(terms, w.archetypes@[a], n - 1)]
        } else {
            Seq::empty()
        }
    }
}

/// The items yielded from the first `a` archetypes, in creation order.
pub open spec fn archs_view(w: World, terms: Seq<Term>, tau: u64, a: int) -> Seq<Seq<ItemPart>>
    decreases a,
{
    if a <= 0 {
        Seq::empty()
    } else {
        archs_view(w, terms, tau, a - 1) + if arch_visited(w, terms, a - 1) {
            rows_view(w, terms, tau, a - 1, w.archetypes@[a - 1].rows() as int)
        } else {
            Seq::empty()
        }
    }
}

/// Everything the query yields: archetypes in creation order, rows in
/// row order, one item per row that passes every term.
pub open spec fn query_view(w: World, terms: Seq<Term>, tau: u64) -> Seq<Seq<ItemPart>> {
    archs_view(w, terms, tau, w.archetypes@.len() as int)
}

/// Whether the term's read borrow is blocked on the archetype.
pub open spec fn term_blocked(t: Term, arch: Archetype) -> bool {
    match term_access(t) {
        Some((ty, _)) => arch.has_ty(ty) && arch.columns@[arch.col_idx(ty)].state is Exclusive,
        None => false,
    }
}

/// Whether some column a read-only run of the query needs is
/// writer-locked.
pub open spec fn query_blocked(w: World, terms: Seq<Term>) -> bool {
    exists|a: int, t: int|
        #![trigger w.archetypes@[a], terms[t]]
        0 <= a < w.archetypes@.len() && arch_visited(w, terms, a) && 0 <= t < terms.len()
            && term_blocked(terms[t], w.archetypes@[a])
}

/// Fetch state of the copy-out term for one archetype: the resolved
/// column of the copied type.
#[derive(Clone, Copy, Debug, PartialEq, Eq, Structural)]
pub struct FetchCopied {
    /// The column holding the copied component type.
    pub col: usize,
}

impl FetchCopied {
    /// Reads the row's value out of the resolved column, by copy.
    pub fn get_item(&self, arch: &Archetype, r: usize) -> (c: Component)
        requires
            arch.wf(),
            r < arch.rows(),
            self.col < arch.columns@.len(),
        ensures
            c == arch.columns@[self.col as int].values@[r as int],
    {
        proof {
            assert(arch.columns@[self.col as int].wf());
        }
        arch.columns[self.col].values[r].duplicate()
    }
}

/// Query that yields copies of the component of one type and skips
/// entities without it.
#[derive(Clone, Copy, Debug, PartialEq, Eq, Structural)]
pub struct Copied {
    /// The copied component type.
    pub ty: u32,
}

impl Copied {
    /// The query term this stands for.
    pub fn term(&self) -> (t: Term)
        ensures
            t == Term::Copied(self.ty),
    {
        Term::Copied(self.ty)
    }
}

/// Returns the query that yields copies of the component type for each
/// entity carrying it.
pub fn copied(ty: u32) -> (q: Copied)
    ensures
        q.ty == ty,
{
    Copied { ty }
}

/// Fetch state of the entity-id term for one archetype. The id is read
/// from the archetype's entity vector.
#[derive(Clone, Copy, Debug, PartialEq, Eq, Structural)]
pub struct EntitiesFetch {
    /// The archetype being walked.
    pub arch: usize,
}

impl EntitiesFetch {
    /// Reads the row's entity id.
    pub fn get_item(&self, arch: &Archetype, r: usize) -> (e: EntityId)
        requires
            r < arch.rows(),
        ensures
            e == arch.entities@[r as int],
    {
        arch.entities[r]
    }
}

/// Query that yields every entity's id and skips nothing.
#[derive(Clone, Copy, Debug, PartialEq, Eq, Structural)]
pub struct Entities;

impl Entities {
    /// The query term for entity ids.
    pub fn query() -> (t: Term)
        ensures
            t == Term::Entities,
    {
        Term::Entities
    }
}

/// Per-archetype fetch state of one term.
pub enum Fetch {
    /// Copy-out term with its resolved column.
    Copied(FetchCopied),
    /// Entity-id term.
    Ents(EntitiesFetch),
    /// Plain read of a resolved column.
    Read(usize),
    /// Optional read: the column where the archetype carries the type.
    Opt(Option<usize>),
    /// A filter without per-row state.
    Mark,
    /// The relation filter with its resolved column and target.
    NotRel(FetchFilterNotRelatesTo),
}

/// The fetch state matches its term on this archetype.
pub open spec fn fetch_ok(f: Fetch, t: Term, arch: Archetype) -> bool {
    match t {
        Term::Read(ty) => f is Read && arch.has_ty(ty) && f->Read_0 as int == arch.col_idx(ty),
        Term::Write(ty) => f is Read && arch.has_ty(ty) && f->Read_0 as int == arch.col_idx(ty),
        Term::Copied(ty) => f is Copied && arch.has_ty(ty) && f->Copied_0.col as int
            == arch.col_idx(ty),
        Term::Entities => f is Ents,
        Term::OptRead(ty) => f is Opt && match f->Opt_0 {
            Some(c) => arch.has_ty(ty) && c as int == arch.col_idx(ty),
            None => !arch.has_ty(ty),
        },
        Term::Modified(ty) => f is Read && arch.has_ty(ty) && f->Read_0 as int == arch.col_idx(ty),
        Term::With(ty) => f is Opt && match f->Opt_0 {
            Some(c) => arch.has_ty(ty) && c as int == arch.col_idx(ty),
            None => !arch.has_ty(ty),
        },
        Term::Without(ty) => f is Opt && match f->Opt_0 {
            Some(c) => arch.has_ty(ty) && c as int == arch.col_idx(ty),
            None => !arch.has_ty(ty),
        },
        Term::NotRelatesTo(rel, tgt) => f is NotRel && f->NotRel_0.target == tgt && match f
            ->NotRel_0.col {
            Some(c) => arch.has_ty(rel) && c as int == arch.col_idx(rel),
            None => !arch.has_ty(rel),
        },
    }
}

/// Builds the term's fetch state for one archetype.
fn term_fetch(t: &Term, arch: &Archetype, a: usize) -> (f: Fetch)
    requires
        arch.wf(),
        term_visits(*t, *arch),
    ensures
        fetch_ok(f, *t, *arch),
{
    match t {
        Term::Read(ty) => {
            match arch.find_col(*ty) {
                Some(c) => Fetch::Read(c),
                None => {
                    proof {
                        assert(false);
                    }
                    Fetch::Mark
                },
            }
        },
        Term::Write(ty) => {
            match arch.find_col(*ty) {
                Some(c) => Fetch::Read(c),
                None => {
                    proof {
                        assert(false);
                    }
                    Fetch::Mark
                },
            }
        },
        Term::Copied(ty) => {
            match arch.find_col(*ty) {
                Some(c) => Fetch::Copied(FetchCopied { col: c }),
                None => {
                    proof {
                        assert(false);
                    }
                    Fetch::Mark
                },
            }
        },
        Term::Entities => Fetch::Ents(EntitiesFetch { arch: a }),
        Term::OptRead(ty) => Fetch::Opt(arch.find_col(*ty)),
        Term::Modified(ty) => {
            match arch.find_col(*ty) {
                Some(c) => Fetch::Read(c),
                None => {
                    proof {
                        assert(false);
                    }
                    Fetch::Mark
                },
            }
        },
        Term::With(ty) => Fetch::Opt(arch.find_col(*ty)),
        Term::Without(ty) => Fetch::Opt(arch.find_col(*ty)),
        Term::NotRelatesTo(rel, tgt) => Fetch::NotRel(
            FetchFilterNotRelatesTo { col: arch.find_col(*rel), target: *tgt },
        ),
    }
}

/// Whether the row passes the term, read through its fetch state.
fn t_passes(t: &Term, f: &Fetch, arch: &Archetype, r: usize, tau: u64) -> (pass: bool)
    requires
        arch.wf(),
        r < arch.rows(),
        fetch_ok(*f, *t, *arch),
    ensures
        pass == term_passes(*t, *arch, r as int, tau),
{
    match t {
        Term::Read(_) => true,
        Term::Write(_) => true,
        Term::Copied(_) => true,
        Term::Entities => true,
        Term::OptRead(_) => true,
        Term::Modified(ty) => {
            match f {
                Fetch::Read(c) => {
                    proof {
                        assert(arch.has_ty(*ty));
                        assert(arch.signature@.contains(*ty));
                        assert(*c as int == arch.col_idx(*ty));
                        assert(arch.columns@[*c as int].wf());
                        assert(arch.cell_epoch(r as int, *ty) == arch.columns@[*c as int].epochs@[
                            r as int
                        ]);
                    }
                    let p = arch.columns[*c].epochs[r] > tau;
                    proof {
                        assert(p == (arch.cell_epoch(r as int, *ty) > tau));
                        assert(p == term_passes(*t, *arch, r as int, tau));
                    }
                    p
                },
                _ => {
                    proof {
                        assert(false);
                    }
                    false
                },
            }
        },
        Term::With(_) => {
            match f {
                Fetch::Opt(copt) => copt.is_some(),
                _ => {
                    proof {
                        assert(false);
                    }
                    false
                },
            }
        },
        Term::Without(_) => {
            match f {
                Fetch::Opt(copt) => copt.is_none(),
                _ => {
                    proof {
                        assert(false);
                    }
                    false
                },
            }
        },
        Term::NotRelatesTo(rel, _tgt) => {
            match f {
                Fetch::NotRel(fr) => {
                    proof {
                        match fr.col {
                            Some(c) => {
                                assert(arch.has_ty(*rel));
                                assert(c as int == arch.col_idx(*rel));
                                assert(arch.signature@.contains(*rel));
                            },
                            None => {
                                assert(!arch.has_ty(*rel));
                            },
                        }
                    }
                    let sk = fr.skip_item(arch, r);
                    proof {
                        assert(fr.target == *_tgt);
                        match fr.col {
                            Some(c) => {
                                assert(arch.cell(r as int, *rel) == arch.columns@[
                                    c as int
                                ].values@[r as int]);
                            },
                            None => {},
                        }
                        assert(!sk == term_passes(*t, *arch, r as int, tau));
                    }
                    !sk
                },
                _ => {
                    proof {
                        assert(false);
                    }
                    false
                },
            }
        },
    }
}

/// The term's contribution for the row, read through its fetch state.
fn t_item(t: &Term, f: &Fetch, arch: &Archetype, r: usize) -> (item: ItemPart)
    requires
        arch.wf(),
        r < arch.rows(),
        fetch_ok(*f, *t, *arch),
    ensures
        item == term_item(*t, *arch, r as int),
{
    match t {
        Term::Read(ty) => {
            match f {
                Fetch::Read(c) => {
                    proof {
                        assert(arch.has_ty(*ty));
                        assert(arch.signature@.contains(*ty));
                        assert(arch.columns@[*c as int].wf());
                    }
                    ItemPart::Val(arch.columns[*c].values[r].duplicate())
                },
                _ => {
                    proof {
                        assert(false);
                    }
                    ItemPart::Mark
                },
            }
        },
        Term::Write(ty) => {
            match f {
                Fetch::Read(c) => {
                    proof {
                        assert(arch.has_ty(*ty));
                        assert(arch.signature@.contains(*ty));
                        assert(arch.columns@[*c as int].wf());
                    }
                    ItemPart::Val(arch.columns[*c].values[r].duplicate())
                },
                _ => {
                    proof {
                        assert(false);
                    }
                    ItemPart::Mark
                },
            }
        },
        Term::Modified(ty) => {
            match f {
                Fetch::Read(c) => {
                    proof {
                        assert(arch.has_ty(*ty));
                        assert(arch.signature@.contains(*ty));
                        assert(arch.columns@[*c as int].wf());
                    }
                    ItemPart::Val(arch.columns[*c].values[r].duplicate())
                },
                _ => {
                    proof {
                        assert(false);
                    }
                    ItemPart::Mark
                },
            }
        },
        Term::Copied(ty) => {
            match f {
                Fetch::Copied(fc) => {
                    proof {
                        assert(arch.has_ty(*ty));
                        assert(arch.signature@.contains(*ty));
                    }
                    ItemPart::Val(fc.get_item(arch, r))
                },
                _ => {
                    proof {
                        assert(false);
                    }
                    ItemPart::Mark
                },
            }
        },
        Term::Entities => {
            match f {
                Fetch::Ents(fe) => ItemPart::Id(fe.get_item(arch, r)),
                _ => {
                    proof {
                        assert(false);
                    }
                    ItemPart::Mark
                },
            }
        },
        Term::OptRead(ty) => {
            match f {
                Fetch::Opt(copt) => {
                    match copt {
                        Some(c) => {
                            proof {
                                assert(arch.has_ty(*ty));
                                assert(arch.signature@.contains(*ty));
                                assert(arch.columns@[*c as int].wf());
                            }
                            ItemPart::Val(arch.columns[*c].values[r].duplicate())
                        },
                        None => ItemPart::Absent,
                    }
                },
                _ => {
                    proof {
                        assert(false);
                    }
                    ItemPart::Mark
                },
            }
        },
        Term::With(_) => ItemPart::Mark,
        Term::Without(_) => ItemPart::Mark,
        Term::NotRelatesTo(_, _) => ItemPart::Mark,
    }
}

/// Whether every term of the query accepts an entity with no data at
/// all: only such queries emit reserved entities.
pub open spec fn terms_accept_absence(terms: Seq<Term>) -> bool {
    forall|t: int|
        0 <= t < terms.len() ==> match #[trigger] terms[t] {
            Term::Entities => true,
            Term::OptRead(_) => true,
            Term::Without(_) => true,
            Term::NotRelatesTo(_, _) => true,
            _ => false,
        }
}

/// What a term yields for a reserved entity, which carries no data.
pub open spec fn term_tail_item(t: Term, e: EntityId) -> ItemPart {
    match t {
        Term::Entities => ItemPart::Id(e),
        Term::OptRead(_) => ItemPart::Absent,
        _ => ItemPart::Mark,
    }
}

/// The item a reserved entity contributes.
pub open spec fn tail_item(terms: Seq<Term>, e: EntityId) -> Seq<ItemPart> {
    Seq::new(terms.len(), |t: int| term_tail_item(terms[t], e))
}

/// The items the reserved entities of the first `n` slots contribute,
/// in slot order, when the query accepts absence; nothing otherwise.
pub open spec fn tail_view(w: World, terms: Seq<Term>, n: int) -> Seq<Seq<ItemPart>>
    decreases n,
{
    if n <= 0 || !terms_accept_absence(terms) {
        Seq::empty()
    } else {
        tail_view(w, terms, n - 1) + if w.slots@[n - 1].loc is Reserved {
            seq![
                tail_item(
                    terms,
                    EntityId { index: (n - 1) as u32, generation: w.slots@[n - 1].generation },
                ),
            ]
        } else {
            Seq::empty()
        }
    }
}

/// The views of a vector of yielded items.
pub open spec fn vecs_view(s: Seq<Vec<ItemPart>>) -> Seq<Seq<ItemPart>> {
    s.map_values(|v: Vec<ItemPart>| v@)
}

/// Runs a read-only query against the world: for each archetype every
/// term accepts, in creation order, and each row that passes every
/// term's filter, in row order, yields the composed item. Fails with
/// `BorrowConflict`, yielding nothing, when a needed column is
/// writer-locked; nothing else blocks a read.
pub fn collect(world: &World, q: &QueryRef, since: u64) -> (r: Result<
    Vec<Vec<ItemPart>>,
    QueryError,
>)
    requires
        world.wf(),
        forall|t: int| 0 <= t < q.terms@.len() ==> !((#[trigger] q.terms@[t]) is Write),
    ensures
        r is Err <==> query_blocked(*world, q.terms@),
        r is Err ==> r == Result::<Vec<Vec<ItemPart>>, QueryError>::Err(QueryError::BorrowConflict),
        r is Ok ==> vecs_view((r->Ok_0)@) == query_view(*world, q.terms@, since) + tail_view(
            *world,
            q.terms@,
            world.slots@.len() as int,
        ),
{
    let narch = world.archetypes.len();
    let mut a: usize = 0;
    while a < narch
        invariant
            a <= narch,
            narch == world.archetypes@.len(),
            world.wf(),
            forall|a2: int, t2: int|
                #![trigger world.archetypes@[a2], q.terms@[t2]]
                0 <= a2 < a && arch_visited(*world, q.terms@, a2) && 0 <= t2 < q.terms@.len()
                    ==> !term_blocked(q.terms@[t2], world.archetypes@[a2]),
        decreases narch - a,
    {
        proof {
            assert(world.archetypes@[a as int].wf());
        }
        let visited = visits_all(&q.terms, &world.archetypes[a]);
        if visited {
            let mut t: usize = 0;
            while t < q.terms.len()
                invariant
                    a < narch,
                    narch == world.archetypes@.len(),
                    t <= q.terms@.len(),
                    world.wf(),
                    arch_visited(*world, q.terms@, a as int),
                    forall|t2: int|
                        0 <= t2 < t ==> !term_blocked(
                            #[trigger] q.terms@[t2],
                            world.archetypes@[a as int],
                        ),
                decreases q.terms@.len() - t,
            {
                match t_access(&q.terms[t]) {
                    Some((ty, _wr)) => {
                        proof {
                            assert(world.archetypes@[a as int].wf());
                        }
                        match world.archetypes[a].find_col(ty) {
                            Some(c) => {
                                if matches!(
                                    world.archetypes[a].columns[c].state,
                                    Shared::Exclusive
                                ) {
                                    proof {
                                        assert(term_blocked(
                                            q.terms@[t as int],
                                            world.archetypes@[a as int],
                                        ));
                                        assert(query_blocked(*world, q.terms@));
                                    }
                                    return Err(QueryError::BorrowConflict);
                                }
                            },
                            None => {},
                        }
                    },
                    None => {},
                }
                t = t + 1;
            }
        }
        a = a + 1;
    }
    proof {
        assert(!query_blocked(*world, q.terms@)) by {
            if query_blocked(*world, q.terms@) {
                let (a2, t2) = choose|a2: int, t2: int|
                    #![trigger world.archetypes@[a2], q.terms@[t2]]
                    0 <= a2 < world.archetypes@.len() && arch_visited(*world, q.terms@, a2) && 0
                        <= t2 < q.terms@.len() && term_blocked(
                        q.terms@[t2],
                        world.archetypes@[a2],
                    );
                assert(false);
            }
        }
    }
    let mut out: Vec<Vec<ItemPart>> = Vec::new();
    let mut a: usize = 0;
    while a < narch
        invariant
            a <= narch,
            narch == world.archetypes@.len(),
            world.wf(),
            !query_blocked(*world, q.terms@),
            vecs_view(out@) == archs_view(*world, q.terms@, since, a as int),
        decreases narch - a,
    {
        proof {
            assert(world.archetypes@[a as int].wf());
        }
        let visited = visits_all(&q.terms, &world.archetypes[a]);
        if visited {
            let nterms = q.terms.len();
            let mut fetches: Vec<Fetch> = Vec::new();
            let mut t: usize = 0;
            while t < nterms
                invariant
                    a < narch,
                    narch == world.archetypes@.len(),
                    t <= nterms,
                    nterms == q.terms@.len(),
                    world.wf(),
                    arch_visited(*world, q.terms@, a as int),
                    fetches@.len() == t,
                    forall|k: int|
                        0 <= k < t ==> fetch_ok(
                            #[trigger] fetches@[k],
                            q.terms@[k],
                            world.archetypes@[a as int],
                        ),
                decreases nterms - t,
            {
                proof {
                    assert(world.archetypes@[a as int].wf());
                    assert(term_visits(q.terms@[t as int], world.archetypes@[a as int]));
                }
                let f = term_fetch(&q.terms[t], &world.archetypes[a], a);
                fetches.push(f);
                t = t + 1;
            }
            let rows = world.archetypes[a].entities.len();
            let mut r: usize = 0;
            while r < rows
                invariant
                    a < narch,
                    narch == world.archetypes@.len(),
                    r <= rows,
                    nterms == q.terms@.len(),
                    world.wf(),
                    arch_visited(*world, q.terms@, a as int),
                    rows == world.archetypes@[a as int].rows(),
                    fetches@.len() == nterms,
                    forall|k: int|
                        0 <= k < nterms ==> fetch_ok(
                            #[trigger] fetches@[k],
                            q.terms@[k],
                            world.archetypes@[a as int],
                        ),
                    vecs_view(out@) == archs_view(*world, q.terms@, since, a as int)
                        + rows_view(*world, q.terms@, since, a as int, r as int),
                decreases rows - r,
            {
                proof {
                    assert(world.archetypes@[a as int].wf());
                }
                let mut pass = true;
                let mut t: usize = 0;
                while t < nterms
                    invariant
                        a < narch,
                        narch == world.archetypes@.len(),
                        r < rows,
                        t <= nterms,
                        nterms == q.terms@.len(),
                        world.wf(),
                        rows == world.archetypes@[a as int].rows(),
                        fetches@.len() == nterms,
                        forall|k: int|
                            0 <= k < nterms ==> fetch_ok(
                                #[trigger] fetches@[k],
                                q.terms@[k],
                                world.archetypes@[a as int],
                            ),
                        pass ==> forall|k: int|
                            0 <= k < t ==> term_passes(
                                #[trigger] q.terms@[k],
                                world.archetypes@[a as int],
                                r as int,
                                since,
                            ),
                        !pass ==> exists|k: int|
                            0 <= k < nterms && !term_passes(
                                #[trigger] q.terms@[k],
                                world.archetypes@[a as int],
                                r as int,
                                since,
                            ),
                    decreases nterms - t,
                {
                    if pass {
                        proof {
                            assert(world.archetypes@[a as int].wf());
                        }
                        if !t_passes(&q.terms[t], &fetches[t], &world.archetypes[a], r, since) {
                            pass = false;
                        }
                    }
                    t = t + 1;
                }
                if pass {
                    let mut item: Vec<ItemPart> = Vec::new();
                    let mut t: usize = 0;
                    while t < nterms
                        invariant
                            a < narch,
                            narch == world.archetypes@.len(),
                            r < rows,
                            t <= nterms,
                            nterms == q.terms@.len(),
                            world.wf(),
                            rows == world.archetypes@[a as int].rows(),
                            fetches@.len() == nterms,
                            forall|k: int|
                                0 <= k < nterms ==> fetch_ok(
                                    #[trigger] fetches@[k],
                                    q.terms@[k],
                                    world.archetypes@[a as int],
                                ),
                            item@.len() == t,
                            forall|k: int|
                                0 <= k < t ==> (#[trigger] item@[k]) == term_item(
                                    q.terms@[k],
                                    world.archetypes@[a as int],
                                    r as int,
                                ),
                        decreases nterms - t,
                    {
                        proof {
                            assert(world.archetypes@[a as int].wf());
                        }
                        let part = t_item(&q.terms[t], &fetches[t], &world.archetypes[a], r);
                        item.push(part);
                        t = t + 1;
                    }
                    proof {
                        assert(item@ =~= row_item(
                            q.terms@,
                            world.archetypes@[a as int],
                            r as int,
                        ));
                        assert(row_passes(*world, q.terms@, since, a as int, r as int));
                    }
                    let ghost out0 = out@;
                    out.push(item);
                    proof {
                        assert(vecs_view(out@) =~= vecs_view(out0).push(item@));
                    }
                } else {
                    proof {
                        assert(!row_passes(*world, q.terms@, since, a as int, r as int)) by {
                            let k = choose|k: int|
                                0 <= k < nterms && !term_passes(
                                    #[trigger] q.terms@[k],
                                    world.archetypes@[a as int],
                                    r as int,
                                    since,
                                );
                            assert(0 <= k < q.terms@.len());
                        }
                    }
                }
                proof {
                    assert(vecs_view(out@) == archs_view(*world, q.terms@, since, a as int)
                        + rows_view(*world, q.terms@, since, a as int, r + 1 as int));
                }
                r = r + 1;
            }
            proof {
                assert(vecs_view(out@) == archs_view(*world, q.terms@, since, a + 1 as int));
            }
        } else {
            proof {
                assert(vecs_view(out@) =~= archs_view(*world, q.terms@, since, a + 1 as int));
            }
        }
        a = a + 1;
    }
    let accepts = {
        let mut acc = true;
        let mut t: usize = 0;
        while t < q.terms.len()
            invariant
                t <= q.terms@.len(),
                acc == (forall|k: int|
                    0 <= k < t ==> match #[trigger] q.terms@[k] {
                        Term::Entities => true,
                        Term::OptRead(_) => true,
                        Term::Without(_) => true,
                        Term::NotRelatesTo(_, _) => true,
                        _ => false,
                    }),
            decreases q.terms@.len() - t,
        {
            let ok = match &q.terms[t] {
                Term::Entities => true,
                Term::OptRead(_) => true,
                Term::Without(_) => true,
                Term::NotRelatesTo(_, _) => true,
                _ => false,
            };
            acc = acc && ok;
            t = t + 1;
        }
        acc
    };
    proof {
        assert(accepts == terms_accept_absence(q.terms@));
    }
    if accepts {
        let nslots = world.slots.len();
        let mut i: usize = 0;
        while i < nslots
            invariant
                i <= nslots,
                nslots == world.slots@.len(),
                world.wf(),
                terms_accept_absence(q.terms@),
                vecs_view(out@) == query_view(*world, q.terms@, since) + tail_view(
                    *world,
                    q.terms@,
                    i as int,
                ),
            decreases nslots - i,
        {
            let slot = world.slots[i];
            if matches!(slot.loc, crate::world::Loc::Reserved) {
                let e = EntityId { index: i as u32, generation: slot.generation };
                let nterms = q.terms.len();
                let mut item: Vec<ItemPart> = Vec::new();
                let mut t: usize = 0;
                while t < nterms
                    invariant
                        t <= nterms,
                        nterms == q.terms@.len(),
                        item@.len() == t,
                        forall|k: int|
                            0 <= k < t ==> (#[trigger] item@[k]) == term_tail_item(
                                q.terms@[k],
                                e,
                            ),
                    decreases nterms - t,
                {
                    let part = match &q.terms[t] {
                        Term::Entities => ItemPart::Id(e),
                        Term::OptRead(_) => ItemPart::Absent,
                        _ => ItemPart::Mark,
                    };
                    item.push(part);
                    t = t + 1;
                }
                proof {
                    assert(item@ =~= tail_item(q.terms@, e));
                }
                let ghost out0 = out@;
                out.push(item);
                proof {
                    assert(vecs_view(out@) =~= vecs_view(out0).push(item@));
                    assert(vecs_view(out@) == query_view(*world, q.terms@, since) + tail_view(
                        *world,
                        q.terms@,
                        i + 1 as int,
                    ));
                }
            } else {
                proof {
                    assert(vecs_view(out@) =~= query_view(*world, q.terms@, since) + tail_view(
                        *world,
                        q.terms@,
                        i + 1 as int,
                    ));
                }
            }
            i = i + 1;
        }
    } else {
        proof {
            assert(tail_view(*world, q.terms@, world.slots@.len() as int) == Seq::<
                Seq<ItemPart>,
            >::empty());
            assert(vecs_view(out@) =~= query_view(*world, q.terms@, since) + tail_view(
                *world,
                q.terms@,
                world.slots@.len() as int,
            ));
        }
    }
    Ok(out)
}


} // verus!
