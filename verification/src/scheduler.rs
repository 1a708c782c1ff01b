//! The scheduler: systems, their declared access, and conflict-free
//! stages.
//!
//! A system is registered with its access set: the component and
//! resource types it reads or writes. The scheduler keeps systems in
//! insertion order and packs them greedily, left to right, into stages:
//! a system joins the current stage unless its access set conflicts with
//! one already there, in which case a new stage begins. Running the
//! systems' bodies is the caller's affair; the stage plan guarantees
//! that no two systems of one stage conflict.

use vstd::prelude::*;

verus! {

/// One declared access of a system.
#[derive(Clone, Copy, Debug, PartialEq, Eq, Structural)]
pub enum AccessItem {
    /// Reads or writes the component type.
    Component { ty: u32, write: bool },
    /// Reads or writes the resource type.
    Resource { ty: u32, write: bool },
    /// A dynamic access that cannot be pinned to a type: conflicts with
    /// everything, for safety.
    All,
}

/// Whether two single accesses conflict: same type and at least one
/// writes; a dynamic access conflicts with anything.
pub open spec fn items_conflict(x: AccessItem, y: AccessItem) -> bool {
    match (x, y) {
        (AccessItem::All, _) => true,
        (_, AccessItem::All) => true,
        (
            AccessItem::Component { ty: t1, write: w1 },
            AccessItem::Component { ty: t2, write: w2 },
        ) => t1 == t2 && (w1 || w2),
        (AccessItem::Resource { ty: t1, write: w1 }, AccessItem::Resource { ty: t2, write: w2 }) => t1
            == t2 && (w1 || w2),
        _ => false,
    }
}

/// Whether two access sets conflict anywhere.
pub open spec fn sets_conflict(s1: Seq<AccessItem>, s2: Seq<AccessItem>) -> bool {
    exists|i: int, j: int|
        0 <= i < s1.len() && 0 <= j < s2.len() && items_conflict(#[trigger] s1[i], #[trigger] s2[j])
}

/// Whether two single accesses conflict.
pub fn items_conflict_check(x: &AccessItem, y: &AccessItem) -> (r: bool)
    ensures
        r == items_conflict(*x, *y),
{
    match (x, y) {
        (AccessItem::All, _) => true,
        (_, AccessItem::All) => true,
        (
            AccessItem::Component { ty: t1, write: w1 },
            AccessItem::Component { ty: t2, write: w2 },
        ) => *t1 == *t2 && (*w1 || *w2),
        (
            AccessItem::Resource { ty: t1, write: w1 },
            AccessItem::Resource { ty: t2, write: w2 },
        ) => *t1 == *t2 && (*w1 || *w2),
        _ => false,
    }
}

/// Whether two access sets conflict anywhere.
pub fn sets_conflict_check(s1: &Vec<AccessItem>, s2: &Vec<AccessItem>) -> (r: bool)
    ensures
        r == sets_conflict(s1@, s2@),
{
    let mut i: usize = 0;
    while i < s1.len()
        invariant
            i <= s1@.len(),
            forall|x: int, y: int|
                0 <= x < i && 0 <= y < s2@.len() ==> !items_conflict(
                    #[trigger] s1@[x],
                    #[trigger] s2@[y],
                ),
        decreases s1@.len() - i,
    {
        let mut j: usize = 0;
        while j < s2.len()
            invariant
                i < s1@.len(),
                j <= s2@.len(),
                forall|y: int| 0 <= y < j ==> !items_conflict(s1@[i as int], #[trigger] s2@[y]),
            decreases s2@.len() - j,
        {
            if items_conflict_check(&s1[i], &s2[j]) {
                proof {
                    assert(items_conflict(s1@[i as int], s2@[j as int]));
                }
                return true;
            }
            j = j + 1;
        }
        i = i + 1;
    }
    false
}

/// The scheduler: access sets of the registered systems, in insertion
/// order.
pub struct Scheduler {
    /// One access set per system.
    pub systems: Vec<Vec<AccessItem>>,
}

/// The indices of one stage are the consecutive integers starting at
/// its first member.
pub open spec fn stage_contiguous(stage: Seq<usize>) -> bool {
    forall|k: int| 0 <= k < stage.len() ==> (#[trigger] stage[k]) as int == stage[0] + k
}

/// The first system of a new stage conflicts with some member of the
/// stage before it: the greedy packing opens no stage early.
pub open spec fn greedy_boundary(
    systems: Seq<Vec<AccessItem>>,
    prev: Seq<usize>,
    first: usize,
) -> bool {
    exists|k: int|
        0 <= k < prev.len() && sets_conflict(
            systems[first as int]@,
            systems[(#[trigger] prev[k]) as int]@,
        )
}

/// No two distinct systems of the stage conflict.
pub open spec fn stage_safe(systems: Seq<Vec<AccessItem>>, stage: Seq<usize>) -> bool {
    forall|k1: int, k2: int|
        0 <= k1 < stage.len() && 0 <= k2 < stage.len() && k1 != k2 ==> !sets_conflict(
            systems[(#[trigger] stage[k1]) as int]@,
            systems[(#[trigger] stage[k2]) as int]@,
        )
}

impl Scheduler {
    /// A fresh scheduler without systems.
    pub fn new() -> (s: Scheduler)
        ensures
            s.systems@.len() == 0,
    {
        Scheduler { systems: Vec::new() }
    }

    /// Registers a system, described by its access set, after all
    /// systems registered so far.
    pub fn add_system(&mut self, access: Vec<AccessItem>)
        ensures
            final(self).systems@ == old(self).systems@.push(access),
    {
        self.systems.push(access);
    }

    /// Packs the systems into stages, greedily and in order: each
    /// system joins the current stage unless it conflicts with a system
    /// already in it. The result partitions `0..n` into consecutive
    /// runs; within one stage no two systems conflict, and each stage
    /// after the first begins with a system that conflicts with one of
    /// the stage before it.
    pub fn stages(&self) -> (st: Vec<Vec<usize>>)
        ensures
            self.systems@.len() == 0 ==> st@.len() == 0,
            self.systems@.len() > 0 ==> st@.len() >= 1 && st@[0]@.len() > 0 && st@[0]@[0] == 0,
            forall|s: int| 0 <= s < st@.len() ==> (#[trigger] st@[s]@).len() > 0,
            forall|s: int, k: int|
                0 <= s < st@.len() && 0 <= k < st@[s]@.len() ==> ((#[trigger] st@[s]@[k]) as int)
                    < self.systems@.len(),
            forall|s: int| 0 <= s < st@.len() ==> stage_contiguous(#[trigger] st@[s]@),
            forall|s: int|
                1 <= s < st@.len() ==> (#[trigger] st@[s]@)[0] as int == st@[s - 1]@[0] + st@[s
                    - 1]@.len(),
            st@.len() > 0 ==> st@[st@.len() - 1]@[0] + st@[st@.len() - 1]@.len()
                == self.systems@.len(),
            forall|s: int| 0 <= s < st@.len() ==> stage_safe(self.systems@, #[trigger] st@[s]@),
            forall|s: int|
                1 <= s < st@.len() ==> greedy_boundary(
                    self.systems@,
                    st@[s - 1]@,
                    (#[trigger] st@[s]@)[0],
                ),
    {
        let n = self.systems.len();
        let mut st: Vec<Vec<usize>> = Vec::new();
        let mut cur: Vec<usize> = Vec::new();
        let mut i: usize = 0;
        while i < n
            invariant
                i <= n,
                n == self.systems@.len(),
                i == 0 ==> st@.len() == 0 && cur@.len() == 0,
                i > 0 ==> cur@.len() > 0,
                i > 0 ==> (st@.len() == 0 ==> cur@[0] == 0),
                i > 0 ==> (st@.len() > 0 ==> st@[0]@.len() > 0 && st@[0]@[0] == 0),
                forall|s: int| 0 <= s < st@.len() ==> (#[trigger] st@[s]@).len() > 0,
                forall|s: int, k: int|
                    0 <= s < st@.len() && 0 <= k < st@[s]@.len() ==> ((#[trigger] st@[s]@[k]) as int)
                        < i,
                forall|k: int| 0 <= k < cur@.len() ==> ((#[trigger] cur@[k]) as int) < i,
                forall|s: int| 0 <= s < st@.len() ==> stage_contiguous(#[trigger] st@[s]@),
                stage_contiguous(cur@),
                forall|s: int|
                    1 <= s < st@.len() ==> (#[trigger] st@[s]@)[0] as int == st@[s - 1]@[0] + st@[s
                        - 1]@.len(),
                i > 0 && st@.len() > 0 ==> cur@[0] as int == st@[st@.len() - 1]@[0] + st@[st@.len()
                    - 1]@.len(),
                i > 0 ==> cur@[0] + cur@.len() == i,
                forall|s: int| 0 <= s < st@.len() ==> stage_safe(self.systems@, #[trigger] st@[s]@),
                stage_safe(self.systems@, cur@),
                forall|s: int|
                    1 <= s < st@.len() ==> greedy_boundary(
                        self.systems@,
                        st@[s - 1]@,
                        (#[trigger] st@[s]@)[0],
                    ),
                i > 0 && st@.len() > 0 ==> greedy_boundary(
                    self.systems@,
                    st@[st@.len() - 1]@,
                    cur@[0],
                ),
            decreases n - i,
        {
            let mut clash = false;
            let mut k: usize = 0;
            while k < cur.len()
                invariant
                    k <= cur@.len(),
                    i < n,
                    n == self.systems@.len(),
                    forall|m: int| 0 <= m < cur@.len() ==> ((#[trigger] cur@[m]) as int) < i,
                    clash ==> greedy_boundary(self.systems@, cur@, i),
                    !clash ==> forall|m: int|
                        0 <= m < k ==> !sets_conflict(
                            self.systems@[i as int]@,
                            self.systems@[(#[trigger] cur@[m]) as int]@,
                        ),
                decreases cur@.len() - k,
            {
                if !clash {
                    if sets_conflict_check(&self.systems[i], &self.systems[cur[k]]) {
                        clash = true;
                    }
                }
                k = k + 1;
            }
            if clash {
                let ghost st0 = st@;
                let ghost cur0 = cur@;
                st.push(cur);
                cur = Vec::new();
                cur.push(i);
                proof {
                    assert(st@.len() == st0.len() + 1);
                    assert(forall|s: int| 0 <= s < st0.len() ==> st@[s] == st0[s]);
                    assert(st@[st0.len() as int]@ == cur0);
                    assert forall|s: int| 0 <= s < st@.len() implies stage_safe(
                        self.systems@,
                        #[trigger] st@[s]@,
                    ) by {
                        if s < st0.len() {
                            assert(st@[s] == st0[s]);
                        } else {
                            assert(st@[s]@ == cur0);
                        }
                    }
                    assert(cur@[0] == i);
                    assert(stage_contiguous(cur@));
                }
            } else {
                let ghost cur0 = cur@;
                cur.push(i);
                proof {
                    assert(cur@ == cur0.push(i));
                    assert(stage_contiguous(cur@)) by {
                        if cur0.len() > 0 {
                            assert forall|k2: int| 0 <= k2 < cur@.len() implies (
                            #[trigger] cur@[k2]) as int == cur@[0] + k2 by {
                                if k2 < cur0.len() {
                                    assert(cur@[k2] == cur0[k2]);
                                } else {
                                    assert(cur@[k2] == i);
                                    assert(cur0[0] + cur0.len() == i as int);
                                }
                            }
                        }
                    }
                    assert(stage_safe(self.systems@, cur@)) by {
                        assert forall|k1: int, k2: int|
                            0 <= k1 < cur@.len() && 0 <= k2 < cur@.len() && k1
                                != k2 implies !sets_conflict(
                            self.systems@[(#[trigger] cur@[k1]) as int]@,
                            self.systems@[(#[trigger] cur@[k2]) as int]@,
                        ) by {
                            if k1 < cur0.len() && k2 < cur0.len() {
                                assert(cur@[k1] == cur0[k1] && cur@[k2] == cur0[k2]);
                            } else if k2 == cur0.len() {
                                assert(cur@[k1] == cur0[k1]);
                                assert(cur@[k2] == i);
                                assert(!sets_conflict(
                                    self.systems@[i as int]@,
                                    self.systems@[cur0[k1] as int]@,
                                ));
                                lemma_conflict_symm(
                                    self.systems@[i as int]@,
                                    self.systems@[cur0[k1] as int]@,
                                );
                            } else {
                                assert(k1 == cur0.len());
                                assert(cur@[k1] == i);
                                assert(cur@[k2] == cur0[k2]);
                                assert(!sets_conflict(
                                    self.systems@[i as int]@,
                                    self.systems@[cur0[k2] as int]@,
                                ));
                            }
                        }
                    }
                }
            }
            i = i + 1;
        }
        if cur.len() > 0 {
            let ghost st0 = st@;
            let ghost cur0 = cur@;
            st.push(cur);
            proof {
                assert(st@.len() == st0.len() + 1);
                assert(forall|s: int| 0 <= s < st0.len() ==> st@[s] == st0[s]);
                assert(st@[st0.len() as int]@ == cur0);
                assert forall|s: int| 0 <= s < st@.len() implies stage_safe(
                    self.systems@,
                    #[trigger] st@[s]@,
                ) by {
                    if s < st0.len() {
                        assert(st@[s] == st0[s]);
                    } else {
                        assert(st@[s]@ == cur0);
                    }
                }
            }
        }
        st
    }
}

/// Access conflicts are symmetric.
pub proof fn lemma_conflict_symm(s1: Seq<AccessItem>, s2: Seq<AccessItem>)
    requires
        !sets_conflict(s1, s2),
    ensures
        !sets_conflict(s2, s1),
{
    if sets_conflict(s2, s1) {
        let (i, j) = choose|i: int, j: int|
            0 <= i < s2.len() && 0 <= j < s1.len() && items_conflict(
                #[trigger] s2[i],
                #[trigger] s1[j],
            );
        assert(items_conflict(s1[j], s2[i]));
    }
}

} // verus!
