//! Archetypes: columnar tables of entities sharing one component set.
//!
//! An archetype's signature is the strictly sorted sequence of the type
//! identities it carries. It owns one column per type; row `r` of every
//! column and of the entity vector describe the same entity. Each cell
//! carries the epoch of its last write, each column the maximum of its
//! cells' epochs and a runtime borrow counter.

use vstd::prelude::*;

use crate::component::Component;
use crate::entity::EntityId;

verus! {

/// Runtime borrow state of one column.
#[derive(Clone, Copy, Debug, PartialEq, Eq, Structural)]
pub enum Shared {
    /// Nobody holds the column.
    Free,
    /// This many readers hold the column.
    Readers(u32),
    /// One writer holds the column exclusively.
    Exclusive,
}

/// Storage for one component type within one archetype.
pub struct Column {
    /// The type identity stored here.
    pub ty: u32,
    /// One component value per row.
    pub values: Vec<Component>,
    /// The epoch of each row's last write, parallel to `values`.
    pub epochs: Vec<u64>,
    /// An upper bound on every entry of `epochs`.
    pub max_epoch: u64,
    /// The runtime borrow state.
    pub state: Shared,
}

impl Column {
    /// Number of rows.
    pub open spec fn len(self) -> nat {
        self.values@.len()
    }

    /// Internal consistency of one column.
    pub open spec fn wf(self) -> bool {
        &&& self.epochs@.len() == self.values@.len()
        &&& forall|r: int| 0 <= r < self.values@.len() ==> (#[trigger] self.values@[r]).ty
            == self.ty
        &&& forall|r: int| 0 <= r < self.epochs@.len() ==> (#[trigger] self.epochs@[r])
            <= self.max_epoch
        &&& match self.state {
            Shared::Readers(n) => n >= 1,
            _ => true,
        }
    }

    /// A fresh empty column for the given type.
    pub fn empty(ty: u32) -> (col: Column)
        ensures
            col.wf(),
            col.ty == ty,
            col.len() == 0,
            col.max_epoch == 0,
            col.state == Shared::Free,
    {
        Column { ty, values: Vec::new(), epochs: Vec::new(), max_epoch: 0, state: Shared::Free }
    }
}

/// The sequence is strictly increasing.
pub open spec fn strict_sorted(s: Seq<u32>) -> bool {
    forall|i: int, j: int| 0 <= i < j < s.len() ==> s[i] < s[j]
}

/// In a strictly sorted sequence an element occurs at one index only.
pub proof fn lemma_strict_sorted_unique(s: Seq<u32>, i: int, j: int)
    requires
        strict_sorted(s),
        0 <= i < s.len(),
        0 <= j < s.len(),
        s[i] == s[j],
    ensures
        i == j,
{
    if i < j {
        assert(s[i] < s[j]);
    } else if j < i {
        assert(s[j] < s[i]);
    }
}

/// Two strictly sorted sequences over the same set of elements are the
/// same sequence: a sorted signature is determined by its set.
pub proof fn lemma_sorted_set_determines(s1: Seq<u32>, s2: Seq<u32>)
    requires
        strict_sorted(s1),
        strict_sorted(s2),
        s1.to_set() == s2.to_set(),
    ensures
        s1 == s2,
    decreases s1.len(),
{
    if s1.len() == 0 {
        if s2.len() > 0 {
            assert(s2.to_set().contains(s2[0]));
            assert(s1.to_set().contains(s2[0]));
            assert(false);
        }
        assert(s1 =~= s2);
    } else {
        assert(s1.to_set().contains(s1.last()));
        assert(s2.to_set().contains(s1.last()));
        if s2.len() == 0 {
            assert(false);
        }
        assert(s2.to_set().contains(s2.last()));
        assert(s1.to_set().contains(s2.last()));
        let i1 = choose|i: int| 0 <= i < s1.len() && s1[i] == s2.last();
        let i2 = choose|i: int| 0 <= i < s2.len() && s2[i] == s1.last();
        assert(s1[i1] <= s1.last());
        assert(s2[i2] <= s2.last());
        assert(s1.last() == s2.last());
        assert(s1.drop_last().to_set() == s2.drop_last().to_set()) by {
            assert forall|x: u32| s1.drop_last().to_set().contains(x)
                == s2.drop_last().to_set().contains(x) by {
                if s1.drop_last().to_set().contains(x) {
                    let j = choose|j: int| 0 <= j < s1.drop_last().len() && s1.drop_last()[j] == x;
                    assert(s1[j] == x);
                    assert(s1[j] < s1.last());
                    assert(s1.to_set().contains(x));
                    assert(s2.to_set().contains(x));
                    let k = choose|k: int| 0 <= k < s2.len() && s2[k] == x;
                    assert(k < s2.len() - 1) by {
                        if k == s2.len() - 1 {
                            assert(s2[k] == s1.last());
                        }
                    }
                    assert(s2.drop_last()[k] == x);
                    assert(s2.drop_last().to_set().contains(x));
                }
                if s2.drop_last().to_set().contains(x) {
                    let j = choose|j: int| 0 <= j < s2.drop_last().len() && s2.drop_last()[j] == x;
                    assert(s2[j] == x);
                    assert(s2[j] < s2.last());
                    assert(s2.to_set().contains(x));
                    assert(s1.to_set().contains(x));
                    let k = choose|k: int| 0 <= k < s1.len() && s1[k] == x;
                    assert(k < s1.len() - 1) by {
                        if k == s1.len() - 1 {
                            assert(s1[k] == s2.last());
                        }
                    }
                    assert(s1.drop_last()[k] == x);
                    assert(s1.drop_last().to_set().contains(x));
                }
            }
            assert(s1.drop_last().to_set() =~= s2.drop_last().to_set());
        }
        assert(strict_sorted(s1.drop_last()));
        assert(strict_sorted(s2.drop_last()));
        lemma_sorted_set_determines(s1.drop_last(), s2.drop_last());
        assert(s1 =~= s1.drop_last().push(s1.last()));
        assert(s2 =~= s2.drop_last().push(s2.last()));
    }
}

/// A columnar table of all entities that carry exactly the component
/// types of its signature.
pub struct Archetype {
    /// The strictly sorted type identities this archetype carries.
    pub signature: Vec<u32>,
    /// The entity of each row.
    pub entities: Vec<EntityId>,
    /// One column per signature entry, in signature order.
    pub columns: Vec<Column>,
}

impl Archetype {
    /// Number of rows.
    pub open spec fn rows(self) -> nat {
        self.entities@.len()
    }

    /// The signature as a sequence.
    pub open spec fn sig(self) -> Seq<u32> {
        self.signature@
    }

    /// Internal consistency: sorted signature, and all columns parallel
    /// to the entity vector.
    pub open spec fn wf(self) -> bool {
        &&& strict_sorted(self.signature@)
        &&& self.columns@.len() == self.signature@.len()
        &&& forall|c: int|
            0 <= c < self.columns@.len() ==> {
                let col = #[trigger] self.columns@[c];
                col.ty == self.signature@[c] && col.wf() && col.len() == self.rows()
            }
    }

    /// Whether this archetype carries the given component type.
    pub open spec fn has_ty(self, ty: u32) -> bool {
        self.signature@.contains(ty)
    }

    /// The column index of a carried component type.
    pub open spec fn col_idx(self, ty: u32) -> int {
        self.signature@.index_of(ty)
    }

    /// The component value stored for row `r` at type `ty`.
    pub open spec fn cell(self, r: int, ty: u32) -> Component {
        self.columns@[self.col_idx(ty)].values@[r]
    }

    /// The epoch of the last write to row `r`'s cell of type `ty`.
    pub open spec fn cell_epoch(self, r: int, ty: u32) -> u64 {
        self.columns@[self.col_idx(ty)].epochs@[r]
    }

    /// A fresh empty archetype for the given signature.
    pub fn empty(signature: Vec<u32>) -> (arch: Archetype)
        requires
            strict_sorted(signature@),
        ensures
            arch.wf(),
            arch.sig() == signature@,
            arch.rows() == 0,
            forall|c: int| 0 <= c < arch.columns@.len() ==> (#[trigger] arch.columns@[c]).state
                == Shared::Free,
            forall|c: int| 0 <= c < arch.columns@.len() ==> (#[trigger] arch.columns@[c]).max_epoch
                == 0,
    {
        let mut columns: Vec<Column> = Vec::new();
        let mut c: usize = 0;
        while c < signature.len()
            invariant
                c <= signature.len(),
                columns@.len() == c,
                strict_sorted(signature@),
                forall|k: int|
                    0 <= k < c ==> {
                        let col = #[trigger] columns@[k];
                        col.ty == signature@[k] && col.wf() && col.len() == 0 && col.state
                            == Shared::Free && col.max_epoch == 0
                    },
            decreases signature.len() - c,
        {
            columns.push(Column::empty(signature[c]));
            c = c + 1;
        }
        Archetype { signature, entities: Vec::new(), columns }
    }

    /// Whether this archetype carries every one of the given component
    /// types.
    pub fn carries_all(&self, tys: &Vec<u32>) -> (r: bool)
        requires
            self.wf(),
        ensures
            r == (forall|i: int| 0 <= i < tys@.len() ==> self.has_ty(#[trigger] tys@[i])),
    {
        let mut i: usize = 0;
        while i < tys.len()
            invariant
                i <= tys@.len(),
                self.wf(),
                forall|k: int| 0 <= k < i ==> self.has_ty(#[trigger] tys@[k]),
            decreases tys@.len() - i,
        {
            if self.find_col(tys[i]).is_none() {
                proof {
                    assert(!self.has_ty(tys@[i as int]));
                }
                return false;
            }
            i = i + 1;
        }
        true
    }

    /// Finds the column index of a component type by scanning the
    /// signature.
    pub fn find_col(&self, ty: u32) -> (r: Option<usize>)
        requires
            self.wf(),
        ensures
            match r {
                Some(c) => self.has_ty(ty) && c < self.columns@.len() && c as int == self.col_idx(
                    ty,
                ) && self.signature@[c as int] == ty,
                None => !self.has_ty(ty),
            },
    {
        let mut c: usize = 0;
        while c < self.signature.len()
            invariant
                self.wf(),
                c <= self.signature@.len(),
                forall|k: int| 0 <= k < c ==> self.signature@[k] != ty,
            decreases self.signature@.len() - c,
        {
            if self.signature[c] == ty {
                proof {
                    assert(self.signature@[c as int] == ty);
                    assert(self.has_ty(ty));
                    let w = self.signature@.index_of(ty);
                    assert(self.signature@[w] == ty);
                    lemma_strict_sorted_unique(self.signature@, c as int, w);
                }
                return Some(c);
            }
            c = c + 1;
        }
        proof {
            assert forall|k: int| 0 <= k < self.signature@.len() implies self.signature@[k]
                != ty by {}
            assert(!self.has_ty(ty));
        }
        None
    }
}

} // verus!
