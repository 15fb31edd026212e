//! The total order on literals.

use crate::literal::Lit;
use core::cmp::Ordering;
use vstd::prelude::*;
use vstd::std_specs::cmp::PartialOrdSpecImpl;

verus! {

impl PartialOrd for Lit {
    fn partial_cmp(&self, other: &Lit) -> (r: Option<Ordering>) {
        let a: u64 = self.raw();
        let b: u64 = other.raw();
        if a < b {
            Some(Ordering::Less)
        } else if a == b {
            Some(Ordering::Equal)
        } else {
            Some(Ordering::Greater)
        }
    }
}

impl PartialOrdSpecImpl for Lit {
    open spec fn obeys_partial_cmp_spec() -> bool {
        true
    }

    open spec fn partial_cmp_spec(&self, other: &Lit) -> Option<Ordering> {
        if self.rank() < other.rank() {
            Some(Ordering::Less)
        } else if self.rank() == other.rank() {
            Some(Ordering::Equal)
        } else {
            Some(Ordering::Greater)
        }
    }
}

/// The larger of two literals.
pub open spec fn larger(a: Lit, b: Lit) -> Lit {
    if a.rank() < b.rank() {
        b
    } else {
        a
    }
}

/// The smaller of two literals.
pub open spec fn smaller(a: Lit, b: Lit) -> Lit {
    if a.rank() < b.rank() {
        a
    } else {
        b
    }
}

/// The larger and the smaller of two literals, in that order.
pub fn sort_2_lits(lits: (Lit, Lit)) -> (r: (Lit, Lit))
    ensures
        r == (larger(lits.0, lits.1), smaller(lits.0, lits.1)),
{
    let (i1, i0) = lits;
    if i1 < i0 {
        (i0, i1)
    } else {
        (i1, i0)
    }
}

/// Three literals from the largest to the smallest.
pub fn sort_3_lits(lits: (Lit, Lit, Lit)) -> (r: (Lit, Lit, Lit))
    ensures
        r.0 == larger(larger(lits.0, lits.1), lits.2),
        r.1 == larger(smaller(lits.0, lits.1), smaller(larger(lits.0, lits.1), lits.2)),
        r.2 == smaller(smaller(lits.0, lits.1), lits.2),
        r.0.rank() >= r.1.rank() >= r.2.rank(),
{
    let (i2, i1, i0) = lits;
    let (i2, i1) = sort_2_lits((i2, i1));
    let (i1, i0) = sort_2_lits((i1, i0));
    let (i2, i1) = sort_2_lits((i2, i1));
    (i2, i1, i0)
}

} // verus!
