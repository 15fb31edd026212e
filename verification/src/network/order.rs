//! The total order on signals.

use super::signal::Signal;
use core::cmp::Ordering;
use vstd::prelude::*;
use vstd::std_specs::cmp::PartialOrdSpecImpl;

verus! {

impl PartialOrd for Signal {
    fn partial_cmp(&self, other: &Signal) -> (r: Option<Ordering>) {
        let a: u64 = self.raw();
        let b: u64 = other.raw();
        if a < b {
            Some(Ordering::Less)
        } else if a == b {
            Some(Ordering::Equal)
        } else {
            Some(Ordering::Greater)
        }
    }
}

impl PartialOrdSpecImpl for Signal {
    open spec fn obeys_partial_cmp_spec() -> bool {
        true
    }

    open spec fn partial_cmp_spec(&self, other: &Signal) -> Option<Ordering> {
        if self.rank() < other.rank() {
            Some(Ordering::Less)
        } else if self.rank() == other.rank() {
            Some(Ordering::Equal)
        } else {
            Some(Ordering::Greater)
        }
    }
}

/// The larger of two signals.
pub open spec fn hi2(a: Signal, b: Signal) -> Signal {
    if a.rank() < b.rank() {
        b
    } else {
        a
    }
}

/// The smaller of two signals.
pub open spec fn lo2(a: Signal, b: Signal) -> Signal {
    if a.rank() < b.rank() {
        a
    } else {
        b
    }
}

/// The largest of three signals.
pub open spec fn hi3(a: Signal, b: Signal, c: Signal) -> Signal {
    hi2(hi2(a, b), c)
}

/// The median of three signals.
pub open spec fn mid3(a: Signal, b: Signal, c: Signal) -> Signal {
    hi2(lo2(a, b), lo2(hi2(a, b), c))
}

/// The smallest of three signals.
pub open spec fn lo3(a: Signal, b: Signal, c: Signal) -> Signal {
    lo2(lo2(a, b), c)
}

/// The larger and the smaller of two signals, in that order.
pub fn sort_2(a: Signal, b: Signal) -> (r: (Signal, Signal))
    ensures
        r == (hi2(a, b), lo2(a, b)),
{
    if a < b {
        (b, a)
    } else {
        (a, b)
    }
}

/// Three signals from the largest to the smallest.
pub fn sort_3(a: Signal, b: Signal, c: Signal) -> (r: (Signal, Signal, Signal))
    ensures
        r == (hi3(a, b, c), mid3(a, b, c), lo3(a, b, c)),
{
    let (i2, i1) = sort_2(a, b);
    let (i1, i0) = sort_2(i1, c);
    let (i2, i1) = sort_2(i2, i1);
    (i2, i1, i0)
}

} // verus!
