//! The order in which a search takes cells up: the lowest total cost first.

use vstd::prelude::*;
use vstd::std_specs::cmp::PartialEqSpecImpl;
use vstd::std_specs::cmp::PartialOrdSpecImpl;
use std::cmp::Ordering;

verus! {

/// A total cost as a priority. The order is turned round: of two costs the
/// lower one is the greater priority, so that a queue that hands out its
/// greatest element hands out the cheapest cell.
#[derive(Debug, Clone, Copy)]
pub struct F {
    pub f: u64,
}

impl F {
    /// The number under which this priority stands in a queue that hands out
    /// its greatest number first: the distance of the cost from the greatest
    /// cost there is.
    pub open spec fn key_spec(self) -> int {
        0xffff_ffff_ffff_ffff - self.f
    }

    /// The number under which this priority stands in a queue.
    pub fn key(&self) -> (k: u64)
        ensures
            k == self.key_spec(),
    {
        0xffff_ffff_ffff_ffffu64 - self.f
    }

    /// How this priority stands to another: `Greater` when its cost is lower.
    pub open spec fn order(self, other: F) -> Ordering {
        if self.f > other.f {
            Ordering::Less
        } else if self.f < other.f {
            Ordering::Greater
        } else {
            Ordering::Equal
        }
    }

    /// Compares two priorities: `Less` when this cost is the higher one,
    /// `Greater` when it is the lower one, `Equal` when the costs are equal.
    pub fn cmp(&self, other: &F) -> (o: Ordering)
        ensures
            o == self.order(*other),
    {
        if self.f > other.f {
            Ordering::Less
        } else if self.f < other.f {
            Ordering::Greater
        } else {
            Ordering::Equal
        }
    }
}

impl PartialEq for F {
    fn eq(&self, other: &F) -> (r: bool) {
        self.f == other.f
    }
}

impl PartialEqSpecImpl for F {
    open spec fn obeys_eq_spec() -> bool {
        true
    }

    open spec fn eq_spec(&self, other: &F) -> bool {
        self.f == other.f
    }
}

impl PartialOrd for F {
    fn partial_cmp(&self, other: &F) -> (o: Option<Ordering>) {
        Some(self.cmp(other))
    }
}

impl PartialOrdSpecImpl for F {
    open spec fn obeys_partial_cmp_spec() -> bool {
        true
    }

    open spec fn partial_cmp_spec(&self, other: &F) -> Option<Ordering> {
        Some(self.order(*other))
    }
}

/// The keys stand as the priorities do: the lower cost has the greater key,
/// and equal costs have equal keys.
pub proof fn lemma_key_follows_order(a: F, b: F)
    ensures
        a.order(b) == Ordering::Greater <==> a.key_spec() > b.key_spec(),
        a.order(b) == Ordering::Less <==> a.key_spec() < b.key_spec(),
        a.order(b) == Ordering::Equal <==> a.key_spec() == b.key_spec(),
        a.key_spec() >= b.key_spec() <==> a.f <= b.f,
{
}

} // verus!
