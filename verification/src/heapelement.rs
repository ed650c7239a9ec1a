//! A total-ordering adapter around a (payload, cost) pair. The ordering is
//! inverted relative to cost, so that in a container that pops its greatest
//! element first the element with the smallest cost pops first. Ordering and
//! equality are defined purely by cost, never by payload: two elements with
//! equal cost and different payloads compare as equal, by design.

use vstd::prelude::*;

use core::cmp::Ordering;

verus! {

use vstd::std_specs::cmp::PartialEqSpec;
use vstd::std_specs::cmp::PartialOrdSpec;

/// A payload paired with an integer cost, compared by cost alone and in
/// reverse, as a building block for smallest-cost-first searches.
#[derive(Clone, Copy, Debug)]
pub struct HeapElement<T> {
    node: T,
    cost: i64,
}

impl<T> HeapElement<T> {
    /// Wraps `node` with the cost that will drive every comparison.
    pub fn new(node: T, cost: i64) -> (e: Self)
        ensures
            e.node_spec() == node,
            e.cost_spec() == cost,
    {
        Self { node, cost }
    }

    /// Returns the wrapped payload; comparisons never look at it.
    pub fn node(&self) -> (n: &T)
        ensures
            n == &self.node_spec(),
    {
        &self.node
    }

    /// The cost this element is ordered by.
    pub closed spec fn cost_spec(&self) -> i64 {
        self.cost
    }

    /// The wrapped payload, at the spec level.
    pub closed spec fn node_spec(&self) -> T {
        self.node
    }
}

impl<T> PartialEq for HeapElement<T> {
    fn eq(&self, other: &Self) -> (r: bool) {
        self.cost == other.cost
    }
}

impl<T> Eq for HeapElement<T> {

}

impl<T> vstd::std_specs::cmp::PartialEqSpecImpl for HeapElement<T> {
    open spec fn obeys_eq_spec() -> bool {
        true
    }

    open spec fn eq_spec(&self, other: &Self) -> bool {
        self.cost_spec() == other.cost_spec()
    }
}

impl<T> PartialOrd for HeapElement<T> {
    fn partial_cmp(&self, other: &Self) -> (r: Option<Ordering>) {
        if other.cost < self.cost {
            Some(Ordering::Less)
        } else if other.cost == self.cost {
            Some(Ordering::Equal)
        } else {
            Some(Ordering::Greater)
        }
    }
}

impl<T> vstd::std_specs::cmp::PartialOrdSpecImpl for HeapElement<T> {
    open spec fn obeys_partial_cmp_spec() -> bool {
        true
    }

    open spec fn partial_cmp_spec(&self, other: &Self) -> Option<Ordering> {
        if other.cost_spec() < self.cost_spec() {
            Some(Ordering::Less)
        } else if other.cost_spec() == self.cost_spec() {
            Some(Ordering::Equal)
        } else {
            Some(Ordering::Greater)
        }
    }
}

/// The element with the smaller cost compares as the greater one, whatever
/// the payloads, so it pops first from a greatest-first container.
pub proof fn lemma_smaller_cost_compares_greater<T>(a: HeapElement<T>, b: HeapElement<T>)
    requires
        a.cost_spec() < b.cost_spec(),
    ensures
        a.partial_cmp_spec(&b) == Some(Ordering::Greater),
        b.partial_cmp_spec(&a) == Some(Ordering::Less),
{
}

/// Elements with equal costs are equal and compare as equal, whatever the
/// payloads.
pub proof fn lemma_equal_cost_compares_equal<T>(a: HeapElement<T>, b: HeapElement<T>)
    requires
        a.cost_spec() == b.cost_spec(),
    ensures
        a.eq_spec(&b),
        a.partial_cmp_spec(&b) == Some(Ordering::Equal),
{
}

} // verus!
