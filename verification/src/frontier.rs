//! Positions ordered by the cost of reaching them, for a search that takes
//! the cheapest first.

use vstd::prelude::*;
use vstd::std_specs::cmp::{PartialEqSpecImpl, PartialOrdSpecImpl};
use std::cmp::Ordering;
use crate::geometry::Position;

verus! {

/// A position with the weight at which a search reached it. Such positions
/// are compared by weight alone, and the lighter one is the greater: a heap
/// that hands out its greatest item hands out the lightest position.
#[derive(Debug, Clone, Copy)]
pub struct OrdPosition {
    pub position: Position,
    pub weight: i32,
}

impl PartialEq for OrdPosition {
    fn eq(&self, other: &OrdPosition) -> (same: bool) {
        self.weight == other.weight
    }
}

impl PartialEqSpecImpl for OrdPosition {
    open spec fn obeys_eq_spec() -> bool {
        true
    }

    open spec fn eq_spec(&self, other: &OrdPosition) -> bool {
        self.weight == other.weight
    }
}

impl Eq for OrdPosition {

}

impl PartialOrd for OrdPosition {
    fn partial_cmp(&self, other: &OrdPosition) -> (order: Option<Ordering>) {
        if other.weight < self.weight {
            Some(Ordering::Less)
        } else if other.weight == self.weight {
            Some(Ordering::Equal)
        } else {
            Some(Ordering::Greater)
        }
    }
}

impl PartialOrdSpecImpl for OrdPosition {
    open spec fn obeys_partial_cmp_spec() -> bool {
        true
    }

    open spec fn partial_cmp_spec(&self, other: &OrdPosition) -> Option<Ordering> {
        if other.weight < self.weight {
            Some(Ordering::Less)
        } else if other.weight == self.weight {
            Some(Ordering::Equal)
        } else {
            Some(Ordering::Greater)
        }
    }
}

/// Tells whether `a` comes out of a search before `b`: whether it is the
/// lighter of the two.
pub fn lighter(a: &OrdPosition, b: &OrdPosition) -> (first: bool)
    ensures
        first == (a.weight < b.weight),
{
    *a > *b
}

} // verus!
