//! The order of moments: by year, then month, day, hour, minute and second.

use crate::datetime::Datetime;
use core::cmp::Ordering;
use vstd::prelude::*;

verus! {

impl PartialOrd for Datetime {
    /// How `self` stands to `other`: before it, after it, or the same moment.
    fn partial_cmp(&self, other: &Datetime) -> (r: Option<Ordering>) {
        if self.before(other) {
            Some(Ordering::Less)
        } else if other.before(self) {
            Some(Ordering::Greater)
        } else {
            Some(Ordering::Equal)
        }
    }
}

impl vstd::std_specs::cmp::PartialOrdSpecImpl for Datetime {
    /// The order is the one that `partial_cmp_spec` states.
    open spec fn obeys_partial_cmp_spec() -> bool {
        true
    }

    /// The order of the model: field by field from the year down.
    open spec fn partial_cmp_spec(&self, other: &Datetime) -> Option<Ordering> {
        if self@.before(other@) {
            Some(Ordering::Less)
        } else if other@.before(self@) {
            Some(Ordering::Greater)
        } else {
            Some(Ordering::Equal)
        }
    }
}

} // verus!
