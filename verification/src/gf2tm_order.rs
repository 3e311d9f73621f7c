//! The order of the elements of GF(2^M): that of the numbers that stand for them.

use vstd::prelude::*;
use crate::gf2tm::GF2TM;
use std::cmp::Ordering;

verus! {

impl<const M: u32> PartialOrd for GF2TM<M> {
    fn partial_cmp(&self, other: &Self) -> (r: Option<Ordering>) {
        self.value().poly.partial_cmp(&other.value().poly)
    }
}

impl<const M: u32> vstd::std_specs::cmp::PartialOrdSpecImpl for GF2TM<M> {
    open spec fn obeys_partial_cmp_spec() -> bool {
        true
    }

    open spec fn partial_cmp_spec(&self, other: &Self) -> Option<Ordering> {
        if self.spec_value() < other.spec_value() {
            Some(Ordering::Less)
        } else if self.spec_value() == other.spec_value() {
            Some(Ordering::Equal)
        } else {
            Some(Ordering::Greater)
        }
    }
}

} // verus!
