//! `==` and `<` on surreal values, both decided by the order engine.

use crate::order::leq;
use crate::surreal::Surreal;
use std::cmp::Ordering;
use vstd::prelude::*;
use vstd::std_specs::cmp::{PartialEqSpecImpl, PartialOrdSpecImpl};

verus! {

impl PartialEq for Surreal {
    /// Two values are equal when each is at most the other, whatever
    /// their shape.
    fn eq(&self, other: &Surreal) -> (r: bool) {
        leq(self, other) && leq(other, self)
    }
}

impl PartialEqSpecImpl for Surreal {
    open spec fn obeys_eq_spec() -> bool {
        true
    }

    open spec fn eq_spec(&self, other: &Surreal) -> bool {
        self@.le(other@) && other@.le(self@)
    }
}

impl Eq for Surreal {

}

impl PartialOrd for Surreal {
    /// `Greater` when `self <= other` fails, else `Less` when
    /// `other <= self` fails, else `Equal`.
    fn partial_cmp(&self, other: &Surreal) -> (r: Option<Ordering>) {
        if !leq(self, other) {
            Some(Ordering::Greater)
        } else if !leq(other, self) {
            Some(Ordering::Less)
        } else {
            Some(Ordering::Equal)
        }
    }
}

impl PartialOrdSpecImpl for Surreal {
    open spec fn obeys_partial_cmp_spec() -> bool {
        true
    }

    open spec fn partial_cmp_spec(&self, other: &Surreal) -> Option<Ordering> {
        if !self@.le(other@) {
            Some(Ordering::Greater)
        } else if !other@.le(self@) {
            Some(Ordering::Less)
        } else {
            Some(Ordering::Equal)
        }
    }
}

} // verus!
