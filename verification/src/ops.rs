//! The operators `+`, `-`, `*`, `/` and unary `-` on borrowed surreal
//! values. Each hands its operands to the arithmetic engine and states
//! the form of what comes back. Division may fail, so `/` gives a
//! `Result`; it works under the default ceilings.

use crate::ceiling::Ceiling;
use crate::error::SurrealError;
use crate::surreal::{outcome, Surreal};
use vstd::prelude::*;
use vstd::std_specs::ops::{AddSpecImpl, DivSpecImpl, MulSpecImpl, NegSpecImpl, SubSpecImpl};

verus! {

impl<'a, 'b> std::ops::Add<&'b Surreal> for &'a Surreal {
    type Output = Surreal;

    /// The sum of the two values.
    fn add(self, other: &'b Surreal) -> (s: Surreal)
        ensures
            s@ == self@.plus(other@),
    {
        crate::arith::add(self, other)
    }
}

impl<'a, 'b> AddSpecImpl<&'b Surreal> for &'a Surreal {
    open spec fn obeys_add_spec() -> bool {
        false
    }

    open spec fn add_req(self, other: &'b Surreal) -> bool {
        true
    }

    open spec fn add_spec(self, other: &'b Surreal) -> Surreal {
        *self
    }
}

impl<'a, 'b> std::ops::Sub<&'b Surreal> for &'a Surreal {
    type Output = Surreal;

    /// The difference of the two values.
    fn sub(self, other: &'b Surreal) -> (s: Surreal)
        ensures
            s@ == self@.minus(other@),
    {
        crate::arith::sub(self, other)
    }
}

impl<'a, 'b> SubSpecImpl<&'b Surreal> for &'a Surreal {
    open spec fn obeys_sub_spec() -> bool {
        false
    }

    open spec fn sub_req(self, other: &'b Surreal) -> bool {
        true
    }

    open spec fn sub_spec(self, other: &'b Surreal) -> Surreal {
        *self
    }
}

impl<'a, 'b> std::ops::Mul<&'b Surreal> for &'a Surreal {
    type Output = Surreal;

    /// The product of the two values by Conway's rule.
    fn mul(self, other: &'b Surreal) -> (s: Surreal)
        ensures
            s@ == self@.times(other@),
    {
        crate::product::mul(self, other)
    }
}

impl<'a, 'b> MulSpecImpl<&'b Surreal> for &'a Surreal {
    open spec fn obeys_mul_spec() -> bool {
        false
    }

    open spec fn mul_req(self, other: &'b Surreal) -> bool {
        true
    }

    open spec fn mul_spec(self, other: &'b Surreal) -> Surreal {
        *self
    }
}

impl<'a> std::ops::Neg for &'a Surreal {
    type Output = Surreal;

    /// The negative of the value.
    fn neg(self) -> (s: Surreal)
        ensures
            s@ == self@.negate(),
    {
        crate::arith::neg(self)
    }
}

impl<'a> NegSpecImpl for &'a Surreal {
    open spec fn obeys_neg_spec() -> bool {
        false
    }

    open spec fn neg_req(self) -> bool {
        true
    }

    open spec fn neg_spec(self) -> Surreal {
        *self
    }
}

impl<'a, 'b> std::ops::Div<&'b Surreal> for &'a Surreal {
    type Output = Result<Surreal, SurrealError>;

    /// The quotient of the two values under the default ceilings.
    fn div(self, other: &'b Surreal) -> (r: Result<Surreal, SurrealError>)
        ensures
            outcome(r) == self@.quotient(other@, 4, 8, 10),
    {
        crate::quotient::divide(self, other, Ceiling::default())
    }
}

impl<'a, 'b> DivSpecImpl<&'b Surreal> for &'a Surreal {
    open spec fn obeys_div_spec() -> bool {
        false
    }

    open spec fn div_req(self, other: &'b Surreal) -> bool {
        true
    }

    open spec fn div_spec(self, other: &'b Surreal) -> Result<Surreal, SurrealError> {
        Ok(*self)
    }
}

} // verus!
