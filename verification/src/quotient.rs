//! Inverse and division. The inverse goes by the real numbers: the
//! reciprocal of the number that a value denotes is searched for as a
//! value again, and where that reciprocal is no dyadic number within
//! reach the inverse fails instead of rounding.

use crate::ceiling::Ceiling;
use crate::conv::{divisible, is_divisible, stof, MAX_DEPTH};
use crate::dyadic::{abs_units, magnitude, Dyadic, ONE};
use crate::error::SurrealError;
use crate::form::Form;
use crate::order::leq;
use crate::product::mul_within;
use crate::search::{close, from_real, ftos, lemma_from_real_close};
use crate::surreal::{outcome, Surreal};
use vstd::arithmetic::div_mod::lemma_fundamental_div_mod_converse;
use vstd::prelude::*;

verus! {

/// The count of units of the reciprocal of the number of `v` units:
/// `ONE * ONE / v`, where that is a whole number that fits; `None`
/// otherwise.
pub open spec fn reciprocal(v: int) -> Option<int> {
    let a = magnitude(v);
    if a != 0 && (ONE * ONE) % a == 0 && (ONE * ONE) / a <= i128::MAX {
        Some(
            if v > 0 {
                (ONE * ONE) / a
            } else {
                -((ONE * ONE) / a)
            },
        )
    } else {
        None
    }
}

/// A reciprocal times its number is one.
pub proof fn lemma_reciprocal(v: int)
    ensures
        reciprocal(v) matches Some(r) ==> r * v == ONE * ONE,
{
    let a = magnitude(v);
    if a != 0 && (ONE * ONE) % a == 0 {
        let q = (ONE * ONE) / a;
        assert(q * a == ONE * ONE) by (nonlinear_arith)
            requires
                a != 0,
                (ONE * ONE) % a == 0,
                q == (ONE * ONE) / a,
        ;
        if v < 0 {
            assert((-q) * v == q * a) by (nonlinear_arith)
                requires
                    a == -v,
            ;
        }
    }
}

impl Form {
    /// The inverse of the form under the given ceilings: the form that
    /// the search for the reciprocal of its real number gives. It fails
    /// with `DepthExceeded` where the form is deeper than `MAX_DEPTH`,
    /// with `DivisionByZero` where its number is zero, with
    /// `NonRepresentableQuotient` where the reciprocal is no dyadic
    /// number within reach, and as the search fails.
    pub open spec fn inverse(self, nesting: nat, steps: nat, depth: nat) -> Result<
        Form,
        SurrealError,
    > {
        if self.depth() > MAX_DEPTH {
            Err(SurrealError::DepthExceeded)
        } else if self.value() == 0 {
            Err(SurrealError::DivisionByZero)
        } else {
            match reciprocal(self.value()) {
                None => Err(SurrealError::NonRepresentableQuotient),
                Some(r) => from_real(r, nesting, steps, depth),
            }
        }
    }

    /// The quotient `self / other` under the given ceilings: `self`
    /// times the inverse of `other`, after three tests in this order.
    /// A divisor equivalent to zero is `DivisionByZero`; an operand
    /// deeper than `MAX_DEPTH` is `DepthExceeded`; real numbers whose
    /// quotient is no whole number of 256ths are
    /// `NonRepresentableQuotient`.
    pub open spec fn quotient(
        self,
        other: Form,
        nesting: nat,
        steps: nat,
        depth: nat,
    ) -> Result<Form, SurrealError> {
        if other.equiv(Form::zero()) {
            Err(SurrealError::DivisionByZero)
        } else if self.depth() > MAX_DEPTH || other.depth() > MAX_DEPTH {
            Err(SurrealError::DepthExceeded)
        } else if !divisible(self.value(), other.value()) {
            Err(SurrealError::NonRepresentableQuotient)
        } else {
            match other.inverse(nesting, steps, depth) {
                Err(e) => Err(e),
                Ok(i) => self.times_within(i, nesting),
            }
        }
    }
}

/// Where a division succeeds, the quotient is the dividend times a form
/// of the divisor's inverse: a form whose real number lies within
/// `EPSILON` of the exact reciprocal of the divisor's real number.
pub proof fn lemma_quotient_parts(x: Form, y: Form, nesting: nat, steps: nat, depth: nat)
    requires
        x.quotient(y, nesting, steps, depth) is Ok,
    ensures
        !y.equiv(Form::zero()),
        divisible(x.value(), y.value()),
        y.inverse(nesting, steps, depth) matches Ok(i) && x.quotient(y, nesting, steps, depth) == Ok::<
            Form,
            SurrealError,
        >(x.times(i)) && (reciprocal(y.value()) matches Some(r) && r * y.value() == ONE * ONE
            && close(r, i.value())),
{
    lemma_reciprocal(y.value());
    let r = reciprocal(y.value());
    if r is Some {
        lemma_from_real_close(r->Some_0, nesting, steps, depth);
    }
}

/// Where the divisor is not equivalent to zero and both operands have
/// real numbers, a quotient that is no whole number of 256ths is
/// refused as not representable.
pub proof fn lemma_quotient_gate(x: Form, y: Form, nesting: nat, steps: nat, depth: nat)
    requires
        !y.equiv(Form::zero()),
        x.depth() <= MAX_DEPTH,
        y.depth() <= MAX_DEPTH,
        !divisible(x.value(), y.value()),
    ensures
        x.quotient(y, nesting, steps, depth) == Err::<Form, SurrealError>(
            SurrealError::NonRepresentableQuotient,
        ),
{
}

/// `2^n`.
pub open spec fn two_to(n: nat) -> int
    decreases n,
{
    if n == 0 {
        1
    } else {
        2 * two_to((n - 1) as nat)
    }
}

/// A power of two has no odd factor but one.
pub proof fn lemma_odd_factor(m: int, k: int, n: nat)
    requires
        m >= 1,
        k >= 1,
        k % 2 == 1,
        m * k == two_to(n),
    ensures
        k == 1,
    decreases n,
{
    if n == 0 {
        assert(k == 1) by (nonlinear_arith)
            requires
                m >= 1,
                k >= 1,
                m * k == 1,
        ;
    } else {
        let p = two_to((n - 1) as nat);
        if m % 2 == 1 {
            let a = m / 2;
            let b = k / 2;
            assert(m * k == 2 * (2 * (a * b) + a + b) + 1) by (nonlinear_arith)
                requires
                    m == 2 * a + 1,
                    k == 2 * b + 1,
            ;
        }
        let half = m / 2;
        assert(half * k == p) by (nonlinear_arith)
            requires
                m == 2 * half,
                m * k == 2 * p,
        ;
        assert(half >= 1);
        lemma_odd_factor(half, k, (n - 1) as nat);
    }
}

/// Powers of two multiply by adding their exponents.
pub proof fn lemma_two_to_sum(a: nat, b: nat)
    ensures
        two_to(a + b) == two_to(a) * two_to(b),
    decreases a,
{
    if a == 0 {
        assert(two_to(0 + b) == 1 * two_to(b));
    } else {
        lemma_two_to_sum((a - 1) as nat, b);
        assert(two_to(a + b) == 2 * two_to((a - 1 + b) as nat));
        assert(2 * (two_to((a - 1) as nat) * two_to(b)) == (2 * two_to((a - 1) as nat)) * two_to(
            b,
        )) by (nonlinear_arith);
    }
}

/// The value of `2^127`.
pub proof fn lemma_two_to_127()
    ensures
        two_to(127) == 0x8000_0000_0000_0000_0000_0000_0000_0000,
{
    assert(two_to(32) == 0x1_0000_0000) by {
        reveal_with_fuel(two_to, 33);
    }
    assert(two_to(31) == 0x8000_0000) by {
        reveal_with_fuel(two_to, 32);
    }
    lemma_two_to_sum(32, 32);
    lemma_two_to_sum(32, 31);
    lemma_two_to_sum(64, 63);
    assert(0x1_0000_0000 * 0x1_0000_0000 == 0x1_0000_0000_0000_0000) by (nonlinear_arith);
    assert(0x1_0000_0000 * 0x8000_0000 == 0x8000_0000_0000_0000) by (nonlinear_arith);
    assert(0x1_0000_0000_0000_0000 * 0x8000_0000_0000_0000
        == 0x8000_0000_0000_0000_0000_0000_0000_0000) by (nonlinear_arith);
}

/// The reciprocal of a number other than zero, where it is a dyadic
/// number within reach.
fn recip(v: Dyadic) -> (r: Option<Dyadic>)
    requires
        v@ != 0,
    ensures
        match r {
            Some(d) => reciprocal(v@) == Some(d@),
            None => reciprocal(v@) is None,
        },
{
    let a: u128 = abs_units(v.units);
    let h: u128 = 0x8000_0000_0000_0000_0000_0000_0000_0000;
    let q: u128 = h / a;
    let m: u128 = h % a;
    let ghost sq: int = ONE * ONE;
    proof {
        assert(ONE * ONE == 0x1_0000_0000_0000_0000_0000_0000_0000_0000) by (nonlinear_arith);
        assert(sq == 2 * h);
        assert(h == q * a + m) by (nonlinear_arith)
            requires
                a > 0,
                q == h / a,
                m == h % a,
        ;
        assert(2 * (q * a) == (2 * q) * a) by (nonlinear_arith);
        assert((2 * q) * a + a == (2 * q + 1) * a) by (nonlinear_arith);
        assert(a <= h);
    }
    if m == 0 {
        proof {
            lemma_fundamental_div_mod_converse(sq, a as int, 2 * q, 0);
        }
        if q <= 0x3fff_ffff_ffff_ffff_ffff_ffff_ffff_ffff {
            let whole: i128 = (2 * q) as i128;
            Some(
                Dyadic {
                    units: if v.units > 0 {
                        whole
                    } else {
                        -whole
                    },
                },
            )
        } else {
            None
        }
    } else {
        proof {
            if 2 * m < a {
                lemma_fundamental_div_mod_converse(sq, a as int, 2 * q, 2 * m);
            } else if 2 * m > a {
                lemma_fundamental_div_mod_converse(sq, a as int, 2 * q + 1, 2 * m - a);
            } else {
                // then h = m * (2 * q + 1), which leaves q = 0 and a = 2 * h
                assert(h == m * (2 * q + 1)) by (nonlinear_arith)
                    requires
                        h == q * a + m,
                        a == 2 * m,
                ;
                lemma_two_to_127();
                lemma_odd_factor(m as int, 2 * q + 1, 127);
            }
        }
        None
    }
}

/// The inverse of `x`, by the search for the reciprocal of the real
/// number that `x` denotes. What comes back is a number.
pub fn inv(x: &Surreal, ceiling: Ceiling) -> (r: Result<Surreal, SurrealError>)
    ensures
        outcome(r) == x@.inverse(
            ceiling.nesting as nat,
            ceiling.steps as nat,
            ceiling.depth as nat,
        ),
        r matches Ok(i) ==> i@.is_number(),
{
    let v = match stof(x) {
        Ok(v) => v,
        Err(_) => {
            return Err(SurrealError::DepthExceeded);
        },
    };
    if v.units == 0 {
        return Err(SurrealError::DivisionByZero);
    }
    match recip(v) {
        None => Err(SurrealError::NonRepresentableQuotient),
        Some(r) => ftos(r, ceiling),
    }
}

/// The quotient `x / y`: `x` times the inverse of `y`. Division by a
/// value equal to zero fails with `DivisionByZero`; where `is_divisible`
/// says no, it fails with `NonRepresentableQuotient`. The quotient of a
/// number is a number.
pub fn divide(x: &Surreal, y: &Surreal, ceiling: Ceiling) -> (r: Result<Surreal, SurrealError>)
    ensures
        outcome(r) == x@.quotient(
            y@,
            ceiling.nesting as nat,
            ceiling.steps as nat,
            ceiling.depth as nat,
        ),
        y@.equiv(Form::zero()) ==> r == Err::<Surreal, SurrealError>(
            SurrealError::DivisionByZero,
        ),
        !y@.equiv(Form::zero()) && x@.depth() <= MAX_DEPTH && y@.depth() <= MAX_DEPTH && !divisible(
            x@.value(),
            y@.value(),
        ) ==> r == Err::<Surreal, SurrealError>(SurrealError::NonRepresentableQuotient),
        r is Ok && x@.is_number() ==> r->Ok_0@.is_number(),
{
    let zero = Surreal::zero();
    if leq(y, &zero) && leq(&zero, y) {
        return Err(SurrealError::DivisionByZero);
    }
    match is_divisible(x, y) {
        Err(_) => {
            return Err(SurrealError::DepthExceeded);
        },
        Ok(false) => {
            return Err(SurrealError::NonRepresentableQuotient);
        },
        Ok(true) => {},
    }
    match inv(y, ceiling) {
        Err(e) => Err(e),
        Ok(i) => mul_within(x, &i, ceiling.nesting),
    }
}

} // verus!
