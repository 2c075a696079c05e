//! Multiplication by Conway's recursive rule, with shortcuts for the
//! factors zero, one and minus one that are proved to change nothing.

use crate::arith::neg;
use crate::form::{lemma_rise_bounds, lemma_rise_drop_last, lemma_rise_take, rise, Form};
use crate::laws::{lemma_times_neg_one, lemma_times_one, lemma_times_zero};
use crate::monotone::lemma_product_number;
use crate::error::SurrealError;
use crate::surreal::{forms, outcome, Surreal};
use vstd::prelude::*;

verus! {

/// The option of `x * y` that the options `xo` of `x` and `yo` of `y`
/// give: `xo * y + x * yo - xo * yo`.
pub open spec fn term(x: Form, y: Form, xo: Form, yo: Form) -> Form
    decreases x.depth() + y.depth(), 0nat, 0nat,
    when xo.depth() < x.depth() && yo.depth() < y.depth()
{
    xo.times(y).plus(x.times(yo)).minus(xo.times(yo))
}

/// The terms that one option `xo` of `x` gives with each member of `ys`,
/// in order.
pub open spec fn row(x: Form, y: Form, xo: Form, ys: Seq<Form>) -> Seq<Form>
    decreases x.depth() + y.depth(), 1nat, 0nat,
    when xo.depth() < x.depth() && rise(ys) <= y.depth()
{
    Seq::new(
        ys.len(),
        |j: int|
            if 0 <= j < ys.len() {
                proof {
                    lemma_rise_bounds(ys, j);
                }
                term(x, y, xo, ys[j])
            } else {
                Form::zero()
            },
    )
}

/// The terms of every member of `xs` with every member of `ys`: the row
/// of `xs[0]`, then the row of `xs[1]`, and so on.
pub open spec fn cross(x: Form, y: Form, xs: Seq<Form>, ys: Seq<Form>) -> Seq<Form>
    decreases x.depth() + y.depth(), 2nat, xs.len(),
    when rise(xs) <= x.depth() && rise(ys) <= y.depth()
{
    if xs.len() == 0 {
        Seq::empty()
    } else {
        proof {
            lemma_rise_bounds(xs, xs.len() - 1);
            lemma_rise_drop_last(xs);
        }
        cross(x, y, xs.drop_last(), ys) + row(x, y, xs.last(), ys)
    }
}

impl Form {
    /// Whether the form is exactly zero, one or minus one: the factors
    /// with which a product needs no recursion.
    pub open spec fn is_unit(self) -> bool {
        self == Form::zero() || self == Form::one() || self == Form::neg_one()
    }

    /// The product under a ceiling: the product itself where a factor is
    /// a unit or the depths of the factors together stay within
    /// `ceiling`, else `DepthExceeded`.
    pub open spec fn times_within(self, other: Form, ceiling: nat) -> Result<Form, SurrealError> {
        if self.is_unit() || other.is_unit() || self.depth() + other.depth() <= ceiling {
            Ok(self.times(other))
        } else {
            Err(SurrealError::DepthExceeded)
        }
    }

    /// The product `self * other` by Conway's rule. With `t(a, b)` for
    /// `a * other + self * b - a * b`, its left options are `t(l, l')`
    /// and `t(r, r')`, its right options `t(l, r')` and `t(r, l')`, over
    /// the left options `l`, `l'` and the right options `r`, `r'` of
    /// `self` and `other`.
    pub open spec fn times(self, other: Form) -> Form
        decreases self.depth() + other.depth(), 3nat, 0nat,
    {
        Form {
            left: cross(self, other, self.left, other.left) + cross(
                self,
                other,
                self.right,
                other.right,
            ),
            right: cross(self, other, self.left, other.right) + cross(
                self,
                other,
                self.right,
                other.left,
            ),
        }
    }
}

/// Whether `x` is the form without options.
fn is_zero(x: &Surreal) -> (b: bool)
    ensures
        b == (x@ == Form::zero()),
{
    let l = x.left_options();
    let r = x.right_options();
    let b = l.len() == 0 && r.len() == 0;
    proof {
        assert(forms(l@).len() == l.len() && forms(r@).len() == r.len());
        if b {
            assert(x@.left =~= Seq::<Form>::empty());
            assert(x@.right =~= Seq::<Form>::empty());
        }
    }
    b
}

/// Whether `x` is exactly `{ 0 | }`.
fn is_one(x: &Surreal) -> (b: bool)
    ensures
        b == (x@ == Form::one()),
{
    let l = x.left_options();
    let r = x.right_options();
    let b = l.len() == 1 && r.len() == 0 && is_zero(&l[0]);
    proof {
        assert(forms(l@).len() == l.len() && forms(r@).len() == r.len());
        assert(Form::one().left[0] == Form::zero());
        if b {
            assert(l[0]@ == x@.left[0]);
            assert(x@.left =~= seq![Form::zero()]);
            assert(x@.right =~= Seq::<Form>::empty());
        } else if l.len() == 1 {
            assert(l[0]@ == x@.left[0]);
        }
    }
    b
}

/// Whether `x` is exactly `{ | 0 }`.
fn is_neg_one(x: &Surreal) -> (b: bool)
    ensures
        b == (x@ == Form::neg_one()),
{
    let l = x.left_options();
    let r = x.right_options();
    let b = r.len() == 1 && l.len() == 0 && is_zero(&r[0]);
    proof {
        assert(forms(l@).len() == l.len() && forms(r@).len() == r.len());
        assert(Form::neg_one().right[0] == Form::zero());
        if b {
            assert(r[0]@ == x@.right[0]);
            assert(x@.right =~= seq![Form::zero()]);
            assert(x@.left =~= Seq::<Form>::empty());
        } else if r.len() == 1 {
            assert(r[0]@ == x@.right[0]);
        }
    }
    b
}

/// The term `xo * y + x * yo - xo * yo` of two options.
fn mul_term(x: &Surreal, y: &Surreal, xo: &Surreal, yo: &Surreal) -> (t: Surreal)
    requires
        xo@.depth() < x@.depth(),
        yo@.depth() < y@.depth(),
    ensures
        t@ == term(x@, y@, xo@, yo@),
    decreases x@.depth() + y@.depth(), 0nat, 0nat,
{
    let a = self::mul(xo, y);
    let b = self::mul(x, yo);
    let c = self::mul(xo, yo);
    let s = crate::arith::add(&a, &b);
    crate::arith::sub(&s, &c)
}

/// Appends to `out` the terms of every member of `xs` with every member
/// of `ys`, row by row.
fn mul_cross(x: &Surreal, y: &Surreal, xs: &Vec<Surreal>, ys: &Vec<Surreal>, out: &mut Vec<Surreal>)
    requires
        rise(forms(xs@)) <= x@.depth(),
        rise(forms(ys@)) <= y@.depth(),
    ensures
        forms(final(out)@) == forms(old(out)@) + cross(x@, y@, forms(xs@), forms(ys@)),
    decreases x@.depth() + y@.depth(), 2nat, 0nat,
{
    let ghost before = forms(out@);
    let ghost fx = forms(xs@);
    let ghost fy = forms(ys@);
    let mut i: usize = 0;
    proof {
        assert(fx.take(0) =~= Seq::<Form>::empty());
        lemma_rise_take(fx, 0);
        assert(forms(out@) =~= before + cross(x@, y@, fx.take(0), fy));
    }
    while i < xs.len()
        invariant
            0 <= i <= xs.len(),
            fx == forms(xs@),
            fy == forms(ys@),
            rise(fx) <= x@.depth(),
            rise(fy) <= y@.depth(),
            forms(out@) == before + cross(x@, y@, fx.take(i as int), fy),
        decreases xs.len() - i,
    {
        let ghost done = forms(out@);
        let ghost xo = fx[i as int];
        proof {
            lemma_rise_bounds(fx, i as int);
            assert(xs[i as int]@ == xo);
        }
        let mut j: usize = 0;
        while j < ys.len()
            invariant
                0 <= i < xs.len(),
                0 <= j <= ys.len(),
                fx == forms(xs@),
                fy == forms(ys@),
                xo == xs[i as int]@,
                xo.depth() < x@.depth(),
                rise(fy) <= y@.depth(),
                forms(out@) == done + row(x@, y@, xo, fy).take(j as int),
            decreases ys.len() - j,
        {
            proof {
                lemma_rise_bounds(fy, j as int);
            }
            let ghost prev = forms(out@);
            let t = mul_term(x, y, &xs[i], &ys[j]);
            out.push(t);
            proof {
                let r = row(x@, y@, xo, fy);
                assert(forms(out@) =~= prev.push(term(x@, y@, xo, fy[j as int])));
                assert(r.take(j + 1) =~= r.take(j as int).push(r[j as int]));
                assert(forms(out@) =~= done + r.take(j + 1));
            }
            j += 1;
        }
        proof {
            let r = row(x@, y@, xo, fy);
            assert(r.take(ys.len() as int) =~= r);
            let next = fx.take(i + 1);
            lemma_rise_take(fx, i + 1);
            assert(next.drop_last() =~= fx.take(i as int));
            assert(next.last() == xo);
            assert(cross(x@, y@, next, fy) == cross(x@, y@, fx.take(i as int), fy) + r);
            assert(forms(out@) =~= before + cross(x@, y@, next, fy));
        }
        i += 1;
    }
    proof {
        assert(fx.take(xs.len() as int) =~= fx);
    }
}

/// The product `x * y` by Conway's rule. A factor that is exactly zero,
/// one or minus one is answered at once; the answer is the one that the
/// rule gives. The product of two numbers is a number.
pub fn mul(x: &Surreal, y: &Surreal) -> (p: Surreal)
    ensures
        p@ == x@.times(y@),
        x@.is_number() && y@.is_number() ==> p@.is_number(),
    decreases x@.depth() + y@.depth(), 3nat, 0nat,
{
    proof {
        if x@.is_number() && y@.is_number() {
            lemma_product_number(x@, y@);
        }
        lemma_times_zero(x@);
        lemma_times_zero(y@);
        lemma_times_one(x@);
        lemma_times_one(y@);
        lemma_times_neg_one(x@);
        lemma_times_neg_one(y@);
    }
    if is_zero(x) || is_zero(y) {
        let p = Surreal::from_parts(Vec::new(), Vec::new());
        proof {
            assert(p@.left =~= Seq::<Form>::empty());
            assert(p@.right =~= Seq::<Form>::empty());
        }
        return p;
    }
    if is_one(y) {
        return x.clone();
    }
    if is_one(x) {
        return y.clone();
    }
    if is_neg_one(y) {
        return neg(x);
    }
    if is_neg_one(x) {
        return neg(y);
    }
    let xl = x.left_options();
    let xr = x.right_options();
    let yl = y.left_options();
    let yr = y.right_options();
    let mut left: Vec<Surreal> = Vec::new();
    let mut right: Vec<Surreal> = Vec::new();
    proof {
        assert(forms(left@) =~= Seq::<Form>::empty());
        assert(forms(right@) =~= Seq::<Form>::empty());
    }
    mul_cross(x, y, xl, yl, &mut left);
    mul_cross(x, y, xr, yr, &mut left);
    mul_cross(x, y, xl, yr, &mut right);
    mul_cross(x, y, xr, yl, &mut right);
    proof {
        assert(forms(left@) =~= cross(x@, y@, x@.left, y@.left) + cross(
            x@,
            y@,
            x@.right,
            y@.right,
        ));
        assert(forms(right@) =~= cross(x@, y@, x@.left, y@.right) + cross(
            x@,
            y@,
            x@.right,
            y@.left,
        ));
    }
    Surreal::from_parts(left, right)
}

/// The product `x * y`, refused where it would nest too deep: unless a
/// factor is exactly zero, one or minus one, the depths of the factors
/// may be `ceiling` together at most.
pub fn mul_within(x: &Surreal, y: &Surreal, ceiling: usize) -> (r: Result<Surreal, SurrealError>)
    ensures
        outcome(r) == x@.times_within(y@, ceiling as nat),
        r is Ok && x@.is_number() && y@.is_number() ==> r->Ok_0@.is_number(),
{
    if is_zero(x) || is_one(x) || is_neg_one(x) || is_zero(y) || is_one(y) || is_neg_one(y) {
        return Ok(self::mul(x, y));
    }
    let dx = match x.depth_within(ceiling) {
        Some(d) => d,
        None => {
            return Err(SurrealError::DepthExceeded);
        },
    };
    match y.depth_within(ceiling - dx) {
        Some(_) => Ok(self::mul(x, y)),
        None => Err(SurrealError::DepthExceeded),
    }
}

} // verus!
