//! The arithmetic engine: negation, addition and subtraction, each
//! following Conway's recursive definition option by option.

use crate::form::{lemma_rise_bounds, rise, Form};
use crate::laws::{lemma_negate_number, lemma_plus_number};
use crate::surreal::{forms, Surreal};
use vstd::prelude::*;

verus! {

/// `s[i] + n` for every member of `s`, in order.
pub open spec fn plus_each(s: Seq<Form>, n: Form) -> Seq<Form>
    decreases rise(s) + n.depth(), 0nat,
{
    Seq::new(
        s.len(),
        |i: int|
            if 0 <= i < s.len() {
                proof {
                    lemma_rise_bounds(s, i);
                }
                s[i].plus(n)
            } else {
                Form::zero()
            },
    )
}

/// `-s[i]` for every member of `s`, in order.
pub open spec fn negate_each(s: Seq<Form>) -> Seq<Form>
    decreases rise(s), 0nat,
{
    Seq::new(
        s.len(),
        |i: int|
            if 0 <= i < s.len() {
                proof {
                    lemma_rise_bounds(s, i);
                }
                s[i].negate()
            } else {
                Form::zero()
            },
    )
}

impl Form {
    /// The sum `self + other`: its left options are `l + other` for the
    /// left options `l` of `self`, followed by `l + self` for those of
    /// `other`; its right options likewise from the right options.
    pub open spec fn plus(self, other: Form) -> Form
        decreases self.depth() + other.depth(), 1nat,
    {
        Form {
            left: plus_each(self.left, other) + plus_each(other.left, self),
            right: plus_each(self.right, other) + plus_each(other.right, self),
        }
    }

    /// The negative `-self`: its left options are the negatives of the
    /// right options of `self`, its right options those of the left.
    pub open spec fn negate(self) -> Form
        decreases self.depth(), 1nat,
    {
        Form { left: negate_each(self.right), right: negate_each(self.left) }
    }

    /// The difference `self - other`, which is `self + (-other)`.
    pub open spec fn minus(self, other: Form) -> Form {
        self.plus(other.negate())
    }
}

/// Appends `v[i] + n` for every member of `v` to `out`.
fn add_each(v: &Vec<Surreal>, n: &Surreal, out: &mut Vec<Surreal>)
    ensures
        forms(final(out)@) == forms(old(out)@) + plus_each(forms(v@), n@),
    decreases rise(forms(v@)) + n@.depth(), 0nat,
{
    let ghost before = forms(out@);
    let mut i: usize = 0;
    while i < v.len()
        invariant
            0 <= i <= v.len(),
            forms(out@) == before + plus_each(forms(v@), n@).take(i as int),
        decreases v.len() - i,
    {
        proof {
            lemma_rise_bounds(forms(v@), i as int);
        }
        let ghost prev = forms(out@);
        out.push(self::add(&v[i], n));
        proof {
            assert(forms(out@) =~= prev.push(v[i as int]@.plus(n@)));
            assert(plus_each(forms(v@), n@).take(i + 1) =~= plus_each(forms(v@), n@).take(
                i as int,
            ).push(v[i as int]@.plus(n@)));
            assert(forms(out@) =~= before + plus_each(forms(v@), n@).take(i + 1));
        }
        i += 1;
    }
    proof {
        assert(plus_each(forms(v@), n@).take(v.len() as int) =~= plus_each(forms(v@), n@));
    }
}

/// Appends `-v[i]` for every member of `v` to `out`.
fn neg_each(v: &Vec<Surreal>, out: &mut Vec<Surreal>)
    ensures
        forms(final(out)@) == forms(old(out)@) + negate_each(forms(v@)),
    decreases rise(forms(v@)), 0nat,
{
    let ghost before = forms(out@);
    let mut i: usize = 0;
    while i < v.len()
        invariant
            0 <= i <= v.len(),
            forms(out@) == before + negate_each(forms(v@)).take(i as int),
        decreases v.len() - i,
    {
        proof {
            lemma_rise_bounds(forms(v@), i as int);
        }
        let ghost prev = forms(out@);
        out.push(self::neg(&v[i]));
        proof {
            assert(forms(out@) =~= prev.push(v[i as int]@.negate()));
            assert(negate_each(forms(v@)).take(i + 1) =~= negate_each(forms(v@)).take(
                i as int,
            ).push(v[i as int]@.negate()));
            assert(forms(out@) =~= before + negate_each(forms(v@)).take(i + 1));
        }
        i += 1;
    }
    proof {
        assert(negate_each(forms(v@)).take(v.len() as int) =~= negate_each(forms(v@)));
    }
}

/// The sum `x + y`. The sum of two numbers is a number.
pub fn add(x: &Surreal, y: &Surreal) -> (s: Surreal)
    ensures
        s@ == x@.plus(y@),
        x@.is_number() && y@.is_number() ==> s@.is_number(),
    decreases x@.depth() + y@.depth(), 1nat,
{
    let mut left: Vec<Surreal> = Vec::new();
    let mut right: Vec<Surreal> = Vec::new();
    proof {
        assert(forms(left@) =~= Seq::<Form>::empty());
        assert(forms(right@) =~= Seq::<Form>::empty());
        if x@.is_number() && y@.is_number() {
            lemma_plus_number(x@, y@);
        }
    }
    add_each(x.left_options(), y, &mut left);
    add_each(y.left_options(), x, &mut left);
    add_each(x.right_options(), y, &mut right);
    add_each(y.right_options(), x, &mut right);
    proof {
        assert(forms(left@) =~= plus_each(x@.left, y@) + plus_each(y@.left, x@));
        assert(forms(right@) =~= plus_each(x@.right, y@) + plus_each(y@.right, x@));
    }
    Surreal::from_parts(left, right)
}

/// The negative `-sur`. The negative of a number is a number.
pub fn neg(sur: &Surreal) -> (s: Surreal)
    ensures
        s@ == sur@.negate(),
        sur@.is_number() ==> s@.is_number(),
    decreases sur@.depth(), 1nat,
{
    let mut left: Vec<Surreal> = Vec::new();
    let mut right: Vec<Surreal> = Vec::new();
    proof {
        assert(forms(left@) =~= Seq::<Form>::empty());
        assert(forms(right@) =~= Seq::<Form>::empty());
    }
    proof {
        if sur@.is_number() {
            lemma_negate_number(sur@);
        }
    }
    neg_each(sur.right_options(), &mut left);
    neg_each(sur.left_options(), &mut right);
    proof {
        assert(forms(left@) =~= negate_each(sur@.right));
        assert(forms(right@) =~= negate_each(sur@.left));
    }
    Surreal::from_parts(left, right)
}

/// The difference `x - y`, computed as `x + (-y)`. The difference of
/// two numbers is a number.
pub fn sub(x: &Surreal, y: &Surreal) -> (s: Surreal)
    ensures
        s@ == x@.minus(y@),
        x@.is_number() && y@.is_number() ==> s@.is_number(),
{
    let n = self::neg(y);
    self::add(x, &n)
}

} // verus!
