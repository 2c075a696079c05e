//! The order engine: Conway's `<=` decided on values, and the laws of the
//! order on forms.

use crate::form::{lemma_option_depth, lemma_rise_bounds, rise, Form};
use crate::surreal::{all_numbers, forms, Surreal};
use vstd::prelude::*;

verus! {

/// Decides Conway's order `x <= y`.
pub fn leq(x: &Surreal, y: &Surreal) -> (b: bool)
    ensures
        b == x@.le(y@),
    decreases x@.depth() + y@.depth(),
{
    let xl = x.left_options();
    let yr = y.right_options();
    proof {
        lemma_option_depth(x@);
        lemma_option_depth(y@);
    }
    let mut i: usize = 0;
    while i < xl.len()
        invariant
            0 <= i <= xl.len(),
            forms(xl@) == x@.left,
            forall|k: int| 0 <= k < x@.left.len() ==> (#[trigger] x@.left[k]).depth() < x@.depth(),
            forall|k: int| 0 <= k < i ==> !y@.le(#[trigger] x@.left[k]),
        decreases xl.len() - i,
    {
        assert(xl[i as int]@ == x@.left[i as int]);
        if leq(y, &xl[i]) {
            return false;
        }
        i += 1;
    }
    let mut j: usize = 0;
    while j < yr.len()
        invariant
            0 <= j <= yr.len(),
            forms(yr@) == y@.right,
            forall|k: int|
                0 <= k < y@.right.len() ==> (#[trigger] y@.right[k]).depth() < y@.depth(),
            forall|k: int| 0 <= k < x@.left.len() ==> !y@.le(#[trigger] x@.left[k]),
            forall|k: int| 0 <= k < j ==> !(#[trigger] y@.right[k]).le(x@),
        decreases yr.len() - j,
    {
        assert(yr[j as int]@ == y@.right[j as int]);
        if leq(&yr[j], x) {
            return false;
        }
        j += 1;
    }
    true
}

/// Every form is at most itself, and so equivalent to itself. This holds
/// of every form, valid or not.
pub proof fn lemma_le_reflexive(x: Form)
    ensures
        x.le(x),
        x.equiv(x),
    decreases x.depth(),
{
    lemma_option_depth(x);
    assert forall|i: int| 0 <= i < x.left.len() implies !x.le(#[trigger] x.left[i]) by {
        lemma_le_reflexive(x.left[i]);
    }
    assert forall|j: int| 0 <= j < x.right.len() implies !(#[trigger] x.right[j]).le(x) by {
        lemma_le_reflexive(x.right[j]);
    }
}

/// The order is transitive: from `x <= y` and `y <= z` follows `x <= z`.
pub proof fn lemma_le_transitive(x: Form, y: Form, z: Form)
    requires
        x.le(y),
        y.le(z),
    ensures
        x.le(z),
    decreases x.depth() + y.depth() + z.depth(),
{
    lemma_option_depth(x);
    lemma_option_depth(z);
    assert forall|i: int| 0 <= i < x.left.len() implies !z.le(#[trigger] x.left[i]) by {
        if z.le(x.left[i]) {
            lemma_le_transitive(y, z, x.left[i]);
        }
    }
    assert forall|j: int| 0 <= j < z.right.len() implies !(#[trigger] z.right[j]).le(x) by {
        if z.right[j].le(x) {
            lemma_le_transitive(z.right[j], x, y);
        }
    }
}

/// No form is at most one of its left options, and none of its right
/// options is at most the form.
pub proof fn lemma_options_apart(x: Form)
    ensures
        forall|i: int| 0 <= i < x.left.len() ==> !x.le(#[trigger] x.left[i]),
        forall|j: int| 0 <= j < x.right.len() ==> !(#[trigger] x.right[j]).le(x),
{
    lemma_le_reflexive(x);
}

/// A number lies between its options: each left option is at most it,
/// and it is at most each right option.
pub proof fn lemma_number_between(x: Form)
    requires
        x.is_number(),
    ensures
        forall|i: int| 0 <= i < x.left.len() ==> (#[trigger] x.left[i]).le(x),
        forall|j: int| 0 <= j < x.right.len() ==> x.le(#[trigger] x.right[j]),
    decreases x.depth(),
{
    lemma_option_depth(x);
    lemma_options_apart(x);
    assert forall|i: int| 0 <= i < x.left.len() implies (#[trigger] x.left[i]).le(x) by {
        let a = x.left[i];
        lemma_number_between(a);
        assert forall|k: int| 0 <= k < a.left.len() implies !x.le(#[trigger] a.left[k]) by {
            if x.le(a.left[k]) {
                lemma_le_transitive(x, a.left[k], a);
            }
        }
        assert forall|j: int| 0 <= j < x.right.len() implies !(#[trigger] x.right[j]).le(a) by {}
    }
    assert forall|j: int| 0 <= j < x.right.len() implies x.le(#[trigger] x.right[j]) by {
        let b = x.right[j];
        lemma_number_between(b);
        assert forall|k: int| 0 <= k < b.right.len() implies !(#[trigger] b.right[k]).le(x) by {
            if b.right[k].le(x) {
                lemma_le_transitive(b, b.right[k], x);
            }
        }
        assert forall|i: int| 0 <= i < x.left.len() implies !b.le(#[trigger] x.left[i]) by {}
    }
}

/// Numbers are totally ordered: of two numbers one is at most the
/// other. For pseudo-numbers this can fail.
pub proof fn lemma_le_total(x: Form, y: Form)
    requires
        x.is_number(),
        y.is_number(),
    ensures
        x.le(y) || y.le(x),
{
    lemma_number_between(x);
    lemma_number_between(y);
    if !x.le(y) {
        if exists|i: int| 0 <= i < x.left.len() && y.le(#[trigger] x.left[i]) {
            let i = choose|i: int| 0 <= i < x.left.len() && y.le(#[trigger] x.left[i]);
            lemma_le_transitive(y, x.left[i], x);
        } else {
            let j = choose|j: int| 0 <= j < y.right.len() && (#[trigger] y.right[j]).le(x);
            lemma_le_transitive(y, y.right[j], x);
        }
    }
}

/// Between numbers, strictly below implies at most.
pub proof fn lemma_lt_le(x: Form, y: Form)
    requires
        x.is_number(),
        y.is_number(),
        x.lt(y),
    ensures
        x.le(y),
{
    lemma_le_total(x, y);
}

/// Whether every value in `v` is a number.
fn each_number(v: &Vec<Surreal>) -> (b: bool)
    ensures
        b == all_numbers(forms(v@)),
    decreases rise(forms(v@)), 0nat,
{
    let ghost f = forms(v@);
    let mut i: usize = 0;
    while i < v.len()
        invariant
            0 <= i <= v.len(),
            f == forms(v@),
            forall|k: int| 0 <= k < i ==> (#[trigger] f[k]).is_number(),
        decreases v.len() - i,
    {
        proof {
            lemma_rise_bounds(f, i as int);
        }
        if !v[i].is_number() {
            assert(!f[i as int].is_number());
            return false;
        }
        i += 1;
    }
    true
}

impl Surreal {
    /// Whether the value is a number and no pseudo-number, by the order
    /// engine alone: every option is a number, and no right option is at
    /// most a left option.
    pub fn is_number(&self) -> (b: bool)
        ensures
            b == self@.is_number(),
        decreases self@.depth(), 1nat,
    {
        let left = self.left_options();
        let right = self.right_options();
        let ghost l = self@.left;
        let ghost r = self@.right;
        proof {
            lemma_option_depth(self@);
            assert(l.len() == left.len() && r.len() == right.len());
        }
        if !each_number(left) || !each_number(right) {
            return false;
        }
        let mut i: usize = 0;
        while i < left.len()
            invariant
                0 <= i <= left.len(),
                l == forms(left@),
                r == forms(right@),
                l == self@.left,
                r == self@.right,
                all_numbers(l),
                all_numbers(r),
                forall|a: int, b: int|
                    0 <= a < i && 0 <= b < r.len() ==> !(#[trigger] r[b]).le(#[trigger] l[a]),
            decreases left.len() - i,
        {
            let mut j: usize = 0;
            while j < right.len()
                invariant
                    0 <= i < left.len(),
                    0 <= j <= right.len(),
                    l == forms(left@),
                    r == forms(right@),
                    l == self@.left,
                    r == self@.right,
                    forall|a: int, b: int|
                        0 <= a < i && 0 <= b < r.len() ==> !(#[trigger] r[b]).le(#[trigger] l[a]),
                    forall|b: int| 0 <= b < j ==> !(#[trigger] r[b]).le(l[i as int]),
                decreases right.len() - j,
            {
                if leq(&right[j], &left[i]) {
                    assert(r[j as int].le(l[i as int]));
                    return false;
                }
                j += 1;
            }
            i += 1;
        }
        true
    }
}

} // verus!
