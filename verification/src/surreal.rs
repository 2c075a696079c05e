//! The executable surreal value with finite option sets.

use crate::error::SurrealError;
use crate::form::{lemma_rise_bounds, lemma_rise_take, rise, separated, Form};
use vstd::prelude::*;

verus! {

/// A surreal value with finite left and right option sets. It owns its
/// options outright and is never changed after construction.
#[derive(Debug)]
pub struct Surreal {
    left: Vec<Surreal>,
    right: Vec<Surreal>,
}

/// The forms of the values in `v`, in order.
pub open spec fn forms(v: Seq<Surreal>) -> Seq<Form> {
    Seq::new(v.len(), |i: int| v[i]@)
}

/// Every form in `s` is a number.
pub open spec fn all_numbers(s: Seq<Form>) -> bool {
    forall|i: int| 0 <= i < s.len() ==> (#[trigger] s[i]).is_number()
}

/// The forms of the borrowed values in `v`, in order.
pub open spec fn ref_forms(v: Seq<&Surreal>) -> Seq<Form> {
    Seq::new(v.len(), |i: int| v[i]@)
}

/// What an operation gave, with the value replaced by its form.
pub open spec fn outcome(r: Result<Surreal, SurrealError>) -> Result<Form, SurrealError> {
    match r {
        Ok(s) => Ok(s@),
        Err(e) => Err(e),
    }
}

impl View for Surreal {
    type V = Form;

    closed spec fn view(&self) -> Form
        decreases self,
    {
        Form {
            left: Seq::new(
                self.left.len() as nat,
                |i: int|
                    if 0 <= i < self.left.len() {
                        self.left[i].view()
                    } else {
                        Form::zero()
                    },
            ),
            right: Seq::new(
                self.right.len() as nat,
                |i: int|
                    if 0 <= i < self.right.len() {
                        self.right[i].view()
                    } else {
                        Form::zero()
                    },
            ),
        }
    }
}

impl Surreal {
    /// Builds the value with the given options, taking ownership of them.
    pub(crate) fn from_parts(left: Vec<Surreal>, right: Vec<Surreal>) -> (s: Surreal)
        ensures
            s@ == (Form { left: forms(left@), right: forms(right@) }),
    {
        let s = Surreal { left, right };
        proof {
            assert(s@.left =~= forms(s.left@));
            assert(s@.right =~= forms(s.right@));
        }
        s
    }

    /// The left options, borrowed.
    pub(crate) fn left_options(&self) -> (v: &Vec<Surreal>)
        ensures
            forms(v@) == self@.left,
    {
        proof {
            assert(self@.left =~= forms(self.left@));
        }
        &self.left
    }

    /// The right options, borrowed.
    pub(crate) fn right_options(&self) -> (v: &Vec<Surreal>)
        ensures
            forms(v@) == self@.right,
    {
        proof {
            assert(self@.right =~= forms(self.right@));
        }
        &self.right
    }
}

impl Clone for Surreal {
    /// A deep copy: a value of the same form that shares nothing with
    /// `self`.
    fn clone(&self) -> (s: Surreal)
        ensures
            s@ == self@,
        decreases self@.depth(), 1nat,
    {
        proof {
            assert(self@.left =~= forms(self.left@));
            assert(self@.right =~= forms(self.right@));
        }
        let left = copy_all(&self.left);
        let right = copy_all(&self.right);
        Surreal::from_parts(left, right)
    }
}

/// Deep copies of the values in `v`, in order.
fn copy_all(v: &Vec<Surreal>) -> (r: Vec<Surreal>)
    ensures
        forms(r@) == forms(v@),
    decreases rise(forms(v@)), 0nat,
{
    let mut r: Vec<Surreal> = Vec::new();
    let mut i: usize = 0;
    while i < v.len()
        invariant
            0 <= i <= v.len(),
            r.len() == i,
            forall|k: int| 0 <= k < i ==> (#[trigger] r[k])@ == v[k]@,
        decreases v.len() - i,
    {
        proof {
            lemma_rise_bounds(forms(v@), i as int);
        }
        r.push(v[i].clone());
        i += 1;
    }
    proof {
        assert(forms(r@) =~= forms(v@));
    }
    r
}

/// Turns borrowed values into owned deep copies, in order.
pub fn cnv(sur: Vec<&Surreal>) -> (r: Vec<Surreal>)
    ensures
        forms(r@) == ref_forms(sur@),
{
    let mut r: Vec<Surreal> = Vec::new();
    let mut i: usize = 0;
    while i < sur.len()
        invariant
            0 <= i <= sur.len(),
            r.len() == i,
            forall|k: int| 0 <= k < i ==> (#[trigger] r[k])@ == sur[k]@,
        decreases sur.len() - i,
    {
        r.push(sur[i].clone());
        i += 1;
    }
    proof {
        assert(forms(r@) =~= ref_forms(sur@));
    }
    r
}

impl Surreal {
    /// Zero: the value without options.
    pub fn zero() -> (s: Surreal)
        ensures
            s@ == Form::zero(),
    {
        let s = Surreal::from_parts(Vec::new(), Vec::new());
        proof {
            assert(s@.left =~= Seq::<Form>::empty());
            assert(s@.right =~= Seq::<Form>::empty());
        }
        s
    }

    /// One: `{ 0 | }`.
    pub fn one() -> (s: Surreal)
        ensures
            s@ == Form::one(),
    {
        let mut left: Vec<Surreal> = Vec::new();
        left.push(Surreal::zero());
        let s = Surreal::from_parts(left, Vec::new());
        proof {
            assert(s@.left =~= seq![Form::zero()]);
            assert(s@.right =~= Seq::<Form>::empty());
        }
        s
    }

    /// Minus one: `{ | 0 }`.
    pub fn neg_one() -> (s: Surreal)
        ensures
            s@ == Form::neg_one(),
    {
        let mut right: Vec<Surreal> = Vec::new();
        right.push(Surreal::zero());
        let s = Surreal::from_parts(Vec::new(), right);
        proof {
            assert(s@.left =~= Seq::<Form>::empty());
            assert(s@.right =~= seq![Form::zero()]);
        }
        s
    }

    /// One half: `{ 0 | 1 }`.
    pub fn half() -> (s: Surreal)
        ensures
            s@ == Form::half(),
    {
        let mut left: Vec<Surreal> = Vec::new();
        left.push(Surreal::zero());
        let mut right: Vec<Surreal> = Vec::new();
        right.push(Surreal::one());
        let s = Surreal::from_parts(left, right);
        proof {
            assert(s@.left =~= seq![Form::zero()]);
            assert(s@.right =~= seq![Form::one()]);
        }
        s
    }

    /// Builds `{ left | right }` from deep copies of the given values,
    /// provided that no right option is at most a left option;
    /// otherwise fails with `ValidationError`. Built from numbers, the
    /// result is a number.
    pub fn new(left: Vec<&Surreal>, right: Vec<&Surreal>) -> (r: Result<Surreal, SurrealError>)
        ensures
            separated(ref_forms(left@), ref_forms(right@)) ==> r is Ok && r->Ok_0@ == (Form {
                left: ref_forms(left@),
                right: ref_forms(right@),
            }),
            !separated(ref_forms(left@), ref_forms(right@)) ==> r == Err::<Surreal, SurrealError>(
                SurrealError::ValidationError,
            ),
            r is Ok && all_numbers(ref_forms(left@)) && all_numbers(ref_forms(right@))
                ==> r->Ok_0@.is_number(),
    {
        let ghost l = ref_forms(left@);
        let ghost r = ref_forms(right@);
        let mut i: usize = 0;
        while i < left.len()
            invariant
                0 <= i <= left.len(),
                l == ref_forms(left@),
                r == ref_forms(right@),
                forall|a: int, b: int|
                    0 <= a < i && 0 <= b < r.len() ==> !(#[trigger] r[b]).le(#[trigger] l[a]),
            decreases left.len() - i,
        {
            let mut j: usize = 0;
            while j < right.len()
                invariant
                    0 <= i < left.len(),
                    0 <= j <= right.len(),
                    l == ref_forms(left@),
                    r == ref_forms(right@),
                    forall|a: int, b: int|
                        0 <= a < i && 0 <= b < r.len() ==> !(#[trigger] r[b]).le(#[trigger] l[a]),
                    forall|b: int| 0 <= b < j ==> !(#[trigger] r[b]).le(l[i as int]),
                decreases right.len() - j,
            {
                if crate::order::leq(right[j], left[i]) {
                    assert(r[j as int].le(l[i as int]));
                    return Err(SurrealError::ValidationError);
                }
                j += 1;
            }
            i += 1;
        }
        Ok(Surreal::pseudo(left, right))
    }

    /// Builds `{ left | right }` from deep copies of the given values
    /// without testing the rule of construction. The result may be a
    /// pseudo-number.
    pub fn pseudo(left: Vec<&Surreal>, right: Vec<&Surreal>) -> (s: Surreal)
        ensures
            s@ == (Form { left: ref_forms(left@), right: ref_forms(right@) }),
    {
        Surreal::from_parts(cnv(left), cnv(right))
    }

    /// Deep copies of the left options, in order.
    pub fn left(&self) -> (v: Vec<Surreal>)
        ensures
            forms(v@) == self@.left,
    {
        proof {
            assert(self@.left =~= forms(self.left@));
        }
        copy_all(&self.left)
    }

    /// Deep copies of the right options, in order.
    pub fn right(&self) -> (v: Vec<Surreal>)
        ensures
            forms(v@) == self@.right,
    {
        proof {
            assert(self@.right =~= forms(self.right@));
        }
        copy_all(&self.right)
    }
}

/// One more than the greatest depth of a value in `v`, provided that it
/// is `limit` at most.
fn rise_within(v: &Vec<Surreal>, limit: usize) -> (r: Option<usize>)
    ensures
        rise(forms(v@)) <= limit ==> r == Some(rise(forms(v@)) as usize),
        rise(forms(v@)) > limit ==> r is None,
    decreases rise(forms(v@)), 0nat,
{
    let ghost f = forms(v@);
    let mut top: usize = 0;
    let mut i: usize = 0;
    proof {
        assert(f.take(0) =~= Seq::<Form>::empty());
    }
    while i < v.len()
        invariant
            0 <= i <= v.len(),
            f == forms(v@),
            top == rise(f.take(i as int)),
            top <= limit,
        decreases v.len() - i,
    {
        proof {
            lemma_rise_bounds(f, i as int);
            assert(f.take(i + 1).drop_last() =~= f.take(i as int));
            assert(f.take(i + 1).last() == f[i as int]);
            lemma_rise_take(f, i + 1);
        }
        if limit == 0 {
            return None;
        }
        match v[i].depth_within(limit - 1) {
            Some(d) => {
                if d + 1 > top {
                    top = d + 1;
                }
            },
            None => {
                return None;
            },
        }
        i += 1;
    }
    proof {
        assert(f.take(v.len() as int) =~= f);
    }
    Some(top)
}

impl Surreal {
    /// How deeply the options of the value are nested, provided that it
    /// is `limit` at most; `None` exactly when it is more.
    pub fn depth_within(&self, limit: usize) -> (r: Option<usize>)
        ensures
            self@.depth() <= limit ==> r == Some(self@.depth() as usize),
            self@.depth() > limit ==> r is None,
        decreases self@.depth(), 1nat,
    {
        proof {
            assert(self@.left =~= forms(self.left@));
            assert(self@.right =~= forms(self.right@));
        }
        let l = match rise_within(&self.left, limit) {
            Some(l) => l,
            None => {
                return None;
            },
        };
        let r = match rise_within(&self.right, limit) {
            Some(r) => r,
            None => {
                return None;
            },
        };
        if l >= r {
            Some(l)
        } else {
            Some(r)
        }
    }
}

} // verus!
