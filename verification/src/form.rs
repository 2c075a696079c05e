//! The mathematical model: a form is a pair of finite sequences of forms,
//! its left and right options. Every contract of the crate is stated over
//! forms.

use vstd::prelude::*;

verus! {

/// A form `{ left | right }`: two finite sequences of earlier forms. The
/// order inside a sequence and repetitions carry no meaning for the order
/// between forms, but they are part of the form.
pub struct Form {
    pub left: Seq<Form>,
    pub right: Seq<Form>,
}

/// The rule of construction: no member of `right` is at most a member of
/// `left`.
pub open spec fn separated(left: Seq<Form>, right: Seq<Form>) -> bool {
    forall|i: int, j: int|
        0 <= i < left.len() && 0 <= j < right.len() ==> !(#[trigger] right[j]).le(
            #[trigger] left[i],
        )
}

/// One more than the greatest depth of a form in `s`; 0 for the empty
/// sequence.
pub open spec fn rise(s: Seq<Form>) -> nat
    decreases s,
{
    if s.len() == 0 {
        0
    } else {
        let rest = rise(s.drop_last());
        let top = s.last().depth() + 1;
        if top >= rest {
            top
        } else {
            rest
        }
    }
}

impl Form {
    /// The form with no options at all.
    pub open spec fn zero() -> Form {
        Form { left: Seq::empty(), right: Seq::empty() }
    }

    /// `{ 0 | }`.
    pub open spec fn one() -> Form {
        Form { left: seq![Form::zero()], right: Seq::empty() }
    }

    /// `{ | 0 }`.
    pub open spec fn neg_one() -> Form {
        Form { left: Seq::empty(), right: seq![Form::zero()] }
    }

    /// `{ 0 | 1 }`.
    pub open spec fn half() -> Form {
        Form { left: seq![Form::zero()], right: seq![Form::one()] }
    }

    /// How deeply the options of the form are nested: 0 for a form
    /// without options, otherwise one more than the depth of its deepest
    /// option.
    pub open spec fn depth(self) -> nat
        decreases self,
    {
        let l = rise(self.left);
        let r = rise(self.right);
        if l >= r {
            l
        } else {
            r
        }
    }

    /// Conway's order: `self <= other` unless some left option of `self`
    /// is at least `other`, or some right option of `other` is at most
    /// `self`.
    pub open spec fn le(self, other: Form) -> bool
        decreases self.depth() + other.depth(),
    {
        &&& forall|i: int|
            0 <= i < self.left.len() ==> !({
                proof {
                    lemma_rise_bounds(self.left, i);
                }
                other.le(#[trigger] self.left[i])
            })
        &&& forall|j: int|
            0 <= j < other.right.len() ==> !({
                proof {
                    lemma_rise_bounds(other.right, j);
                }
                (#[trigger] other.right[j]).le(self)
            })
    }

    /// The form is a number: its options are numbers, and no right
    /// option is at most a left option. A form that is not a number is
    /// a pseudo-number.
    pub open spec fn is_number(self) -> bool
        decreases self.depth(),
    {
        &&& forall|i: int|
            0 <= i < self.left.len() ==> ({
                proof {
                    lemma_rise_bounds(self.left, i);
                }
                (#[trigger] self.left[i]).is_number()
            })
        &&& forall|j: int|
            0 <= j < self.right.len() ==> ({
                proof {
                    lemma_rise_bounds(self.right, j);
                }
                (#[trigger] self.right[j]).is_number()
            })
        &&& separated(self.left, self.right)
    }

    /// Both forms stand for the same number: each is at most the other.
    pub open spec fn equiv(self, other: Form) -> bool {
        self.le(other) && other.le(self)
    }

    /// `self` is strictly below `other`: `other <= self` fails.
    pub open spec fn lt(self, other: Form) -> bool {
        !other.le(self)
    }

    /// `self` is strictly above `other`: `self <= other` fails.
    pub open spec fn gt(self, other: Form) -> bool {
        !self.le(other)
    }
}

/// Every member of `s` is less deep than `rise(s)`.
pub proof fn lemma_rise_bounds(s: Seq<Form>, i: int)
    requires
        0 <= i < s.len(),
    ensures
        s[i].depth() < rise(s),
    decreases s.len(),
{
    if i < s.len() - 1 {
        lemma_rise_bounds(s.drop_last(), i);
    }
}

/// The options of a form are less deep than the form.
pub proof fn lemma_option_depth(x: Form)
    ensures
        forall|i: int| 0 <= i < x.left.len() ==> (#[trigger] x.left[i]).depth() < x.depth(),
        forall|j: int| 0 <= j < x.right.len() ==> (#[trigger] x.right[j]).depth() < x.depth(),
{
    assert forall|i: int| 0 <= i < x.left.len() implies (#[trigger] x.left[i]).depth()
        < x.depth() by {
        lemma_rise_bounds(x.left, i);
    }
    assert forall|j: int| 0 <= j < x.right.len() implies (#[trigger] x.right[j]).depth()
        < x.depth() by {
        lemma_rise_bounds(x.right, j);
    }
}

/// Dropping the last member does not raise the rise.
pub proof fn lemma_rise_drop_last(s: Seq<Form>)
    requires
        s.len() > 0,
    ensures
        rise(s.drop_last()) <= rise(s),
{
}

/// A prefix of a sequence rises no higher than the sequence.
pub proof fn lemma_rise_take(s: Seq<Form>, k: int)
    requires
        0 <= k <= s.len(),
    ensures
        rise(s.take(k)) <= rise(s),
    decreases s.len() - k,
{
    if k < s.len() {
        lemma_rise_take(s, k + 1);
        assert(s.take(k + 1).drop_last() =~= s.take(k));
    } else {
        assert(s.take(k) =~= s);
    }
}

/// Where every member of `s` is less deep than `b`, `s` rises no
/// higher than `b`.
pub proof fn lemma_rise_at_most(s: Seq<Form>, b: nat)
    requires
        forall|i: int| 0 <= i < s.len() ==> (#[trigger] s[i]).depth() < b,
    ensures
        rise(s) <= b,
    decreases s.len(),
{
    if s.len() > 0 {
        let t = s.drop_last();
        assert forall|i: int| 0 <= i < t.len() implies (#[trigger] t[i]).depth() < b by {
            assert(t[i] == s[i]);
        }
        lemma_rise_at_most(t, b);
        assert(s.last() == s[s.len() - 1]);
    }
}

/// Two sequences in a row rise as high as the higher of them.
pub proof fn lemma_rise_concat(s: Seq<Form>, t: Seq<Form>)
    ensures
        rise(s + t) == if rise(s) >= rise(t) {
            rise(s)
        } else {
            rise(t)
        },
    decreases t.len(),
{
    if t.len() == 0 {
        assert(s + t =~= s);
    } else {
        lemma_rise_concat(s, t.drop_last());
        assert((s + t).drop_last() =~= s + t.drop_last());
        assert((s + t).last() == t.last());
    }
}

} // verus!
