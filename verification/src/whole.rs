//! Whole numbers are found: the search for a whole number `n` other than
//! zero arrives at `0 + 1 + ... + 1`, or at `0 - 1 - ... - 1`, which
//! denotes `n` exactly, provided that the ceilings allow `n`. So a
//! value without right options anywhere, or without left options
//! anywhere, comes back from its real number as an equal value.

use crate::arith::{negate_each, plus_each};
use crate::conv::{greatest, least, values, MAX_DEPTH};
use crate::dyadic::{magnitude, ONE};
use crate::error::SurrealError;
use crate::form::{lemma_option_depth, lemma_rise_at_most, lemma_rise_bounds, rise, Form};
use crate::laws::{
    lemma_negate_depth, lemma_negate_plus, lemma_negate_reverses, lemma_plus_zero,
    lemma_unit_depths,
};
use crate::search::{climb, close, from_real, reach};
use vstd::prelude::*;

verus! {

/// The form and all forms below it have no right options.
pub open spec fn left_only(g: Form) -> bool
    decreases g.depth(),
{
    &&& g.right.len() == 0
    &&& forall|i: int|
        0 <= i < g.left.len() ==> ({
            proof {
                lemma_rise_bounds(g.left, i);
            }
            left_only(#[trigger] g.left[i])
        })
}

/// `n` ones added to zero, one after the other.
pub open spec fn count(n: nat) -> Form
    decreases n,
{
    if n == 0 {
        Form::zero()
    } else {
        count((n - 1) as nat).plus(Form::one())
    }
}

/// Where every member of `s` denotes its depth, the greatest of their
/// numbers is the greatest depth.
pub proof fn lemma_greatest_depth(s: Seq<Form>)
    requires
        s.len() > 0,
        forall|i: int| 0 <= i < s.len() ==> (#[trigger] s[i]).value() == s[i].depth() * ONE,
    ensures
        greatest(values(s)) == (rise(s) - 1) * ONE,
    decreases s.len(),
{
    let v = values(s);
    if s.len() == 1 {
        assert(s.drop_last() =~= Seq::<Form>::empty());
        assert(rise(s.drop_last()) == 0);
        assert(v[0] == s[0].value());
    } else {
        let t = s.drop_last();
        assert forall|i: int| 0 <= i < t.len() implies (#[trigger] t[i]).value() == t[i].depth()
            * ONE by {
            assert(t[i] == s[i]);
        }
        lemma_greatest_depth(t);
        lemma_rise_bounds(t, 0);
        assert(values(t) =~= v.drop_last());
        assert(v.last() == s.last().value());
        let a = s.last().depth() as int;
        let b = rise(t) - 1;
        assert(a >= b ==> a * ONE >= b * ONE) by (nonlinear_arith);
        assert(a < b ==> a * ONE < b * ONE) by (nonlinear_arith);
    }
}

/// A form without right options anywhere denotes its depth.
pub proof fn lemma_left_only_value(g: Form)
    requires
        left_only(g),
    ensures
        g.value() == g.depth() * ONE,
    decreases g.depth(),
{
    lemma_option_depth(g);
    assert(g.right =~= Seq::<Form>::empty());
    assert(rise(g.right) == 0);
    assert(values(g.right) =~= Seq::<int>::empty());
    if g.left.len() == 0 {
        assert(g.left =~= Seq::<Form>::empty());
        assert(values(g.left) =~= Seq::<int>::empty());
    } else {
        assert forall|i: int| 0 <= i < g.left.len() implies (#[trigger] g.left[i]).value()
            == g.left[i].depth() * ONE by {
            lemma_left_only_value(g.left[i]);
        }
        lemma_greatest_depth(g.left);
        lemma_rise_bounds(g.left, 0);
        assert((rise(g.left) - 1) * ONE + ONE == rise(g.left) * ONE) by (nonlinear_arith);
    }
}

/// Adding one to a form without right options gives such a form again,
/// one deeper.
pub proof fn lemma_left_only_next(g: Form)
    requires
        left_only(g),
    ensures
        left_only(g.plus(Form::one())),
        g.plus(Form::one()).depth() == g.depth() + 1,
    decreases g.depth(),
{
    let o = Form::one();
    let s = g.plus(o);
    let n = g.left.len() as int;
    lemma_option_depth(g);
    lemma_unit_depths();
    lemma_plus_zero(g);
    assert(g.right =~= Seq::<Form>::empty());
    assert(plus_each(g.right, o) =~= Seq::<Form>::empty());
    assert(plus_each(o.right, g) =~= Seq::<Form>::empty());
    assert(s.right =~= Seq::<Form>::empty());
    assert(rise(s.right) == 0);
    assert(s.left.len() == n + 1);
    assert(s.left[n] == g);
    assert forall|i: int| 0 <= i < s.left.len() implies left_only(#[trigger] s.left[i])
        && s.left[i].depth() < g.depth() + 1 by {
        if i < n {
            lemma_left_only_next(g.left[i]);
            assert(s.left[i] == g.left[i].plus(o));
        }
    }
    lemma_rise_at_most(s.left, g.depth() + 1);
    lemma_rise_bounds(s.left, n);
}

/// The sum of `n` ones has no right options anywhere, is nested `n`
/// deep and denotes `n`.
pub proof fn lemma_count(n: nat)
    ensures
        left_only(count(n)),
        count(n).depth() == n,
        count(n).value() == n * ONE,
    decreases n,
{
    if n == 0 {
        lemma_unit_depths();
    } else {
        lemma_count((n - 1) as nat);
        lemma_left_only_next(count((n - 1) as nat));
    }
    lemma_left_only_value(count(n));
}

/// Climbing by ones from the sum of `j` ones towards the whole number
/// `n` stops at the sum of `n` ones, after `n - j` steps, where cursors
/// may be nested `n` deep.
pub proof fn lemma_climb_whole(n: nat, j: nat, depth: nat, fuel: nat)
    requires
        j < n <= reach(depth),
        n - j <= fuel,
    ensures
        climb(n * ONE, count(j), Form::one(), depth, fuel) == Ok::<(Form, Form, nat), SurrealError>(
            (count(n), count((n - 1) as nat), (fuel - (n - j)) as nat),
        ),
    decreases n - j,
{
    lemma_count(j + 1);
    lemma_count(n);
    assert(count(j + 1) == count(j).plus(Form::one()));
    assert(magnitude(n * ONE) == n * ONE) by (nonlinear_arith)
        requires
            n >= 0,
    ;
    assert(magnitude((j + 1) * ONE) == (j + 1) * ONE) by (nonlinear_arith)
        requires
            j >= 0,
    ;
    if j + 1 < n {
        assert(n * ONE > (j + 1) * ONE) by (nonlinear_arith)
            requires
                j + 1 < n,
        ;
        lemma_climb_whole(n, j + 1, depth, (fuel - 1) as nat);
    }
}

/// The search for a positive whole number `n`, up to `MAX_DEPTH`,
/// succeeds exactly when `n` steps and cursors nested `n` deep are
/// allowed, whatever the ceiling on products; it then gives the sum of
/// `n` ones, which denotes `n`.
pub proof fn lemma_from_real_whole(n: nat, nesting: nat, steps: nat, depth: nat)
    requires
        1 <= n <= MAX_DEPTH,
    ensures
        n <= steps && n <= depth ==> from_real(n * ONE, nesting, steps, depth) == Ok::<Form, SurrealError>(count(n)),
        n > steps || n > depth ==> from_real(n * ONE, nesting, steps, depth) == Err::<Form, SurrealError>(
            SurrealError::DepthExceeded,
        ),
        count(n).value() == n * ONE,
{
    let target = n * ONE;
    lemma_count(n);
    assert(target >= ONE) by (nonlinear_arith)
        requires
            n >= 1,
            target == n * ONE,
    ;
    assert(!close(target, 0));
    assert(count(0) == Form::zero());
    if n <= steps && n <= depth {
        lemma_climb_whole(n, 0, depth, steps);
        assert(close(target, count(n).value()));
    } else {
        lemma_climb_short(n, 0, depth, steps);
    }
}

/// With fewer steps allowed than the whole number asks for, or with
/// cursors that may not be nested as deep, the climb fails.
pub proof fn lemma_climb_short(n: nat, j: nat, depth: nat, fuel: nat)
    requires
        j < n <= MAX_DEPTH,
        n - j > fuel || n > reach(depth),
    ensures
        climb(n * ONE, count(j), Form::one(), depth, fuel) == Err::<(Form, Form, nat), SurrealError>(
            SurrealError::DepthExceeded,
        ),
    decreases fuel,
{
    if fuel > 0 {
        lemma_count(j + 1);
        assert(count(j + 1) == count(j).plus(Form::one()));
        if j + 1 <= reach(depth) {
            assert(magnitude(n * ONE) == n * ONE) by (nonlinear_arith)
                requires
                    n >= 0,
            ;
            assert(magnitude((j + 1) * ONE) == (j + 1) * ONE) by (nonlinear_arith)
                requires
                    j >= 0,
            ;
            assert(n * ONE > (j + 1) * ONE) by (nonlinear_arith)
                requires
                    j + 1 < n,
            ;
            lemma_climb_short(n, j + 1, depth, (fuel - 1) as nat);
        }
    }
}

/// The least of the negatives is the negative of the greatest.
pub proof fn lemma_least_of_negatives(s: Seq<int>, t: Seq<int>)
    requires
        s.len() == t.len(),
        forall|i: int| 0 <= i < s.len() ==> #[trigger] t[i] == -s[i],
    ensures
        least(t) == -greatest(s),
    decreases s.len(),
{
    if s.len() > 1 {
        assert forall|i: int| 0 <= i < s.drop_last().len() implies #[trigger] t.drop_last()[i]
            == -s.drop_last()[i] by {
            assert(t.drop_last()[i] == t[i]);
        }
        lemma_least_of_negatives(s.drop_last(), t.drop_last());
        assert(t.last() == t[t.len() - 1]);
    } else if s.len() == 1 {
        assert(t[0] == -s[0]);
    }
}

/// The negative of a form without right options anywhere denotes the
/// negative of its depth.
pub proof fn lemma_left_only_negative(g: Form)
    requires
        left_only(g),
    ensures
        g.negate().value() == -(g.depth() * ONE),
    decreases g.depth(),
{
    lemma_option_depth(g);
    lemma_left_only_value(g);
    let n = g.negate();
    assert(g.right =~= Seq::<Form>::empty());
    assert(n.left =~= Seq::<Form>::empty());
    assert(values(n.left) =~= Seq::<int>::empty());
    assert(values(g.right) =~= Seq::<int>::empty());
    if g.left.len() == 0 {
        assert(n.right =~= Seq::<Form>::empty());
        assert(values(n.right) =~= Seq::<int>::empty());
        assert(values(g.left) =~= Seq::<int>::empty());
    } else {
        assert forall|i: int| 0 <= i < g.left.len() implies #[trigger] values(n.right)[i]
            == -values(g.left)[i] by {
            lemma_left_only_negative(g.left[i]);
            lemma_left_only_value(g.left[i]);
        }
        lemma_least_of_negatives(values(g.left), values(n.right));
    }
}

/// The sum of `n` minus-ones is the negative of the sum of `n` ones.
pub proof fn lemma_count_down(n: nat)
    ensures
        count(n).negate().depth() == n,
        count(n).negate().value() == -(n * ONE),
        count(n + 1).negate() == count(n).negate().plus(Form::neg_one()),
    decreases n,
{
    lemma_count(n);
    lemma_negate_depth(count(n));
    lemma_left_only_negative(count(n));
    lemma_negate_plus(count(n), Form::one());
    assert(Form::one().negate().left =~= Seq::<Form>::empty());
    assert(negate_each(Form::one().left) =~= seq![Form::zero().negate()]);
    lemma_unit_depths();
    assert(Form::one().negate() == Form::neg_one());
}

/// Climbing by minus-ones towards the whole number `-n` stops at the
/// sum of `n` minus-ones, after `n - j` steps.
pub proof fn lemma_climb_whole_down(n: nat, j: nat, depth: nat, fuel: nat)
    requires
        j < n <= reach(depth),
        n - j <= fuel,
    ensures
        climb(-(n * ONE), count(j).negate(), Form::neg_one(), depth, fuel) == Ok::<
            (Form, Form, nat),
            SurrealError,
        >((count(n).negate(), count((n - 1) as nat).negate(), (fuel - (n - j)) as nat)),
    decreases n - j,
{
    lemma_count_down(j);
    lemma_count_down(j + 1);
    lemma_count_down(n);
    assert(magnitude(-(n * ONE)) == n * ONE) by (nonlinear_arith)
        requires
            n >= 0,
    ;
    assert(magnitude(-((j + 1) * ONE)) == (j + 1) * ONE) by (nonlinear_arith)
        requires
            j >= 0,
    ;
    if j + 1 < n {
        assert(n * ONE > (j + 1) * ONE) by (nonlinear_arith)
            requires
                j + 1 < n,
        ;
        lemma_climb_whole_down(n, j + 1, depth, (fuel - 1) as nat);
    }
}

/// With fewer steps allowed than the whole number asks for, or with
/// cursors that may not be nested as deep, the climb downwards fails.
pub proof fn lemma_climb_short_down(n: nat, j: nat, depth: nat, fuel: nat)
    requires
        j < n <= MAX_DEPTH,
        n - j > fuel || n > reach(depth),
    ensures
        climb(-(n * ONE), count(j).negate(), Form::neg_one(), depth, fuel) == Err::<
            (Form, Form, nat),
            SurrealError,
        >(SurrealError::DepthExceeded),
    decreases fuel,
{
    if fuel > 0 {
        lemma_count_down(j);
        lemma_count_down(j + 1);
        if j + 1 <= reach(depth) {
            assert(magnitude(-(n * ONE)) == n * ONE) by (nonlinear_arith)
                requires
                    n >= 0,
            ;
            assert(magnitude(-((j + 1) * ONE)) == (j + 1) * ONE) by (nonlinear_arith)
                requires
                    j >= 0,
            ;
            assert(n * ONE > (j + 1) * ONE) by (nonlinear_arith)
                requires
                    j + 1 < n,
            ;
            lemma_climb_short_down(n, j + 1, depth, (fuel - 1) as nat);
        }
    }
}

/// The search for a negative whole number `-n`, down to `-MAX_DEPTH`,
/// succeeds exactly when `n` steps and cursors nested `n` deep are
/// allowed; it then gives the sum of `n` minus-ones, which denotes
/// `-n`.
pub proof fn lemma_from_real_whole_down(n: nat, nesting: nat, steps: nat, depth: nat)
    requires
        1 <= n <= MAX_DEPTH,
    ensures
        n <= steps && n <= depth ==> from_real(-(n * ONE), nesting, steps, depth) == Ok::<Form, SurrealError>(
            count(n).negate(),
        ),
        n > steps || n > depth ==> from_real(-(n * ONE), nesting, steps, depth) == Err::<Form, SurrealError>(
            SurrealError::DepthExceeded,
        ),
        count(n).negate().value() == -(n * ONE),
{
    let target = -(n * ONE);
    lemma_count_down(n);
    lemma_unit_depths();
    assert(n * ONE >= ONE) by (nonlinear_arith)
        requires
            n >= 1,
    ;
    assert(!close(target, 0));
    assert(count(0).negate() == Form::zero());
    if n <= steps && n <= depth {
        lemma_climb_whole_down(n, 0, depth, steps);
        assert(close(target, count(n).negate().value()));
    } else {
        lemma_climb_short_down(n, 0, depth, steps);
    }
}

/// Forms without right options anywhere are ordered by their depth.
pub proof fn lemma_left_only_order(g: Form, h: Form)
    requires
        left_only(g),
        left_only(h),
    ensures
        g.le(h) == (g.depth() <= h.depth()),
    decreases g.depth() + h.depth(),
{
    lemma_option_depth(g);
    lemma_option_depth(h);
    assert(g.right =~= Seq::<Form>::empty());
    assert(h.right =~= Seq::<Form>::empty());
    assert(rise(g.right) == 0);
    assert forall|i: int| 0 <= i < g.left.len() implies h.le(#[trigger] g.left[i]) == (h.depth()
        <= g.left[i].depth()) by {
        lemma_left_only_order(h, g.left[i]);
    }
    if g.depth() <= h.depth() {
        assert forall|i: int| 0 <= i < g.left.len() implies !h.le(#[trigger] g.left[i]) by {}
    } else {
        // some left option of g is as deep as h
        if forall|i: int| 0 <= i < g.left.len() ==> (#[trigger] g.left[i]).depth() < h.depth() {
            lemma_rise_at_most(g.left, h.depth());
        }
        let i = choose|i: int|
            0 <= i < g.left.len() && !((#[trigger] g.left[i]).depth() < h.depth());
        assert(h.le(g.left[i]));
    }
}

/// Round trip for whole numbers: a form without right options anywhere,
/// nested between 1 and `MAX_DEPTH` deep, comes back from the search
/// for its real number as an equivalent form, where as many steps and
/// cursors as deep are allowed as it is deep.
pub proof fn lemma_round_trip_whole(s: Form, nesting: nat, steps: nat, depth: nat)
    requires
        left_only(s),
        1 <= s.depth() <= MAX_DEPTH,
        s.depth() <= steps,
        s.depth() <= depth,
    ensures
        from_real(s.value(), nesting, steps, depth) matches Ok(f) && f.equiv(s),
{
    let n = s.depth();
    lemma_left_only_value(s);
    lemma_from_real_whole(n, nesting, steps, depth);
    lemma_count(n);
    lemma_left_only_order(s, count(n));
    lemma_left_only_order(count(n), s);
}

/// Round trip for negative whole numbers: the negative of a form
/// without right options anywhere comes back from the search for its
/// real number as an equivalent form, under the same bounds.
pub proof fn lemma_round_trip_whole_down(s: Form, nesting: nat, steps: nat, depth: nat)
    requires
        left_only(s),
        1 <= s.depth() <= MAX_DEPTH,
        s.depth() <= steps,
        s.depth() <= depth,
    ensures
        from_real(s.negate().value(), nesting, steps, depth) matches Ok(f) && f.equiv(s.negate()),
{
    let n = s.depth();
    lemma_left_only_negative(s);
    lemma_from_real_whole_down(n, nesting, steps, depth);
    lemma_count(n);
    lemma_left_only_order(s, count(n));
    lemma_left_only_order(count(n), s);
    lemma_negate_reverses(s, count(n));
    lemma_negate_reverses(count(n), s);
}

} // verus!
