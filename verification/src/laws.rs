//! Laws of the arithmetic on forms. Unless a law asks for numbers, it
//! holds of every form, whether or not it obeys the rule of construction.

use crate::arith::{negate_each, plus_each};
use crate::form::{lemma_option_depth, lemma_rise_bounds, lemma_rise_concat, rise, Form};
use crate::order::{
    lemma_le_reflexive, lemma_le_transitive, lemma_number_between, lemma_options_apart,
};
use crate::product::{cross, row, term};
use vstd::prelude::*;

verus! {

/// Negating twice gives the form back, option for option.
pub proof fn lemma_negate_twice(x: Form)
    ensures
        x.negate().negate() == x,
    decreases x.depth(),
{
    lemma_option_depth(x);
    let n = x.negate();
    assert forall|i: int| 0 <= i < x.left.len() implies #[trigger] n.negate().left[i]
        == x.left[i] by {
        lemma_negate_twice(x.left[i]);
    }
    assert forall|j: int| 0 <= j < x.right.len() implies #[trigger] n.negate().right[j]
        == x.right[j] by {
        lemma_negate_twice(x.right[j]);
    }
    assert(n.negate().left =~= x.left);
    assert(n.negate().right =~= x.right);
}

/// Negating twice gives an equivalent form.
pub proof fn lemma_negate_twice_equiv(x: Form)
    ensures
        x.negate().negate().equiv(x),
{
    lemma_negate_twice(x);
    lemma_le_reflexive(x);
}

/// Zero is neutral for addition on either side, option for option.
pub proof fn lemma_plus_zero(x: Form)
    ensures
        x.plus(Form::zero()) == x,
        Form::zero().plus(x) == x,
    decreases x.depth(),
{
    lemma_option_depth(x);
    let z = Form::zero();
    assert forall|i: int| 0 <= i < x.left.len() implies #[trigger] plus_each(x.left, z)[i]
        == x.left[i] by {
        lemma_plus_zero(x.left[i]);
    }
    assert forall|j: int| 0 <= j < x.right.len() implies #[trigger] plus_each(x.right, z)[j]
        == x.right[j] by {
        lemma_plus_zero(x.right[j]);
    }
    assert(plus_each(x.left, z) =~= x.left);
    assert(plus_each(x.right, z) =~= x.right);
    assert(plus_each(z.left, x) =~= Seq::<Form>::empty());
    assert(plus_each(z.right, x) =~= Seq::<Form>::empty());
    assert(x.plus(z).left =~= x.left);
    assert(x.plus(z).right =~= x.right);
    assert(z.plus(x).left =~= x.left);
    assert(z.plus(x).right =~= x.right);
}

/// Adding zero gives an equivalent form.
pub proof fn lemma_plus_zero_equiv(x: Form)
    ensures
        x.plus(Form::zero()).equiv(x),
{
    lemma_plus_zero(x);
    lemma_le_reflexive(x);
}

/// A form and its negative sum to zero, in either order.
pub proof fn lemma_plus_negate(x: Form)
    ensures
        x.plus(x.negate()).equiv(Form::zero()),
        x.negate().plus(x).equiv(Form::zero()),
    decreases x.depth(),
{
    lemma_option_depth(x);
    let z = Form::zero();
    let n = x.negate();
    let s = x.plus(n);
    let t = n.plus(x);
    let nl = x.left.len() as int;
    let nr = x.right.len() as int;
    // s.left = [xl + n] ++ [(-xr) + x], s.right = [xr + n] ++ [(-xl) + x]
    // t.left = [(-xr) + x] ++ [xl + n], t.right = [(-xl) + x] ++ [xr + n]
    assert forall|i: int| 0 <= i < nl implies !z.le((#[trigger] x.left[i]).plus(n)) && !(
    x.left[i].negate().plus(x)).le(z) by {
        let xl = x.left[i];
        lemma_plus_negate(xl);
        // xl + n has the right option (-xl) + xl, which is at most zero
        let a = xl.plus(n);
        let k = xl.right.len() + i;
        assert(n.right[i] == xl.negate());
        assert(plus_each(n.right, xl)[i] == xl.negate().plus(xl));
        assert(a.right[k] == xl.negate().plus(xl));
        assert(a.right[k].le(z));
        // (-xl) + x has the left option xl + (-xl), which is at least zero
        let b = xl.negate().plus(x);
        let m = xl.negate().left.len() + i;
        assert(plus_each(x.left, xl.negate())[i] == xl.plus(xl.negate()));
        assert(b.left[m] == xl.plus(xl.negate()));
        assert(z.le(b.left[m]));
    }
    assert forall|j: int| 0 <= j < nr implies !((#[trigger] x.right[j]).plus(n)).le(z) && !z.le(
        x.right[j].negate().plus(x),
    ) by {
        let xr = x.right[j];
        lemma_plus_negate(xr);
        // xr + n has the left option (-xr) + xr, which is at least zero
        let a = xr.plus(n);
        let k = xr.left.len() + j;
        assert(n.left[j] == xr.negate());
        assert(plus_each(n.left, xr)[j] == xr.negate().plus(xr));
        assert(a.left[k] == xr.negate().plus(xr));
        assert(z.le(a.left[k]));
        // (-xr) + x has the right option xr + (-xr), which is at most zero
        let b = xr.negate().plus(x);
        let m = xr.negate().right.len() + j;
        assert(plus_each(x.right, xr.negate())[j] == xr.plus(xr.negate()));
        assert(b.right[m] == xr.plus(xr.negate()));
        assert(b.right[m].le(z));
    }
    assert forall|i: int| 0 <= i < s.left.len() implies !z.le(#[trigger] s.left[i]) by {
        if i < nl {
            assert(s.left[i] == x.left[i].plus(n));
        } else {
            assert(n.left[i - nl] == x.right[i - nl].negate());
            assert(s.left[i] == x.right[i - nl].negate().plus(x));
        }
    }
    assert forall|j: int| 0 <= j < s.right.len() implies !(#[trigger] s.right[j]).le(z) by {
        if j < nr {
            assert(s.right[j] == x.right[j].plus(n));
        } else {
            assert(n.right[j - nr] == x.left[j - nr].negate());
            assert(s.right[j] == x.left[j - nr].negate().plus(x));
        }
    }
    assert forall|i: int| 0 <= i < t.left.len() implies !z.le(#[trigger] t.left[i]) by {
        if i < nr {
            assert(n.left[i] == x.right[i].negate());
            assert(t.left[i] == x.right[i].negate().plus(x));
        } else {
            assert(t.left[i] == x.left[i - nr].plus(n));
        }
    }
    assert forall|j: int| 0 <= j < t.right.len() implies !(#[trigger] t.right[j]).le(z) by {
        if j < nl {
            assert(n.right[j] == x.left[j].negate());
            assert(t.right[j] == x.left[j].negate().plus(x));
        } else {
            assert(t.right[j] == x.right[j - nl].plus(n));
        }
    }
    assert(s.le(z));
    assert(z.le(s));
    assert(t.le(z));
    assert(z.le(t));
}

/// The depths of zero, one and minus one.
pub proof fn lemma_unit_depths()
    ensures
        Form::zero().depth() == 0,
        Form::one().depth() == 1,
        Form::neg_one().depth() == 1,
        rise(seq![Form::zero()]) == 1,
        Form::zero().negate() == Form::zero(),
{
    let z = Form::zero();
    assert(rise(Seq::<Form>::empty()) == 0);
    assert(z.depth() == 0);
    let s = seq![z];
    assert(s.drop_last() =~= Seq::<Form>::empty());
    assert(s.last() == z);
    assert(rise(s) == 1);
    assert(negate_each(Seq::<Form>::empty()) =~= Seq::<Form>::empty());
}

/// No terms arise where the second factor offers no options.
pub proof fn lemma_cross_none(x: Form, y: Form, xs: Seq<Form>)
    requires
        rise(xs) <= x.depth(),
    ensures
        cross(x, y, xs, Seq::empty()) == Seq::<Form>::empty(),
    decreases xs.len(),
{
    assert(rise(Seq::<Form>::empty()) == 0);
    if xs.len() > 0 {
        lemma_rise_bounds(xs, xs.len() - 1);
        lemma_cross_none(x, y, xs.drop_last());
        assert(row(x, y, xs.last(), Seq::empty()) =~= Seq::<Form>::empty());
        assert(cross(x, y, xs, Seq::empty()) =~= Seq::<Form>::empty());
    }
}

/// Where the second factor offers the single option `yo`, each member
/// of `xs` gives one term.
pub proof fn lemma_cross_single(x: Form, y: Form, xs: Seq<Form>, yo: Form)
    requires
        rise(xs) <= x.depth(),
        yo.depth() < y.depth(),
    ensures
        cross(x, y, xs, seq![yo]).len() == xs.len(),
        forall|i: int|
            0 <= i < xs.len() ==> #[trigger] cross(x, y, xs, seq![yo])[i] == term(
                x,
                y,
                xs[i],
                yo,
            ),
    decreases xs.len(),
{
    let ys = seq![yo];
    assert(ys.drop_last() =~= Seq::<Form>::empty());
    assert(rise(Seq::<Form>::empty()) == 0);
    assert(rise(ys) == yo.depth() + 1);
    if xs.len() > 0 {
        lemma_rise_bounds(xs, xs.len() - 1);
        lemma_cross_single(x, y, xs.drop_last(), yo);
        assert(row(x, y, xs.last(), ys) =~= seq![term(x, y, xs.last(), yo)]);
        assert(cross(x, y, xs, ys) == cross(x, y, xs.drop_last(), ys) + row(
            x,
            y,
            xs.last(),
            ys,
        ));
    }
}

/// Where the first factor offers the single option `xo`, the terms are
/// its row.
pub proof fn lemma_cross_one_row(x: Form, y: Form, xo: Form, ys: Seq<Form>)
    requires
        xo.depth() < x.depth(),
        rise(ys) <= y.depth(),
    ensures
        cross(x, y, seq![xo], ys) == row(x, y, xo, ys),
{
    let xs = seq![xo];
    assert(xs.drop_last() =~= Seq::<Form>::empty());
    assert(rise(Seq::<Form>::empty()) == 0);
    assert(rise(xs) == xo.depth() + 1);
    assert(cross(x, y, xs.drop_last(), ys) =~= Seq::<Form>::empty());
    assert(cross(x, y, xs, ys) =~= row(x, y, xo, ys));
}

/// A product with zero is zero, option for option.
pub proof fn lemma_times_zero(x: Form)
    ensures
        x.times(Form::zero()) == Form::zero(),
        Form::zero().times(x) == Form::zero(),
{
    let z = Form::zero();
    let e = Seq::<Form>::empty();
    lemma_unit_depths();
    assert(rise(e) == 0);
    lemma_cross_none(x, z, x.left);
    lemma_cross_none(x, z, x.right);
    assert(x.times(z).left =~= e);
    assert(x.times(z).right =~= e);
    assert(cross(z, x, e, x.left) =~= e);
    assert(cross(z, x, e, x.right) =~= e);
    assert(z.times(x).left =~= e);
    assert(z.times(x).right =~= e);
}

/// One is neutral for multiplication on either side, option for option.
pub proof fn lemma_times_one(x: Form)
    ensures
        x.times(Form::one()) == x,
        Form::one().times(x) == x,
    decreases x.depth(),
{
    let z = Form::zero();
    let o = Form::one();
    let e = Seq::<Form>::empty();
    lemma_unit_depths();
    lemma_option_depth(x);
    lemma_times_zero(x);
    lemma_times_zero(o);
    assert(rise(e) == 0);
    // x * 1
    lemma_cross_single(x, o, x.left, z);
    lemma_cross_single(x, o, x.right, z);
    lemma_cross_none(x, o, x.left);
    lemma_cross_none(x, o, x.right);
    assert forall|i: int| 0 <= i < x.left.len() implies term(x, o, #[trigger] x.left[i], z)
        == x.left[i] && term(o, x, z, x.left[i]) == x.left[i] by {
        let a = x.left[i];
        lemma_times_one(a);
        lemma_times_zero(a);
        lemma_plus_zero(a);
    }
    assert forall|j: int| 0 <= j < x.right.len() implies term(x, o, #[trigger] x.right[j], z)
        == x.right[j] && term(o, x, z, x.right[j]) == x.right[j] by {
        let a = x.right[j];
        lemma_times_one(a);
        lemma_times_zero(a);
        lemma_plus_zero(a);
    }
    assert(o.left =~= seq![z]);
    assert(cross(x, o, x.left, o.left) =~= x.left);
    assert(cross(x, o, x.right, o.left) =~= x.right);
    assert(x.times(o).left =~= x.left);
    assert(x.times(o).right =~= x.right);
    // 1 * x
    lemma_cross_one_row(o, x, z, x.left);
    lemma_cross_one_row(o, x, z, x.right);
    assert(row(o, x, z, x.left) =~= x.left);
    assert(row(o, x, z, x.right) =~= x.right);
    assert(cross(o, x, e, x.left) =~= e);
    assert(cross(o, x, e, x.right) =~= e);
    assert(o.times(x).left =~= x.left);
    assert(o.times(x).right =~= x.right);
}

/// Multiplying by minus one negates, on either side, option for option.
pub proof fn lemma_times_neg_one(x: Form)
    ensures
        x.times(Form::neg_one()) == x.negate(),
        Form::neg_one().times(x) == x.negate(),
    decreases x.depth(),
{
    let z = Form::zero();
    let m = Form::neg_one();
    let e = Seq::<Form>::empty();
    lemma_unit_depths();
    lemma_option_depth(x);
    lemma_times_zero(x);
    lemma_times_zero(m);
    assert(rise(e) == 0);
    lemma_cross_single(x, m, x.left, z);
    lemma_cross_single(x, m, x.right, z);
    lemma_cross_none(x, m, x.left);
    lemma_cross_none(x, m, x.right);
    assert forall|i: int| 0 <= i < x.left.len() implies term(x, m, #[trigger] x.left[i], z)
        == x.left[i].negate() && term(m, x, z, x.left[i]) == x.left[i].negate() by {
        let a = x.left[i];
        lemma_times_neg_one(a);
        lemma_times_zero(a);
        lemma_plus_zero(a.negate());
    }
    assert forall|j: int| 0 <= j < x.right.len() implies term(x, m, #[trigger] x.right[j], z)
        == x.right[j].negate() && term(m, x, z, x.right[j]) == x.right[j].negate() by {
        let a = x.right[j];
        lemma_times_neg_one(a);
        lemma_times_zero(a);
        lemma_plus_zero(a.negate());
    }
    assert(m.right =~= seq![z]);
    assert(cross(x, m, x.right, m.right) =~= negate_each(x.right));
    assert(cross(x, m, x.left, m.right) =~= negate_each(x.left));
    assert(x.times(m).left =~= negate_each(x.right));
    assert(x.times(m).right =~= negate_each(x.left));
    lemma_cross_one_row(m, x, z, x.left);
    lemma_cross_one_row(m, x, z, x.right);
    assert(row(m, x, z, x.left) =~= negate_each(x.left));
    assert(row(m, x, z, x.right) =~= negate_each(x.right));
    assert(cross(m, x, e, x.left) =~= e);
    assert(cross(m, x, e, x.right) =~= e);
    assert(m.times(x).left =~= negate_each(x.right));
    assert(m.times(x).right =~= negate_each(x.left));
}

/// The identities of multiplication, up to equivalence.
pub proof fn lemma_times_units_equiv(x: Form)
    ensures
        x.times(Form::one()).equiv(x),
        x.times(Form::zero()).equiv(Form::zero()),
        x.times(Form::neg_one()).equiv(x.negate()),
{
    lemma_times_one(x);
    lemma_times_zero(x);
    lemma_times_neg_one(x);
    lemma_le_reflexive(x);
    lemma_le_reflexive(Form::zero());
    lemma_le_reflexive(x.negate());
}

/// Negation turns the order round: `x <= y` exactly when `-y <= -x`.
pub proof fn lemma_negate_reverses(x: Form, y: Form)
    ensures
        x.le(y) == y.negate().le(x.negate()),
    decreases x.depth() + y.depth(),
{
    lemma_option_depth(x);
    lemma_option_depth(y);
    let nx = x.negate();
    let ny = y.negate();
    assert forall|i: int| 0 <= i < x.left.len() implies y.le(#[trigger] x.left[i]) == (
    #[trigger] nx.right[i]).le(ny) by {
        lemma_negate_reverses(y, x.left[i]);
    }
    assert forall|j: int| 0 <= j < y.right.len() implies (#[trigger] y.right[j]).le(x) == nx.le(
        #[trigger] ny.left[j],
    ) by {
        lemma_negate_reverses(y.right[j], x);
    }
    if x.le(y) {
        assert forall|j: int| 0 <= j < ny.left.len() implies !nx.le(#[trigger] ny.left[j]) by {
            assert(!y.right[j].le(x));
        }
        assert forall|i: int| 0 <= i < nx.right.len() implies !(#[trigger] nx.right[i]).le(
            ny,
        ) by {
            assert(!y.le(x.left[i]));
        }
    }
    if ny.le(nx) {
        assert forall|i: int| 0 <= i < x.left.len() implies !y.le(#[trigger] x.left[i]) by {
            assert(!nx.right[i].le(ny));
        }
        assert forall|j: int| 0 <= j < y.right.len() implies !(#[trigger] y.right[j]).le(x) by {
            assert(!nx.le(ny.left[j]));
        }
    }
}

/// The negative of a number is a number.
pub proof fn lemma_negate_number(x: Form)
    requires
        x.is_number(),
    ensures
        x.negate().is_number(),
    decreases x.depth(),
{
    lemma_option_depth(x);
    let n = x.negate();
    assert forall|i: int| 0 <= i < n.left.len() implies (#[trigger] n.left[i]).is_number() by {
        lemma_negate_number(x.right[i]);
    }
    assert forall|j: int| 0 <= j < n.right.len() implies (#[trigger] n.right[j]).is_number() by {
        lemma_negate_number(x.left[j]);
    }
    assert forall|i: int, j: int|
        0 <= i < n.left.len() && 0 <= j < n.right.len() implies !(#[trigger] n.right[j]).le(
        #[trigger] n.left[i],
    ) by {
        lemma_negate_reverses(x.right[i], x.left[j]);
        assert(!x.right[i].le(x.left[j]));
    }
}

/// Negation goes through sums, option for option.
pub proof fn lemma_negate_plus(a: Form, b: Form)
    ensures
        a.plus(b).negate() == a.negate().plus(b.negate()),
    decreases a.depth() + b.depth(),
{
    lemma_option_depth(a);
    lemma_option_depth(b);
    let s = a.plus(b);
    let na = a.negate();
    let nb = b.negate();
    let t = na.plus(nb);
    let nar = a.right.len() as int;
    let nal = a.left.len() as int;
    assert(s.negate().left.len() == t.left.len());
    assert(s.negate().right.len() == t.right.len());
    assert forall|i: int| 0 <= i < t.left.len() implies #[trigger] s.negate().left[i]
        == t.left[i] by {
        if i < nar {
            lemma_negate_plus(a.right[i], b);
            assert(s.right[i] == a.right[i].plus(b));
            assert(na.left[i] == a.right[i].negate());
        } else {
            lemma_negate_plus(b.right[i - nar], a);
            assert(s.right[i] == b.right[i - nar].plus(a));
            assert(nb.left[i - nar] == b.right[i - nar].negate());
        }
    }
    assert forall|j: int| 0 <= j < t.right.len() implies #[trigger] s.negate().right[j]
        == t.right[j] by {
        if j < nal {
            lemma_negate_plus(a.left[j], b);
            assert(s.left[j] == a.left[j].plus(b));
            assert(na.right[j] == a.left[j].negate());
        } else {
            lemma_negate_plus(b.left[j - nal], a);
            assert(s.left[j] == b.left[j - nal].plus(a));
            assert(nb.right[j - nal] == b.left[j - nal].negate());
        }
    }
    assert(s.negate().left =~= t.left);
    assert(s.negate().right =~= t.right);
}

/// A form and its negative are nested equally deep.
pub proof fn lemma_negate_depth(g: Form)
    ensures
        g.negate().depth() == g.depth(),
    decreases g.depth(),
{
    lemma_option_depth(g);
    lemma_negate_rise(g.left, g.depth());
    lemma_negate_rise(g.right, g.depth());
}

/// The negatives of the members of `s` rise as high as `s`.
pub proof fn lemma_negate_rise(s: Seq<Form>, bound: nat)
    requires
        forall|i: int| 0 <= i < s.len() ==> (#[trigger] s[i]).depth() < bound,
    ensures
        rise(negate_each(s)) == rise(s),
    decreases bound, s.len(),
{
    if s.len() > 0 {
        let t = s.drop_last();
        assert forall|i: int| 0 <= i < t.len() implies (#[trigger] t[i]).depth() < bound by {
            assert(t[i] == s[i]);
        }
        lemma_negate_rise(t, bound);
        assert(negate_each(s).drop_last() =~= negate_each(t));
        assert(negate_each(s).last() == s.last().negate());
        assert(s.last() == s[s.len() - 1]);
        lemma_negate_depth(s.last());
    } else {
        assert(negate_each(s) =~= Seq::<Form>::empty());
    }
}

/// Forms with the same options in another order are equivalent; so
/// addition commutes up to equivalence.
pub proof fn lemma_plus_commutes(x: Form, y: Form)
    ensures
        x.plus(y).equiv(y.plus(x)),
{
    let a = x.plus(y);
    let b = y.plus(x);
    let nxl = x.left.len() as int;
    let nyl = y.left.len() as int;
    let nxr = x.right.len() as int;
    let nyr = y.right.len() as int;
    lemma_options_apart(a);
    lemma_options_apart(b);
    assert forall|i: int| 0 <= i < a.left.len() implies !b.le(#[trigger] a.left[i]) by {
        if i < nxl {
            assert(a.left[i] == b.left[nyl + i]);
        } else {
            assert(a.left[i] == b.left[i - nxl]);
        }
    }
    assert forall|j: int| 0 <= j < b.right.len() implies !(#[trigger] b.right[j]).le(a) by {
        if j < nyr {
            assert(b.right[j] == a.right[nxr + j]);
        } else {
            assert(b.right[j] == a.right[j - nyr]);
        }
    }
    assert forall|i: int| 0 <= i < b.left.len() implies !a.le(#[trigger] b.left[i]) by {
        if i < nyl {
            assert(b.left[i] == a.left[nxl + i]);
        } else {
            assert(b.left[i] == a.left[i - nyl]);
        }
    }
    assert forall|j: int| 0 <= j < a.right.len() implies !(#[trigger] a.right[j]).le(b) by {
        if j < nxr {
            assert(a.right[j] == b.right[nyr + j]);
        } else {
            assert(a.right[j] == b.right[j - nxr]);
        }
    }
}

/// Adding the same form on the left keeps the order and reflects it:
/// `y <= z` exactly when `x + y <= x + z`.
pub proof fn lemma_plus_monotone(x: Form, y: Form, z: Form)
    ensures
        y.le(z) == x.plus(y).le(x.plus(z)),
    decreases x.depth() + y.depth() + z.depth(),
{
    lemma_option_depth(x);
    lemma_option_depth(y);
    lemma_option_depth(z);
    let s = x.plus(y);
    let t = x.plus(z);
    let nxl = x.left.len() as int;
    let nxr = x.right.len() as int;
    lemma_options_apart(s);
    lemma_options_apart(t);
    if s.le(t) {
        // then y <= z
        assert forall|i: int| 0 <= i < y.left.len() implies !z.le(#[trigger] y.left[i]) by {
            let yl = y.left[i];
            if z.le(yl) {
                lemma_plus_monotone(x, z, yl);
                lemma_plus_commutes(x, yl);
                lemma_le_transitive(t, x.plus(yl), yl.plus(x));
                assert(s.left[nxl + i] == yl.plus(x));
            }
        }
        assert forall|j: int| 0 <= j < z.right.len() implies !(#[trigger] z.right[j]).le(y) by {
            let zr = z.right[j];
            if zr.le(y) {
                lemma_plus_monotone(x, zr, y);
                lemma_plus_commutes(zr, x);
                lemma_le_transitive(zr.plus(x), x.plus(zr), s);
                assert(t.right[nxr + j] == zr.plus(x));
            }
        }
    }
    if y.le(z) {
        // then x + y <= x + z
        assert forall|i: int| 0 <= i < s.left.len() implies !t.le(#[trigger] s.left[i]) by {
            if t.le(s.left[i]) {
                if i < nxl {
                    let xl = x.left[i];
                    assert(s.left[i] == xl.plus(y));
                    lemma_plus_monotone(xl, y, z);
                    lemma_le_transitive(t, xl.plus(y), xl.plus(z));
                    assert(t.left[i] == xl.plus(z));
                } else {
                    let yl = y.left[i - nxl];
                    assert(s.left[i] == yl.plus(x));
                    lemma_plus_commutes(yl, x);
                    lemma_le_transitive(t, yl.plus(x), x.plus(yl));
                    lemma_plus_monotone(x, z, yl);
                }
            }
        }
        assert forall|j: int| 0 <= j < t.right.len() implies !(#[trigger] t.right[j]).le(s) by {
            if t.right[j].le(s) {
                if j < nxr {
                    let xr = x.right[j];
                    assert(t.right[j] == xr.plus(z));
                    lemma_plus_monotone(xr, y, z);
                    lemma_le_transitive(xr.plus(y), xr.plus(z), s);
                    assert(s.right[j] == xr.plus(y));
                } else {
                    let zr = z.right[j - nxr];
                    assert(t.right[j] == zr.plus(x));
                    lemma_plus_commutes(x, zr);
                    lemma_le_transitive(x.plus(zr), zr.plus(x), s);
                    lemma_plus_monotone(x, zr, y);
                }
            }
        }
    }
}

/// Adding the same form on the right keeps the order and reflects it:
/// `y <= z` exactly when `y + x <= z + x`.
pub proof fn lemma_plus_monotone_right(x: Form, y: Form, z: Form)
    ensures
        y.le(z) == y.plus(x).le(z.plus(x)),
{
    lemma_plus_monotone(x, y, z);
    lemma_plus_commutes(x, y);
    lemma_plus_commutes(x, z);
    if x.plus(y).le(x.plus(z)) {
        lemma_le_transitive(y.plus(x), x.plus(y), x.plus(z));
        lemma_le_transitive(y.plus(x), x.plus(z), z.plus(x));
    }
    if y.plus(x).le(z.plus(x)) {
        lemma_le_transitive(x.plus(y), y.plus(x), z.plus(x));
        lemma_le_transitive(x.plus(y), z.plus(x), x.plus(z));
    }
}

/// The sum of two numbers is a number.
pub proof fn lemma_plus_number(x: Form, y: Form)
    requires
        x.is_number(),
        y.is_number(),
    ensures
        x.plus(y).is_number(),
    decreases x.depth() + y.depth(),
{
    lemma_option_depth(x);
    lemma_option_depth(y);
    lemma_number_between(x);
    lemma_number_between(y);
    let s = x.plus(y);
    let nxl = x.left.len() as int;
    let nxr = x.right.len() as int;
    lemma_options_apart(s);
    assert forall|i: int| 0 <= i < s.left.len() implies (#[trigger] s.left[i]).is_number() by {
        if i < nxl {
            lemma_plus_number(x.left[i], y);
        } else {
            lemma_plus_number(y.left[i - nxl], x);
        }
    }
    assert forall|j: int| 0 <= j < s.right.len() implies (#[trigger] s.right[j]).is_number() by {
        if j < nxr {
            lemma_plus_number(x.right[j], y);
        } else {
            lemma_plus_number(y.right[j - nxr], x);
        }
    }
    assert forall|i: int, j: int|
        0 <= i < s.left.len() && 0 <= j < s.right.len() implies !(#[trigger] s.right[j]).le(
        #[trigger] s.left[i],
    ) by {
        let a = s.left[i];
        let b = s.right[j];
        if b.le(a) {
            if i < nxl && j < nxr {
                // xr + y <= xl + y would give xr <= xl
                lemma_plus_monotone_right(y, x.right[j], x.left[i]);
                assert(!x.right[j].le(x.left[i]));
            } else if i < nxl {
                // yr + x <= xl + y, and x + y <= x + yr
                let yr = y.right[j - nxr];
                lemma_plus_monotone(x, y, yr);
                lemma_plus_commutes(x, yr);
                lemma_le_transitive(s, x.plus(yr), yr.plus(x));
                lemma_le_transitive(s, b, a);
            } else if j < nxr {
                // xr + y <= yl + x, and x + y <= xr + y
                lemma_plus_monotone_right(y, x, x.right[j]);
                lemma_le_transitive(s, b, a);
            } else {
                // yr + x <= yl + x would give yr <= yl
                lemma_plus_monotone_right(x, y.right[j - nxr], y.left[i - nxl]);
                assert(!y.right[j - nxr].le(y.left[i - nxl]));
            }
        }
    }
}

/// The difference of two numbers is a number.
pub proof fn lemma_minus_number(x: Form, y: Form)
    requires
        x.is_number(),
        y.is_number(),
    ensures
        x.minus(y).is_number(),
{
    lemma_negate_number(y);
    lemma_plus_number(x, y.negate());
}

/// The members of `s`, each with `n` added, rise as high as `s` and the
/// depth of `n` together, where `s` is not empty and sums are as deep
/// as their summands together.
pub proof fn lemma_plus_each_rise(s: Seq<Form>, n: Form, bound: nat)
    requires
        forall|i: int| 0 <= i < s.len() ==> (#[trigger] s[i]).depth() < bound,
    ensures
        s.len() > 0 ==> rise(plus_each(s, n)) == rise(s) + n.depth(),
        s.len() == 0 ==> rise(plus_each(s, n)) == 0,
    decreases bound + n.depth(), 0nat, s.len(),
{
    let p = plus_each(s, n);
    if s.len() == 0 {
        assert(p =~= Seq::<Form>::empty());
    } else {
        let t = s.drop_last();
        assert forall|i: int| 0 <= i < t.len() implies (#[trigger] t[i]).depth() < bound by {
            assert(t[i] == s[i]);
        }
        lemma_plus_each_rise(t, n, bound);
        assert(p.drop_last() =~= plus_each(t, n));
        assert(s.last() == s[s.len() - 1]);
        assert(p.last() == s.last().plus(n));
        lemma_plus_depth(s.last(), n);
        if t.len() == 0 {
            assert(t =~= Seq::<Form>::empty());
        } else {
            lemma_rise_bounds(t, 0);
        }
    }
}

/// A sum is nested as deep as its summands together.
pub proof fn lemma_plus_depth(a: Form, b: Form)
    ensures
        a.plus(b).depth() == a.depth() + b.depth(),
    decreases a.depth() + b.depth(), 1nat, 0nat,
{
    lemma_option_depth(a);
    lemma_option_depth(b);
    let s = a.plus(b);
    lemma_plus_each_rise(a.left, b, a.depth());
    lemma_plus_each_rise(b.left, a, b.depth());
    lemma_plus_each_rise(a.right, b, a.depth());
    lemma_plus_each_rise(b.right, a, b.depth());
    lemma_rise_concat(plus_each(a.left, b), plus_each(b.left, a));
    lemma_rise_concat(plus_each(a.right, b), plus_each(b.right, a));
    if a.left.len() == 0 {
        assert(a.left =~= Seq::<Form>::empty());
        assert(rise(a.left) == 0);
    } else {
        lemma_rise_bounds(a.left, 0);
    }
    if a.right.len() == 0 {
        assert(a.right =~= Seq::<Form>::empty());
        assert(rise(a.right) == 0);
    } else {
        lemma_rise_bounds(a.right, 0);
    }
    if b.left.len() == 0 {
        assert(b.left =~= Seq::<Form>::empty());
        assert(rise(b.left) == 0);
    } else {
        lemma_rise_bounds(b.left, 0);
    }
    if b.right.len() == 0 {
        assert(b.right =~= Seq::<Form>::empty());
        assert(rise(b.right) == 0);
    } else {
        lemma_rise_bounds(b.right, 0);
    }
}

} // verus!
