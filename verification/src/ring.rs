//! Laws of multiplication beyond its units: which forms are the options
//! of a product, and that multiplication commutes up to equivalence.

use crate::form::{lemma_option_depth, lemma_rise_bounds, lemma_rise_drop_last, rise, Form};
use crate::group::{
    above_some, below_some, lemma_dominated, lemma_equiv_transitive, lemma_negate_congruent,
    lemma_plus_congruent,
};
use crate::laws::lemma_plus_commutes;
use crate::product::{cross, row, term};
use vstd::prelude::*;

verus! {

/// `f` is the term of some member of `xs` with some member of `ys`.
pub open spec fn is_term(x: Form, y: Form, xs: Seq<Form>, ys: Seq<Form>, f: Form) -> bool {
    exists|i: int, j: int|
        0 <= i < xs.len() && 0 <= j < ys.len() && f == #[trigger] term(x, y, xs[i], ys[j])
}

/// `f` is a member of `s`.
pub open spec fn member(f: Form, s: Seq<Form>) -> bool {
    exists|k: int| 0 <= k < s.len() && #[trigger] s[k] == f
}

/// The cross terms of `xs` and `ys` are exactly the terms of their
/// members.
pub proof fn lemma_cross_members(x: Form, y: Form, xs: Seq<Form>, ys: Seq<Form>)
    requires
        rise(xs) <= x.depth(),
        rise(ys) <= y.depth(),
    ensures
        forall|k: int|
            0 <= k < cross(x, y, xs, ys).len() ==> is_term(
                x,
                y,
                xs,
                ys,
                #[trigger] cross(x, y, xs, ys)[k],
            ),
        forall|i: int, j: int|
            0 <= i < xs.len() && 0 <= j < ys.len() ==> member(
                #[trigger] term(x, y, xs[i], ys[j]),
                cross(x, y, xs, ys),
            ),
    decreases xs.len(),
{
    let c = cross(x, y, xs, ys);
    if xs.len() > 0 {
        let ts = xs.drop_last();
        let last = xs.last();
        lemma_rise_bounds(xs, xs.len() - 1);
        lemma_rise_drop_last(xs);
        lemma_cross_members(x, y, ts, ys);
        let before = cross(x, y, ts, ys);
        let r = row(x, y, last, ys);
        assert(c == before + r);
        assert(r.len() == ys.len());
        assert forall|j: int| 0 <= j < ys.len() implies #[trigger] r[j] == term(
            x,
            y,
            last,
            ys[j],
        ) by {
            lemma_rise_bounds(ys, j);
        }
        assert forall|k: int| 0 <= k < c.len() implies is_term(x, y, xs, ys, #[trigger] c[k]) by {
            if k < before.len() {
                assert(c[k] == before[k]);
                assert(is_term(x, y, ts, ys, before[k]));
                let (i, j) = choose|i: int, j: int|
                    0 <= i < ts.len() && 0 <= j < ys.len() && before[k] == #[trigger] term(
                        x,
                        y,
                        ts[i],
                        ys[j],
                    );
                assert(ts[i] == xs[i]);
                lemma_rise_bounds(xs, i);
                lemma_rise_bounds(ys, j);
                assert(c[k] == term(x, y, xs[i], ys[j]));
            } else {
                let j = k - before.len();
                assert(c[k] == r[j]);
                lemma_rise_bounds(ys, j);
                assert(c[k] == term(x, y, xs[xs.len() - 1], ys[j]));
            }
        }
        assert forall|i: int, j: int| 0 <= i < xs.len() && 0 <= j < ys.len() implies member(
            #[trigger] term(x, y, xs[i], ys[j]),
            c,
        ) by {
            lemma_rise_bounds(xs, i);
            lemma_rise_bounds(ys, j);
            if i < ts.len() {
                assert(ts[i] == xs[i]);
                assert(member(term(x, y, ts[i], ys[j]), before));
                let k = choose|k: int|
                    0 <= k < before.len() && #[trigger] before[k] == term(x, y, ts[i], ys[j]);
                assert(c[k] == before[k]);
            } else {
                assert(c[before.len() + j] == r[j]);
            }
        }
    }
}

/// Every left option of a product is the term of two left options or
/// of two right options of its factors, and every such term is a left
/// option; every right option is the term of a left and a right option,
/// and every such term is a right option.
pub proof fn lemma_product_options(x: Form, y: Form)
    ensures
        forall|k: int|
            0 <= k < x.times(y).left.len() ==> is_term(
                x,
                y,
                x.left,
                y.left,
                #[trigger] x.times(y).left[k],
            ) || is_term(x, y, x.right, y.right, x.times(y).left[k]),
        forall|k: int|
            0 <= k < x.times(y).right.len() ==> is_term(
                x,
                y,
                x.left,
                y.right,
                #[trigger] x.times(y).right[k],
            ) || is_term(x, y, x.right, y.left, x.times(y).right[k]),
        forall|i: int, j: int|
            0 <= i < x.left.len() && 0 <= j < y.left.len() ==> member(
                #[trigger] term(x, y, x.left[i], y.left[j]),
                x.times(y).left,
            ),
        forall|i: int, j: int|
            0 <= i < x.right.len() && 0 <= j < y.right.len() ==> member(
                #[trigger] term(x, y, x.right[i], y.right[j]),
                x.times(y).left,
            ),
        forall|i: int, j: int|
            0 <= i < x.left.len() && 0 <= j < y.right.len() ==> member(
                #[trigger] term(x, y, x.left[i], y.right[j]),
                x.times(y).right,
            ),
        forall|i: int, j: int|
            0 <= i < x.right.len() && 0 <= j < y.left.len() ==> member(
                #[trigger] term(x, y, x.right[i], y.left[j]),
                x.times(y).right,
            ),
{
    let p = x.times(y);
    let ll = cross(x, y, x.left, y.left);
    let rr = cross(x, y, x.right, y.right);
    let lr = cross(x, y, x.left, y.right);
    let rl = cross(x, y, x.right, y.left);
    lemma_cross_members(x, y, x.left, y.left);
    lemma_cross_members(x, y, x.right, y.right);
    lemma_cross_members(x, y, x.left, y.right);
    lemma_cross_members(x, y, x.right, y.left);
    assert forall|k: int| 0 <= k < p.left.len() implies is_term(
        x,
        y,
        x.left,
        y.left,
        #[trigger] p.left[k],
    ) || is_term(x, y, x.right, y.right, p.left[k]) by {
        if k < ll.len() {
            assert(p.left[k] == ll[k]);
        } else {
            assert(p.left[k] == rr[k - ll.len()]);
        }
    }
    assert forall|k: int| 0 <= k < p.right.len() implies is_term(
        x,
        y,
        x.left,
        y.right,
        #[trigger] p.right[k],
    ) || is_term(x, y, x.right, y.left, p.right[k]) by {
        if k < lr.len() {
            assert(p.right[k] == lr[k]);
        } else {
            assert(p.right[k] == rl[k - lr.len()]);
        }
    }
    assert forall|i: int, j: int|
        0 <= i < x.left.len() && 0 <= j < y.left.len() implies member(
        #[trigger] term(x, y, x.left[i], y.left[j]),
        p.left,
    ) by {
        let f = term(x, y, x.left[i], y.left[j]);
        assert(member(f, ll));
        let k = choose|k: int| 0 <= k < ll.len() && #[trigger] ll[k] == f;
        assert(p.left[k] == f);
    }
    assert forall|i: int, j: int|
        0 <= i < x.right.len() && 0 <= j < y.right.len() implies member(
        #[trigger] term(x, y, x.right[i], y.right[j]),
        p.left,
    ) by {
        let f = term(x, y, x.right[i], y.right[j]);
        assert(member(f, rr));
        let k = choose|k: int| 0 <= k < rr.len() && #[trigger] rr[k] == f;
        assert(p.left[ll.len() + k] == f);
    }
    assert forall|i: int, j: int|
        0 <= i < x.left.len() && 0 <= j < y.right.len() implies member(
        #[trigger] term(x, y, x.left[i], y.right[j]),
        p.right,
    ) by {
        let f = term(x, y, x.left[i], y.right[j]);
        assert(member(f, lr));
        let k = choose|k: int| 0 <= k < lr.len() && #[trigger] lr[k] == f;
        assert(p.right[k] == f);
    }
    assert forall|i: int, j: int|
        0 <= i < x.right.len() && 0 <= j < y.left.len() implies member(
        #[trigger] term(x, y, x.right[i], y.left[j]),
        p.right,
    ) by {
        let f = term(x, y, x.right[i], y.left[j]);
        assert(member(f, rl));
        let k = choose|k: int| 0 <= k < rl.len() && #[trigger] rl[k] == f;
        assert(p.right[lr.len() + k] == f);
    }
}

/// The terms of two options taken in either order of the factors are
/// equivalent.
pub proof fn lemma_term_commutes(x: Form, y: Form, a: Form, b: Form)
    requires
        a.depth() < x.depth(),
        b.depth() < y.depth(),
    ensures
        term(x, y, a, b).equiv(term(y, x, b, a)),
    decreases x.depth() + y.depth(), 0nat,
{
    lemma_times_commutes(a, y);
    lemma_times_commutes(x, b);
    lemma_times_commutes(a, b);
    let ay = a.times(y);
    let xb = x.times(b);
    let ab = a.times(b);
    let ya = y.times(a);
    let bx = b.times(x);
    let ba = b.times(a);
    lemma_plus_congruent(ay, xb, ya, bx);
    lemma_plus_commutes(ya, bx);
    lemma_equiv_transitive(ay.plus(xb), ya.plus(bx), bx.plus(ya));
    lemma_negate_congruent(ab, ba);
    lemma_plus_congruent(ay.plus(xb), ab.negate(), bx.plus(ya), ba.negate());
}

/// Multiplication commutes up to equivalence.
pub proof fn lemma_times_commutes(x: Form, y: Form)
    ensures
        x.times(y).equiv(y.times(x)),
    decreases x.depth() + y.depth(), 2nat,
{
    lemma_times_commutes_le(x, y);
    lemma_times_commutes_le(y, x);
}

/// One half of commutativity: `x * y <= y * x`.
pub proof fn lemma_times_commutes_le(x: Form, y: Form)
    ensures
        x.times(y).le(y.times(x)),
    decreases x.depth() + y.depth(), 1nat,
{
    let p = x.times(y);
    let q = y.times(x);
    lemma_option_depth(x);
    lemma_option_depth(y);
    lemma_product_options(x, y);
    lemma_product_options(y, x);
    assert forall|k: int| 0 <= k < p.left.len() implies below_some(#[trigger] p.left[k], q.left) by {
        let f = p.left[k];
        if is_term(x, y, x.left, y.left, f) {
            let (i, j) = choose|i: int, j: int|
                0 <= i < x.left.len() && 0 <= j < y.left.len() && f == #[trigger] term(
                    x,
                    y,
                    x.left[i],
                    y.left[j],
                );
            lemma_term_commutes(x, y, x.left[i], y.left[j]);
            let g = term(y, x, y.left[j], x.left[i]);
            assert(member(g, q.left));
            let m = choose|m: int| 0 <= m < q.left.len() && #[trigger] q.left[m] == g;
            assert(f.le(q.left[m]));
        } else {
            let (i, j) = choose|i: int, j: int|
                0 <= i < x.right.len() && 0 <= j < y.right.len() && f == #[trigger] term(
                    x,
                    y,
                    x.right[i],
                    y.right[j],
                );
            lemma_term_commutes(x, y, x.right[i], y.right[j]);
            let g = term(y, x, y.right[j], x.right[i]);
            assert(member(g, q.left));
            let m = choose|m: int| 0 <= m < q.left.len() && #[trigger] q.left[m] == g;
            assert(f.le(q.left[m]));
        }
    }
    assert forall|k: int| 0 <= k < q.right.len() implies above_some(
        #[trigger] q.right[k],
        p.right,
    ) by {
        let g = q.right[k];
        if is_term(y, x, y.left, x.right, g) {
            let (j, i) = choose|j: int, i: int|
                0 <= j < y.left.len() && 0 <= i < x.right.len() && g == #[trigger] term(
                    y,
                    x,
                    y.left[j],
                    x.right[i],
                );
            lemma_term_commutes(x, y, x.right[i], y.left[j]);
            let f = term(x, y, x.right[i], y.left[j]);
            assert(member(f, p.right));
            let m = choose|m: int| 0 <= m < p.right.len() && #[trigger] p.right[m] == f;
            assert(p.right[m].le(g));
        } else {
            let (j, i) = choose|j: int, i: int|
                0 <= j < y.right.len() && 0 <= i < x.left.len() && g == #[trigger] term(
                    y,
                    x,
                    y.right[j],
                    x.left[i],
                );
            lemma_term_commutes(x, y, x.left[i], y.right[j]);
            let f = term(x, y, x.left[i], y.right[j]);
            assert(member(f, p.right));
            let m = choose|m: int| 0 <= m < p.right.len() && #[trigger] p.right[m] == f;
            assert(p.right[m].le(g));
        }
    }
    lemma_dominated(p, q);
}

} // verus!
