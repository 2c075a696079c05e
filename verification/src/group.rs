//! The ordered group of forms: addition respects equivalence and order,
//! is associative up to equivalence, and inequalities between sums can
//! be added, cancelled and rearranged. Every law here holds of every
//! form.

use crate::form::{lemma_option_depth, Form};
use crate::laws::{
    lemma_negate_reverses, lemma_plus_commutes, lemma_plus_monotone, lemma_plus_monotone_right,
    lemma_plus_negate, lemma_plus_zero,
};
use crate::order::{lemma_le_reflexive, lemma_le_transitive, lemma_options_apart};
use vstd::prelude::*;

verus! {

/// Equivalence is transitive.
pub proof fn lemma_equiv_transitive(a: Form, b: Form, c: Form)
    requires
        a.equiv(b),
        b.equiv(c),
    ensures
        a.equiv(c),
{
    lemma_le_transitive(a, b, c);
    lemma_le_transitive(c, b, a);
}

/// The order does not tell equivalent forms apart.
pub proof fn lemma_le_respects(a: Form, b: Form, c: Form, d: Form)
    requires
        a.equiv(c),
        b.equiv(d),
    ensures
        a.le(b) == c.le(d),
{
    if a.le(b) {
        lemma_le_transitive(c, a, b);
        lemma_le_transitive(c, b, d);
    }
    if c.le(d) {
        lemma_le_transitive(a, c, d);
        lemma_le_transitive(a, d, b);
    }
}

/// `f` is at most some member of `s`.
pub open spec fn below_some(f: Form, s: Seq<Form>) -> bool {
    exists|j: int| 0 <= j < s.len() && f.le(#[trigger] s[j])
}

/// `f` is at least some member of `s`.
pub open spec fn above_some(f: Form, s: Seq<Form>) -> bool {
    exists|i: int| 0 <= i < s.len() && (#[trigger] s[i]).le(f)
}

/// A form whose left options are each at most some left option of
/// `y`, while each right option of `y` is at least some right option of
/// the form, is at most `y`.
pub proof fn lemma_dominated(x: Form, y: Form)
    requires
        forall|i: int| 0 <= i < x.left.len() ==> below_some(#[trigger] x.left[i], y.left),
        forall|j: int| 0 <= j < y.right.len() ==> above_some(#[trigger] y.right[j], x.right),
    ensures
        x.le(y),
{
    lemma_options_apart(x);
    lemma_options_apart(y);
    assert forall|i: int| 0 <= i < x.left.len() implies !y.le(#[trigger] x.left[i]) by {
        assert(below_some(x.left[i], y.left));
        let j = choose|j: int| 0 <= j < y.left.len() && x.left[i].le(#[trigger] y.left[j]);
        if y.le(x.left[i]) {
            lemma_le_transitive(y, x.left[i], y.left[j]);
        }
    }
    assert forall|j: int| 0 <= j < y.right.len() implies !(#[trigger] y.right[j]).le(x) by {
        assert(above_some(y.right[j], x.right));
        let i = choose|i: int| 0 <= i < x.right.len() && (#[trigger] x.right[i]).le(y.right[j]);
        if y.right[j].le(x) {
            lemma_le_transitive(x.right[i], y.right[j], x);
        }
    }
}

/// A form whose options are, place by place, at most those of `y` is
/// at most `y`.
pub proof fn lemma_optionwise(x: Form, y: Form)
    requires
        x.left.len() == y.left.len(),
        x.right.len() == y.right.len(),
        forall|i: int| 0 <= i < x.left.len() ==> (#[trigger] x.left[i]).le(y.left[i]),
        forall|j: int| 0 <= j < x.right.len() ==> (#[trigger] x.right[j]).le(y.right[j]),
    ensures
        x.le(y),
{
    assert forall|i: int| 0 <= i < x.left.len() implies below_some(
        #[trigger] x.left[i],
        y.left,
    ) by {
        assert(x.left[i].le(y.left[i]));
    }
    assert forall|j: int| 0 <= j < y.right.len() implies above_some(
        #[trigger] y.right[j],
        x.right,
    ) by {
        assert(x.right[j].le(y.right[j]));
    }
    lemma_dominated(x, y);
}

/// Sums of equivalent forms are equivalent.
pub proof fn lemma_plus_congruent(a: Form, b: Form, c: Form, d: Form)
    requires
        a.equiv(c),
        b.equiv(d),
    ensures
        a.plus(b).equiv(c.plus(d)),
{
    lemma_plus_le(a, b, c, d);
    lemma_plus_le(c, d, a, b);
}

/// Inequalities add: from `a <= c` and `b <= d` follows
/// `a + b <= c + d`.
pub proof fn lemma_plus_le(a: Form, b: Form, c: Form, d: Form)
    requires
        a.le(c),
        b.le(d),
    ensures
        a.plus(b).le(c.plus(d)),
{
    lemma_plus_monotone_right(b, a, c);
    lemma_plus_monotone(c, b, d);
    lemma_le_transitive(a.plus(b), c.plus(b), c.plus(d));
}

/// Inequalities add strictly: from `a < c` and `b <= d` follows
/// `a + b < c + d`.
pub proof fn lemma_plus_lt(a: Form, b: Form, c: Form, d: Form)
    requires
        a.lt(c),
        b.le(d),
    ensures
        a.plus(b).lt(c.plus(d)),
{
    // were c + d <= a + b, then c + b <= c + d <= a + b, so c <= a
    if c.plus(d).le(a.plus(b)) {
        lemma_plus_monotone(c, b, d);
        lemma_le_transitive(c.plus(b), c.plus(d), a.plus(b));
        lemma_plus_monotone_right(b, c, a);
    }
}

/// Negatives of equivalent forms are equivalent.
pub proof fn lemma_negate_congruent(a: Form, b: Form)
    requires
        a.equiv(b),
    ensures
        a.negate().equiv(b.negate()),
{
    lemma_negate_reverses(a, b);
    lemma_negate_reverses(b, a);
}

/// Addition is associative up to equivalence.
pub proof fn lemma_plus_associates(a: Form, b: Form, c: Form)
    ensures
        a.plus(b).plus(c).equiv(a.plus(b.plus(c))),
    decreases a.depth() + b.depth() + c.depth(), 0nat,
{
    lemma_option_depth(a);
    lemma_option_depth(b);
    lemma_option_depth(c);
    let l = a.plus(b).plus(c);
    let r = a.plus(b.plus(c));
    let na = a.left.len() as int;
    let nb = b.left.len() as int;
    let nc = c.left.len() as int;
    let ma = a.right.len() as int;
    let mb = b.right.len() as int;
    let mc = c.right.len() as int;
    // left options of l: (aL + b) + c, (bL + a) + c, cL + (a + b)
    // left options of r: aL + (b + c), (bL + c) + a, (cL + b) + a
    assert forall|i: int| 0 <= i < l.left.len() implies (#[trigger] l.left[i]).equiv(
        r.left[i],
    ) by {
        if i < na {
            let o = a.left[i];
            assert(a.plus(b).left[i] == o.plus(b));
            assert(l.left[i] == o.plus(b).plus(c));
            assert(r.left[i] == o.plus(b.plus(c)));
            lemma_plus_associates(o, b, c);
        } else if i < na + nb {
            let o = b.left[i - na];
            assert(a.plus(b).left[i] == o.plus(a));
            assert(l.left[i] == o.plus(a).plus(c));
            assert(b.plus(c).left[i - na] == o.plus(c));
            assert(r.left[i] == o.plus(c).plus(a));
            lemma_shuffle(o, a, c);
        } else {
            let o = c.left[i - na - nb];
            assert(l.left[i] == o.plus(a.plus(b)));
            assert(b.plus(c).left[i - na] == o.plus(b));
            assert(r.left[i] == o.plus(b).plus(a));
            lemma_plus_commutes(a, b);
            lemma_le_reflexive(o);
            lemma_plus_congruent(o, a.plus(b), o, b.plus(a));
            lemma_plus_associates(o, b, a);
            lemma_equiv_transitive(o.plus(a.plus(b)), o.plus(b.plus(a)), o.plus(b).plus(a));
        }
    }
    assert forall|i: int| 0 <= i < l.right.len() implies (#[trigger] l.right[i]).equiv(
        r.right[i],
    ) by {
        if i < ma {
            let o = a.right[i];
            assert(a.plus(b).right[i] == o.plus(b));
            assert(l.right[i] == o.plus(b).plus(c));
            assert(r.right[i] == o.plus(b.plus(c)));
            lemma_plus_associates(o, b, c);
        } else if i < ma + mb {
            let o = b.right[i - ma];
            assert(a.plus(b).right[i] == o.plus(a));
            assert(l.right[i] == o.plus(a).plus(c));
            assert(b.plus(c).right[i - ma] == o.plus(c));
            assert(r.right[i] == o.plus(c).plus(a));
            lemma_shuffle(o, a, c);
        } else {
            let o = c.right[i - ma - mb];
            assert(l.right[i] == o.plus(a.plus(b)));
            assert(b.plus(c).right[i - ma] == o.plus(b));
            assert(r.right[i] == o.plus(b).plus(a));
            lemma_plus_commutes(a, b);
            lemma_le_reflexive(o);
            lemma_plus_congruent(o, a.plus(b), o, b.plus(a));
            lemma_plus_associates(o, b, a);
            lemma_equiv_transitive(o.plus(a.plus(b)), o.plus(b.plus(a)), o.plus(b).plus(a));
        }
    }
    assert(l.left.len() == r.left.len());
    assert(l.right.len() == r.right.len());
    lemma_optionwise(l, r);
    lemma_optionwise(r, l);
}

/// The last two of three summands may change places:
/// `(o + a) + c` is equivalent to `(o + c) + a`.
pub proof fn lemma_shuffle(o: Form, a: Form, c: Form)
    ensures
        o.plus(a).plus(c).equiv(o.plus(c).plus(a)),
    decreases o.depth() + a.depth() + c.depth(), 1nat,
{
    lemma_plus_associates(o, a, c);
    lemma_plus_associates(o, c, a);
    lemma_plus_commutes(a, c);
    lemma_le_reflexive(o);
    lemma_plus_congruent(o, a.plus(c), o, c.plus(a));
    lemma_equiv_transitive(o.plus(a).plus(c), o.plus(a.plus(c)), o.plus(c.plus(a)));
    lemma_equiv_transitive(o.plus(a).plus(c), o.plus(c.plus(a)), o.plus(c).plus(a));
}

/// The inner summands of two sums may change places:
/// `(a + b) + (c + d)` is equivalent to `(a + c) + (b + d)`.
pub proof fn lemma_interchange(a: Form, b: Form, c: Form, d: Form)
    ensures
        a.plus(b).plus(c.plus(d)).equiv(a.plus(c).plus(b.plus(d))),
{
    // (a + b) + (c + d) = a + (b + (c + d)) = a + (c + (b + d)) = (a + c) + (b + d)
    lemma_plus_associates(a, b, c.plus(d));
    lemma_plus_associates(b, c, d);
    lemma_plus_associates(c, b, d);
    lemma_plus_commutes(b, c);
    lemma_le_reflexive(d);
    lemma_plus_congruent(b.plus(c), d, c.plus(b), d);
    lemma_equiv_transitive(b.plus(c.plus(d)), b.plus(c).plus(d), c.plus(b).plus(d));
    lemma_equiv_transitive(b.plus(c.plus(d)), c.plus(b).plus(d), c.plus(b.plus(d)));
    lemma_le_reflexive(a);
    lemma_plus_congruent(a, b.plus(c.plus(d)), a, c.plus(b.plus(d)));
    lemma_plus_associates(a, c, b.plus(d));
    lemma_equiv_transitive(
        a.plus(b).plus(c.plus(d)),
        a.plus(b.plus(c.plus(d))),
        a.plus(c.plus(b.plus(d))),
    );
    lemma_equiv_transitive(
        a.plus(b).plus(c.plus(d)),
        a.plus(c.plus(b.plus(d))),
        a.plus(c).plus(b.plus(d)),
    );
}

/// Taking away and adding the same form changes nothing:
/// `(x - r) + r` is equivalent to `x`.
pub proof fn lemma_minus_plus(x: Form, r: Form)
    ensures
        x.minus(r).plus(r).equiv(x),
        x.plus(r).minus(r).equiv(x),
{
    let n = r.negate();
    lemma_plus_associates(x, n, r);
    lemma_plus_associates(x, r, n);
    lemma_plus_negate(r);
    lemma_le_reflexive(x);
    lemma_plus_congruent(x, n.plus(r), x, Form::zero());
    lemma_plus_congruent(x, r.plus(n), x, Form::zero());
    lemma_plus_zero(x);
    lemma_equiv_transitive(x.plus(n).plus(r), x.plus(n.plus(r)), x);
    lemma_equiv_transitive(x.plus(r).plus(n), x.plus(r.plus(n)), x);
}

/// A subtrahend moves to the other side: `p - r <= s` exactly when
/// `p <= s + r`, and `s <= p - r` exactly when `s + r <= p`.
pub proof fn lemma_minus_moves(p: Form, r: Form, s: Form)
    ensures
        p.minus(r).le(s) == p.le(s.plus(r)),
        s.le(p.minus(r)) == s.plus(r).le(p),
{
    lemma_minus_plus(p, r);
    lemma_plus_monotone_right(r, p.minus(r), s);
    lemma_plus_monotone_right(r, s, p.minus(r));
    let sr = s.plus(r);
    lemma_le_reflexive(sr);
    lemma_le_respects(p.minus(r).plus(r), sr, p, sr);
    lemma_le_respects(sr, p.minus(r).plus(r), sr, p);
}

/// Two differences compare as the sums across:
/// `p - r <= q - u` exactly when `p + u <= q + r`.
pub proof fn lemma_minus_le(p: Form, r: Form, q: Form, u: Form)
    ensures
        p.minus(r).le(q.minus(u)) == p.plus(u).le(q.plus(r)),
{
    // p - r <= q - u  iff  p <= (q - u) + r  iff  p <= (q + r) - u  iff  p + u <= q + r
    lemma_minus_moves(p, r, q.minus(u));
    lemma_shuffle(q, u.negate(), r);
    lemma_le_reflexive(p);
    lemma_le_respects(p, q.minus(u).plus(r), p, q.plus(r).minus(u));
    lemma_minus_moves(q.plus(r), u, p);
}

/// A common middle summand cancels: `(p + q) + r <= (s + q) + t`
/// exactly when `p + r <= s + t`.
pub proof fn lemma_cancel_middle(p: Form, q: Form, r: Form, s: Form, t: Form)
    ensures
        p.plus(q).plus(r).le(s.plus(q).plus(t)) == p.plus(r).le(s.plus(t)),
{
    lemma_shuffle(p, q, r);
    lemma_shuffle(s, q, t);
    lemma_le_respects(
        p.plus(q).plus(r),
        s.plus(q).plus(t),
        p.plus(r).plus(q),
        s.plus(t).plus(q),
    );
    lemma_plus_monotone_right(q, p.plus(r), s.plus(t));
}

/// A common first summand cancels: `(q + p) + r <= (q + s) + t`
/// exactly when `p + r <= s + t`.
pub proof fn lemma_cancel_first(q: Form, p: Form, r: Form, s: Form, t: Form)
    ensures
        q.plus(p).plus(r).le(q.plus(s).plus(t)) == p.plus(r).le(s.plus(t)),
{
    lemma_plus_associates(q, p, r);
    lemma_plus_associates(q, s, t);
    lemma_le_respects(
        q.plus(p).plus(r),
        q.plus(s).plus(t),
        q.plus(p.plus(r)),
        q.plus(s.plus(t)),
    );
    lemma_plus_monotone(q, p.plus(r), s.plus(t));
}

/// Two inequalities chain over what they share: from
/// `a + b <= c + d` and `d + e <= b + f` follows `a + e <= c + f`, and
/// strictly so where one of the two is strict.
pub proof fn lemma_chain(a: Form, b: Form, c: Form, d: Form, e: Form, f: Form)
    ensures
        a.plus(b).le(c.plus(d)) && d.plus(e).le(b.plus(f)) ==> a.plus(e).le(c.plus(f)),
        a.plus(b).lt(c.plus(d)) && d.plus(e).le(b.plus(f)) ==> a.plus(e).lt(c.plus(f)),
        a.plus(b).le(c.plus(d)) && d.plus(e).lt(b.plus(f)) ==> a.plus(e).lt(c.plus(f)),
{
    let l1 = a.plus(b);
    let r1 = c.plus(d);
    let l2 = d.plus(e);
    let r2 = b.plus(f);
    let m = b.plus(d);
    let lhs = a.plus(e).plus(m);
    let rhs = c.plus(f).plus(m);
    // l1 + l2 = (a + e) + (b + d)
    lemma_plus_commutes(d, e);
    lemma_le_reflexive(l1);
    lemma_plus_congruent(l1, l2, l1, e.plus(d));
    lemma_interchange(a, b, e, d);
    lemma_equiv_transitive(l1.plus(l2), l1.plus(e.plus(d)), lhs);
    // r1 + r2 = (c + f) + (b + d)
    lemma_plus_commutes(b, f);
    lemma_le_reflexive(r1);
    lemma_plus_congruent(r1, r2, r1, f.plus(b));
    lemma_interchange(c, d, f, b);
    lemma_plus_commutes(d, b);
    lemma_le_reflexive(c.plus(f));
    lemma_plus_congruent(c.plus(f), d.plus(b), c.plus(f), m);
    lemma_equiv_transitive(r1.plus(r2), r1.plus(f.plus(b)), c.plus(f).plus(d.plus(b)));
    lemma_equiv_transitive(r1.plus(r2), c.plus(f).plus(d.plus(b)), rhs);
    lemma_le_respects(l1.plus(l2), r1.plus(r2), lhs, rhs);
    lemma_le_respects(r1.plus(r2), l1.plus(l2), rhs, lhs);
    lemma_plus_monotone_right(m, a.plus(e), c.plus(f));
    lemma_plus_monotone_right(m, c.plus(f), a.plus(e));
    if l1.le(r1) && l2.le(r2) {
        lemma_plus_le(l1, l2, r1, r2);
    }
    if l1.lt(r1) && l2.le(r2) {
        lemma_plus_lt(l1, l2, r1, r2);
    }
    if l1.le(r1) && l2.lt(r2) {
        lemma_plus_lt(l2, l1, r2, r1);
        lemma_plus_commutes(l1, l2);
        lemma_plus_commutes(r1, r2);
        lemma_le_respects(r2.plus(r1), l2.plus(l1), r1.plus(r2), l1.plus(l2));
    }
}

} // verus!
