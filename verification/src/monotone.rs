//! Multiplication and the order. For numbers `x1 <= x2` and `y1 <= y2`
//! the products obey `x1 * y2 + x2 * y1 <= x1 * y1 + x2 * y2`, strictly
//! where both pairs differ; hence the product of numbers is a number,
//! equivalent factors give equivalent products, and the sign of a
//! product is the product of the signs.

use crate::form::{lemma_option_depth, Form};
use crate::laws::{lemma_negate_number, lemma_plus_number, lemma_plus_zero, lemma_times_zero};
use crate::order::{lemma_le_total, lemma_le_transitive, lemma_options_apart};
use crate::ring::{is_term, lemma_product_options, member};
use crate::group::{
    lemma_cancel_first, lemma_cancel_middle, lemma_chain, lemma_equiv_transitive,
    lemma_le_respects, lemma_minus_le, lemma_minus_moves, lemma_plus_congruent,
};
use crate::laws::lemma_plus_commutes;
use crate::order::lemma_le_reflexive;
use crate::product::term;
use crate::ring::lemma_times_commutes;
use vstd::prelude::*;

verus! {

/// `x1 * y2 + x2 * y1`.
pub open spec fn cross_sum(x1: Form, x2: Form, y1: Form, y2: Form) -> Form {
    x1.times(y2).plus(x2.times(y1))
}

/// `x1 * y1 + x2 * y2`.
pub open spec fn straight_sum(x1: Form, x2: Form, y1: Form, y2: Form) -> Form {
    x1.times(y1).plus(x2.times(y2))
}

/// `x1 * y2 + x2 * y1 < x1 * y1 + x2 * y2`: in a field this says that
/// `(x2 - x1) * (y2 - y1)` is positive.
pub open spec fn gain(x1: Form, x2: Form, y1: Form, y2: Form) -> bool {
    cross_sum(x1, x2, y1, y2).lt(straight_sum(x1, x2, y1, y2))
}

/// `x1 * y2 + x2 * y1 <= x1 * y1 + x2 * y2`: in a field this says that
/// `(x2 - x1) * (y2 - y1)` is not negative.
pub open spec fn no_loss(x1: Form, x2: Form, y1: Form, y2: Form) -> bool {
    cross_sum(x1, x2, y1, y2).le(straight_sum(x1, x2, y1, y2))
}

/// The two sums do not change, up to equivalence, where the pairs
/// change roles, and they change places where one pair is turned round.
pub proof fn lemma_sums_turn(x1: Form, x2: Form, y1: Form, y2: Form)
    ensures
        cross_sum(x1, x2, y1, y2).equiv(cross_sum(y1, y2, x1, x2)),
        straight_sum(x1, x2, y1, y2).equiv(straight_sum(y1, y2, x1, x2)),
        cross_sum(x1, x2, y1, y2).equiv(straight_sum(x2, x1, y1, y2)),
        straight_sum(x1, x2, y1, y2).equiv(cross_sum(x2, x1, y1, y2)),
        cross_sum(x1, x2, y1, y2) == straight_sum(x1, x2, y2, y1),
        straight_sum(x1, x2, y1, y2) == cross_sum(x1, x2, y2, y1),
{
    let a = x1.times(y2);
    let b = x2.times(y1);
    let c = x1.times(y1);
    let d = x2.times(y2);
    lemma_times_commutes(x1, y2);
    lemma_times_commutes(x2, y1);
    lemma_times_commutes(x1, y1);
    lemma_times_commutes(x2, y2);
    // cross_sum(y1, y2, x1, x2) = y1 * x2 + y2 * x1
    lemma_plus_congruent(a, b, y2.times(x1), y1.times(x2));
    lemma_plus_commutes(y2.times(x1), y1.times(x2));
    lemma_equiv_transitive(
        a.plus(b),
        y2.times(x1).plus(y1.times(x2)),
        y1.times(x2).plus(y2.times(x1)),
    );
    // straight_sum(y1, y2, x1, x2) = y1 * x1 + y2 * x2
    lemma_plus_congruent(c, d, y1.times(x1), y2.times(x2));
    // straight_sum(x2, x1, y1, y2) = x2 * y1 + x1 * y2
    lemma_plus_commutes(a, b);
    // cross_sum(x2, x1, y1, y2) = x2 * y2 + x1 * y1
    lemma_plus_commutes(c, d);
}

/// A gain is the failure of no loss with one pair turned round, and
/// gain and no loss do not change where the pairs change roles.
pub proof fn lemma_gain_turns(x1: Form, x2: Form, y1: Form, y2: Form)
    ensures
        gain(x1, x2, y1, y2) == !no_loss(x2, x1, y1, y2),
        gain(x1, x2, y1, y2) == !no_loss(x1, x2, y2, y1),
        gain(x1, x2, y1, y2) == gain(y1, y2, x1, x2),
        no_loss(x1, x2, y1, y2) == no_loss(y1, y2, x1, x2),
        gain(x1, x2, y1, y2) == gain(x2, x1, y2, y1),
        no_loss(x1, x2, y1, y2) == no_loss(x2, x1, y2, y1),
{
    lemma_sums_turn(x1, x2, y1, y2);
    lemma_sums_turn(x2, x1, y2, y1);
    let w = cross_sum(x1, x2, y1, y2);
    let v = straight_sum(x1, x2, y1, y2);
    lemma_le_respects(v, w, cross_sum(x2, x1, y1, y2), straight_sum(x2, x1, y1, y2));
    lemma_le_respects(v, w, straight_sum(y1, y2, x1, x2), cross_sum(y1, y2, x1, x2));
    lemma_le_respects(w, v, cross_sum(y1, y2, x1, x2), straight_sum(y1, y2, x1, x2));
    // turning both pairs round: w = x1 * y2 + x2 * y1, and cross_sum(x2, x1, y2, y1)
    // = x2 * y1 + x1 * y2
    lemma_plus_commutes(x1.times(y2), x2.times(y1));
    lemma_plus_commutes(x1.times(y1), x2.times(y2));
    lemma_le_respects(w, v, cross_sum(x2, x1, y2, y1), straight_sum(x2, x1, y2, y1));
    lemma_le_respects(v, w, straight_sum(x2, x1, y2, y1), cross_sum(x2, x1, y2, y1));
}

/// Gains chain in the first pair: from no loss between `x1` and `x2`
/// and between `x2` and `x3` follows no loss between `x1` and `x3`,
/// and a gain where one of the two is a gain.
pub proof fn lemma_chain_first(x1: Form, x2: Form, x3: Form, y1: Form, y2: Form)
    ensures
        no_loss(x1, x2, y1, y2) && no_loss(x2, x3, y1, y2) ==> no_loss(x1, x3, y1, y2),
        gain(x1, x2, y1, y2) && no_loss(x2, x3, y1, y2) ==> gain(x1, x3, y1, y2),
        no_loss(x1, x2, y1, y2) && gain(x2, x3, y1, y2) ==> gain(x1, x3, y1, y2),
{
    lemma_chain(
        x1.times(y2),
        x2.times(y1),
        x1.times(y1),
        x2.times(y2),
        x3.times(y1),
        x3.times(y2),
    );
}

/// Gains chain in the second pair likewise.
pub proof fn lemma_chain_second(x1: Form, x2: Form, y1: Form, y2: Form, y3: Form)
    ensures
        no_loss(x1, x2, y1, y2) && no_loss(x1, x2, y2, y3) ==> no_loss(x1, x2, y1, y3),
        gain(x1, x2, y1, y2) && no_loss(x1, x2, y2, y3) ==> gain(x1, x2, y1, y3),
        no_loss(x1, x2, y1, y2) && gain(x1, x2, y2, y3) ==> gain(x1, x2, y1, y3),
{
    lemma_gain_turns(x1, x2, y1, y2);
    lemma_gain_turns(x1, x2, y2, y3);
    lemma_gain_turns(x1, x2, y1, y3);
    lemma_chain_first(y1, y2, y3, x1, x2);
}

/// Where the options `a` of `x` and `b` of `y` give a term of `x * y`,
/// the term is at most the product exactly when there is no loss
/// between `a` and `x` over `b` and `y`, and at least the product
/// exactly when there is none over `y` and `b`.
pub proof fn lemma_term_and_product(x: Form, y: Form, a: Form, b: Form)
    requires
        a.depth() < x.depth(),
        b.depth() < y.depth(),
    ensures
        term(x, y, a, b).le(x.times(y)) == no_loss(a, x, b, y),
        x.times(y).le(term(x, y, a, b)) == no_loss(a, x, y, b),
{
    let p = a.times(y).plus(x.times(b));
    let r = a.times(b);
    let z = x.times(y);
    lemma_minus_moves(p, r, z);
    // p <= z + r, and straight_sum(a, x, b, y) = r + z
    lemma_plus_commutes(z, r);
    lemma_le_reflexive(p);
    lemma_le_respects(p, z.plus(r), p, r.plus(z));
    lemma_le_respects(z.plus(r), p, r.plus(z), p);
}

/// Two terms of `x * y` with the same option `b` of `y` compare as the
/// options `a` and `c` of `x` do over `b` and `y`.
pub proof fn lemma_terms_first(x: Form, y: Form, a: Form, c: Form, b: Form)
    requires
        a.depth() < x.depth(),
        c.depth() < x.depth(),
        b.depth() < y.depth(),
    ensures
        term(x, y, a, b).le(term(x, y, c, b)) == no_loss(a, c, b, y),
{
    let ay = a.times(y);
    let cy = c.times(y);
    let xb = x.times(b);
    let ab = a.times(b);
    let cb = c.times(b);
    lemma_minus_le(ay.plus(xb), ab, cy.plus(xb), cb);
    lemma_cancel_middle(ay, xb, cb, cy, ab);
    // ay + cb <= cy + ab, and straight_sum(a, c, b, y) = ab + cy
    lemma_plus_commutes(cy, ab);
    lemma_le_reflexive(ay.plus(cb));
    lemma_le_respects(ay.plus(cb), cy.plus(ab), ay.plus(cb), ab.plus(cy));
}

/// Two terms of `x * y` with the same option `a` of `x` compare as `a`
/// and `x` do over the options `b` and `d` of `y`.
pub proof fn lemma_terms_second(x: Form, y: Form, a: Form, b: Form, d: Form)
    requires
        a.depth() < x.depth(),
        b.depth() < y.depth(),
        d.depth() < y.depth(),
    ensures
        term(x, y, a, b).le(term(x, y, a, d)) == no_loss(a, x, b, d),
{
    let ay = a.times(y);
    let xb = x.times(b);
    let xd = x.times(d);
    let ab = a.times(b);
    let ad = a.times(d);
    lemma_minus_le(ay.plus(xb), ab, ay.plus(xd), ad);
    lemma_cancel_first(ay, xb, ad, xd, ab);
    // xb + ad <= xd + ab, and no_loss(a, x, b, d) is ad + xb <= ab + xd
    lemma_plus_commutes(xb, ad);
    lemma_plus_commutes(xd, ab);
    lemma_le_respects(xb.plus(ad), xd.plus(ab), ad.plus(xb), ab.plus(xd));
}

/// `3^n`.
pub open spec fn pow3(n: nat) -> nat
    decreases n,
{
    if n == 0 {
        1
    } else {
        3 * pow3((n - 1) as nat)
    }
}

/// The weight of a form in the induction over products: `3^depth`, so
/// that a form outweighs any two of its options together.
pub open spec fn weight(g: Form) -> nat {
    pow3(g.depth())
}

/// Powers of three grow: `3 * 3^a <= 3^b` for `a < b`, and none is 0.
pub proof fn lemma_pow3_grows(a: nat, b: nat)
    requires
        a < b,
    ensures
        3 * pow3(a) <= pow3(b),
        pow3(a) >= 1,
    decreases b,
{
    if a + 1 < b {
        lemma_pow3_grows(a, (b - 1) as nat);
    } else if a > 0 {
        lemma_pow3_grows((a - 1) as nat, a);
    }
}

/// A form weighs at least three times as much as any form less deep.
pub proof fn lemma_outweighs(g: Form, o: Form)
    requires
        o.depth() < g.depth(),
    ensures
        3 * weight(o) <= weight(g),
        weight(o) >= 1,
{
    lemma_pow3_grows(o.depth(), g.depth());
}

/// Every form weighs something.
pub proof fn lemma_weighs(g: Form)
    ensures
        weight(g) >= 1,
{
    lemma_pow3_grows(g.depth(), g.depth() + 1);
}

/// Between `x1` and `x2` there is a gain over each option of `y` and
/// `y` itself, taken in their order.
pub open spec fn grows(x1: Form, x2: Form, y: Form) -> bool {
    &&& forall|j: int| 0 <= j < y.left.len() ==> gain(x1, x2, #[trigger] y.left[j], y)
    &&& forall|j: int| 0 <= j < y.right.len() ==> gain(x1, x2, y, #[trigger] y.right[j])
}

/// Between `x1` and `x2` there is no loss over each option of `y` and
/// `y` itself, taken in their order.
pub open spec fn keeps(x1: Form, x2: Form, y: Form) -> bool {
    &&& forall|j: int| 0 <= j < y.left.len() ==> no_loss(x1, x2, #[trigger] y.left[j], y)
    &&& forall|j: int| 0 <= j < y.right.len() ==> no_loss(x1, x2, y, #[trigger] y.right[j])
}

/// For numbers `x1 < x2` and a number `y`, multiplying by `y` gains
/// over each option of `y`.
pub proof fn lemma_times_grows(x1: Form, x2: Form, y: Form)
    requires
        x1.is_number(),
        x2.is_number(),
        y.is_number(),
        x1.lt(x2),
    ensures
        grows(x1, x2, y),
    decreases weight(x1) + weight(x2) + weight(y), 0nat,
{
    lemma_option_depth(x1);
    lemma_option_depth(x2);
    lemma_option_depth(y);
    lemma_weighs(x1);
    lemma_weighs(x2);
    if exists|i: int| 0 <= i < x2.left.len() && x1.le(#[trigger] x2.left[i]) {
        let i = choose|i: int| 0 <= i < x2.left.len() && x1.le(#[trigger] x2.left[i]);
        let o = x2.left[i];
        lemma_outweighs(x2, o);
        lemma_times_keeps(x1, o, y);
        let z = x2.times(y);
        lemma_options_apart(z);
        lemma_product_options(x2, y);
        assert forall|j: int| 0 <= j < y.left.len() implies gain(
            x1,
            x2,
            #[trigger] y.left[j],
            y,
        ) by {
            let b = y.left[j];
            let t = term(x2, y, x2.left[i], y.left[j]);
            assert(member(t, z.left));
            let k = choose|k: int| 0 <= k < z.left.len() && #[trigger] z.left[k] == t;
            assert(!z.le(z.left[k]));
            lemma_term_and_product(x2, y, o, b);
            lemma_gain_turns(o, x2, b, y);
            lemma_chain_first(x1, o, x2, b, y);
        }
        assert forall|j: int| 0 <= j < y.right.len() implies gain(
            x1,
            x2,
            y,
            #[trigger] y.right[j],
        ) by {
            let d = y.right[j];
            let t = term(x2, y, x2.left[i], y.right[j]);
            assert(member(t, z.right));
            let k = choose|k: int| 0 <= k < z.right.len() && #[trigger] z.right[k] == t;
            assert(!z.right[k].le(z));
            lemma_term_and_product(x2, y, o, d);
            lemma_gain_turns(o, x2, y, d);
            lemma_chain_first(x1, o, x2, y, d);
        }
    } else {
        let i = choose|i: int| 0 <= i < x1.right.len() && (#[trigger] x1.right[i]).le(x2);
        let o = x1.right[i];
        lemma_outweighs(x1, o);
        lemma_times_keeps(o, x2, y);
        let z = x1.times(y);
        lemma_options_apart(z);
        lemma_product_options(x1, y);
        assert forall|j: int| 0 <= j < y.left.len() implies gain(
            x1,
            x2,
            #[trigger] y.left[j],
            y,
        ) by {
            let b = y.left[j];
            let t = term(x1, y, x1.right[i], y.left[j]);
            assert(member(t, z.right));
            let k = choose|k: int| 0 <= k < z.right.len() && #[trigger] z.right[k] == t;
            assert(!z.right[k].le(z));
            lemma_term_and_product(x1, y, o, b);
            lemma_gain_turns(x1, o, b, y);
            lemma_chain_first(x1, o, x2, b, y);
        }
        assert forall|j: int| 0 <= j < y.right.len() implies gain(
            x1,
            x2,
            y,
            #[trigger] y.right[j],
        ) by {
            let d = y.right[j];
            let t = term(x1, y, x1.right[i], y.right[j]);
            assert(member(t, z.left));
            let k = choose|k: int| 0 <= k < z.left.len() && #[trigger] z.left[k] == t;
            assert(!z.le(z.left[k]));
            lemma_term_and_product(x1, y, o, d);
            lemma_gain_turns(x1, o, y, d);
            lemma_chain_first(x1, o, x2, y, d);
        }
    }
}

/// For numbers `x1 <= x2` and a number `y`, multiplying by `y` loses
/// nothing over each option of `y`, and gains where `x1 < x2`.
pub proof fn lemma_times_keeps(x1: Form, x2: Form, y: Form)
    requires
        x1.is_number(),
        x2.is_number(),
        y.is_number(),
        x1.le(x2),
    ensures
        keeps(x1, x2, y),
        x1.lt(x2) ==> grows(x1, x2, y),
    decreases weight(x1) + weight(x2) + weight(y), 2nat,
{
    lemma_option_depth(y);
    lemma_weighs(x1);
    lemma_weighs(x2);
    lemma_weighs(y);
    if x1.lt(x2) {
        lemma_times_grows(x1, x2, y);
        lemma_product_number(x1, y);
        lemma_product_number(x2, y);
        assert forall|j: int| 0 <= j < y.left.len() implies no_loss(
            x1,
            x2,
            #[trigger] y.left[j],
            y,
        ) by {
            let b = y.left[j];
            lemma_outweighs(y, b);
            lemma_product_number(x1, b);
            lemma_product_number(x2, b);
            lemma_plus_number(x1.times(y), x2.times(b));
            lemma_plus_number(x1.times(b), x2.times(y));
            lemma_le_total(cross_sum(x1, x2, b, y), straight_sum(x1, x2, b, y));
        }
        assert forall|j: int| 0 <= j < y.right.len() implies no_loss(
            x1,
            x2,
            y,
            #[trigger] y.right[j],
        ) by {
            let d = y.right[j];
            lemma_outweighs(y, d);
            lemma_product_number(x1, d);
            lemma_product_number(x2, d);
            lemma_plus_number(x1.times(d), x2.times(y));
            lemma_plus_number(x1.times(y), x2.times(d));
            lemma_le_total(cross_sum(x1, x2, y, d), straight_sum(x1, x2, y, d));
        }
    } else {
        lemma_times_respects(x1, x2, y);
        let first_y = x1.times(y);
        let second_y = x2.times(y);
        assert forall|j: int| 0 <= j < y.left.len() implies no_loss(
            x1,
            x2,
            #[trigger] y.left[j],
            y,
        ) by {
            let b = y.left[j];
            lemma_outweighs(y, b);
            lemma_times_respects(x1, x2, b);
            let first_o = x1.times(b);
            let second_o = x2.times(b);
            // cross = first_y + second_o, straight = first_o + second_y
            lemma_plus_congruent(first_y, second_o, second_y, first_o);
            lemma_plus_commutes(second_y, first_o);
            lemma_equiv_transitive(first_y.plus(second_o), second_y.plus(first_o), first_o.plus(second_y));
        }
        assert forall|j: int| 0 <= j < y.right.len() implies no_loss(
            x1,
            x2,
            y,
            #[trigger] y.right[j],
        ) by {
            let d = y.right[j];
            lemma_outweighs(y, d);
            lemma_times_respects(x1, x2, d);
            let first_o = x1.times(d);
            let second_o = x2.times(d);
            // cross = first_o + second_y, straight = first_y + second_o
            lemma_plus_congruent(first_o, second_y, second_o, first_y);
            lemma_plus_commutes(second_o, first_y);
            lemma_equiv_transitive(first_o.plus(second_y), second_o.plus(first_y), first_y.plus(second_o));
        }
    }
}

/// Equivalent numbers give equivalent products with a number.
pub proof fn lemma_times_respects(x1: Form, x2: Form, y: Form)
    requires
        x1.is_number(),
        x2.is_number(),
        y.is_number(),
        x1.equiv(x2),
    ensures
        x1.times(y).equiv(x2.times(y)),
    decreases weight(x1) + weight(x2) + weight(y), 1nat,
{
    lemma_times_respects_le(x1, x2, y);
    lemma_times_respects_le(x2, x1, y);
}

/// One half of the foregoing: `x1 * y <= x2 * y` for equivalent
/// numbers `x1`, `x2`.
pub proof fn lemma_times_respects_le(x1: Form, x2: Form, y: Form)
    requires
        x1.is_number(),
        x2.is_number(),
        y.is_number(),
        x1.equiv(x2),
    ensures
        x1.times(y).le(x2.times(y)),
    decreases weight(x1) + weight(x2) + weight(y), 0nat,
{
    lemma_option_depth(x1);
    lemma_option_depth(x2);
    lemma_option_depth(y);
    lemma_weighs(x1);
    lemma_weighs(x2);
    lemma_options_apart(x1);
    lemma_options_apart(x2);
    let z1 = x1.times(y);
    let z2 = x2.times(y);
    lemma_product_options(x1, y);
    lemma_product_options(x2, y);
    assert forall|k: int| 0 <= k < z1.left.len() implies !z2.le(#[trigger] z1.left[k]) by {
        let f = z1.left[k];
        if is_term(x1, y, x1.left, y.left, f) {
            let (i, j) = choose|i: int, j: int|
                0 <= i < x1.left.len() && 0 <= j < y.left.len() && f == #[trigger] term(
                    x1,
                    y,
                    x1.left[i],
                    y.left[j],
                );
            let a = x1.left[i];
            let b = y.left[j];
            if x2.le(a) {
                lemma_le_transitive(x1, x2, a);
            }
            lemma_outweighs(x1, a);
            lemma_outweighs(y, b);
            lemma_times_grows(a, x2, y);
            lemma_times_respects(x1, x2, b);
            let p = a.times(y).plus(x1.times(b));
            let r = a.times(b);
            lemma_minus_moves(p, r, z2);
            // p is the cross sum up to equivalence, z2 + r the straight sum
            lemma_le_reflexive(a.times(y));
            lemma_plus_congruent(a.times(y), x1.times(b), a.times(y), x2.times(b));
            lemma_plus_commutes(z2, r);
            lemma_le_respects(
                z2.plus(r),
                p,
                straight_sum(a, x2, b, y),
                cross_sum(a, x2, b, y),
            );
        } else {
            let (i, j) = choose|i: int, j: int|
                0 <= i < x1.right.len() && 0 <= j < y.right.len() && f == #[trigger] term(
                    x1,
                    y,
                    x1.right[i],
                    y.right[j],
                );
            let a = x1.right[i];
            let b = y.right[j];
            if a.le(x2) {
                lemma_le_transitive(a, x2, x1);
            }
            lemma_outweighs(x1, a);
            lemma_outweighs(y, b);
            lemma_times_grows(x2, a, y);
            lemma_times_respects(x1, x2, b);
            let p = a.times(y).plus(x1.times(b));
            let r = a.times(b);
            lemma_minus_moves(p, r, z2);
            // cross_sum(x2, a, y, b) = x2 * b + a * y; straight = x2 * y + a * b
            lemma_le_reflexive(a.times(y));
            lemma_plus_congruent(a.times(y), x1.times(b), a.times(y), x2.times(b));
            lemma_plus_commutes(a.times(y), x2.times(b));
            lemma_equiv_transitive(
                p,
                a.times(y).plus(x2.times(b)),
                cross_sum(x2, a, y, b),
            );
            lemma_le_reflexive(z2.plus(r));
            lemma_le_respects(
                z2.plus(r),
                p,
                straight_sum(x2, a, y, b),
                cross_sum(x2, a, y, b),
            );
        }
    }
    assert forall|k: int| 0 <= k < z2.right.len() implies !(#[trigger] z2.right[k]).le(z1) by {
        let g = z2.right[k];
        if is_term(x2, y, x2.left, y.right, g) {
            let (i, j) = choose|i: int, j: int|
                0 <= i < x2.left.len() && 0 <= j < y.right.len() && g == #[trigger] term(
                    x2,
                    y,
                    x2.left[i],
                    y.right[j],
                );
            let a = x2.left[i];
            let b = y.right[j];
            if x1.le(a) {
                lemma_le_transitive(x2, x1, a);
            }
            lemma_outweighs(x2, a);
            lemma_outweighs(y, b);
            lemma_times_grows(a, x1, y);
            lemma_times_respects(x1, x2, b);
            let p = a.times(y).plus(x2.times(b));
            let r = a.times(b);
            lemma_minus_moves(p, r, z1);
            // cross_sum(a, x1, y, b) = a * b + x1 * y; straight = a * y + x1 * b
            lemma_le_reflexive(a.times(y));
            lemma_plus_congruent(a.times(y), x2.times(b), a.times(y), x1.times(b));
            lemma_plus_commutes(z1, r);
            lemma_le_respects(
                p,
                z1.plus(r),
                straight_sum(a, x1, y, b),
                cross_sum(a, x1, y, b),
            );
        } else {
            let (i, j) = choose|i: int, j: int|
                0 <= i < x2.right.len() && 0 <= j < y.left.len() && g == #[trigger] term(
                    x2,
                    y,
                    x2.right[i],
                    y.left[j],
                );
            let a = x2.right[i];
            let b = y.left[j];
            if a.le(x1) {
                lemma_le_transitive(a, x1, x2);
            }
            lemma_outweighs(x2, a);
            lemma_outweighs(y, b);
            lemma_times_grows(x1, a, y);
            lemma_times_respects(x1, x2, b);
            let p = a.times(y).plus(x2.times(b));
            let r = a.times(b);
            lemma_minus_moves(p, r, z1);
            // cross_sum(x1, a, b, y) = x1 * y + a * b; straight = x1 * b + a * y
            lemma_le_reflexive(a.times(y));
            lemma_plus_congruent(a.times(y), x2.times(b), a.times(y), x1.times(b));
            lemma_plus_commutes(a.times(y), x1.times(b));
            lemma_equiv_transitive(
                p,
                a.times(y).plus(x1.times(b)),
                straight_sum(x1, a, b, y),
            );
            lemma_le_reflexive(z1.plus(r));
            lemma_le_respects(
                p,
                z1.plus(r),
                straight_sum(x1, a, b, y),
                cross_sum(x1, a, b, y),
            );
        }
    }
}

/// The term of two options of numbers is a number.
pub proof fn lemma_term_number(x: Form, y: Form, a: Form, b: Form)
    requires
        x.is_number(),
        y.is_number(),
        a.is_number(),
        b.is_number(),
        a.depth() < x.depth(),
        b.depth() < y.depth(),
    ensures
        term(x, y, a, b).is_number(),
    decreases weight(x) + weight(y), 0nat,
{
    lemma_outweighs(x, a);
    lemma_outweighs(y, b);
    lemma_product_number(a, y);
    lemma_product_number(x, b);
    lemma_product_number(a, b);
    lemma_plus_number(a.times(y), x.times(b));
    lemma_negate_number(a.times(b));
    lemma_plus_number(a.times(y).plus(x.times(b)), a.times(b).negate());
}

/// In a product of numbers, the term of two left options lies below
/// the term of a left and a right option.
pub proof fn lemma_apart_ll_lr(x: Form, y: Form, ia: int, ib: int, ic: int, id: int)
    requires
        x.is_number(),
        y.is_number(),
        0 <= ia < x.left.len(),
        0 <= ib < y.left.len(),
        0 <= ic < x.left.len(),
        0 <= id < y.right.len(),
    ensures
        !term(x, y, x.left[ic], y.right[id]).le(term(x, y, x.left[ia], y.left[ib])),
    decreases weight(x) + weight(y), 0nat,
{
    let a = x.left[ia];
    let b = y.left[ib];
    let c = x.left[ic];
    let d = y.right[id];
    let l = term(x, y, a, b);
    let r = term(x, y, c, d);
    lemma_option_depth(x);
    lemma_option_depth(y);
    lemma_outweighs(x, a);
    lemma_outweighs(x, c);
    lemma_outweighs(y, b);
    lemma_outweighs(y, d);
    lemma_weighs(x);
    lemma_weighs(y);
    // b < d, so x gains over its left options between b and d
    lemma_times_grows(b, d, x);
    lemma_le_total(a, c);
    if a.le(c) {
        let m = term(x, y, c, b);
        lemma_times_keeps(a, c, y);
        lemma_terms_first(x, y, a, c, b);
        assert(l.le(m));
        assert(gain(b, d, x.left[ic], x));
        lemma_gain_turns(c, x, b, d);
        lemma_terms_second(x, y, c, d, b);
        assert(!r.le(m));
        if r.le(l) {
            lemma_le_transitive(r, l, m);
        }
    } else {
        let m = term(x, y, a, d);
        assert(gain(b, d, x.left[ia], x));
        lemma_gain_turns(a, x, b, d);
        lemma_terms_second(x, y, a, d, b);
        assert(!m.le(l));
        lemma_times_keeps(c, a, y);
        assert(no_loss(c, a, y, y.right[id]));
        lemma_gain_turns(c, a, y, d);
        lemma_terms_first(x, y, a, c, d);
        assert(m.le(r));
        if r.le(l) {
            lemma_le_transitive(m, r, l);
        }
    }
}

/// In a product of numbers, the term of two left options lies below
/// the term of a right and a left option.
pub proof fn lemma_apart_ll_rl(x: Form, y: Form, ia: int, ib: int, ic: int, id: int)
    requires
        x.is_number(),
        y.is_number(),
        0 <= ia < x.left.len(),
        0 <= ib < y.left.len(),
        0 <= ic < x.right.len(),
        0 <= id < y.left.len(),
    ensures
        !term(x, y, x.right[ic], y.left[id]).le(term(x, y, x.left[ia], y.left[ib])),
    decreases weight(x) + weight(y), 0nat,
{
    let a = x.left[ia];
    let b = y.left[ib];
    let c = x.right[ic];
    let d = y.left[id];
    let l = term(x, y, a, b);
    let r = term(x, y, c, d);
    lemma_option_depth(x);
    lemma_option_depth(y);
    lemma_outweighs(x, a);
    lemma_outweighs(x, c);
    lemma_outweighs(y, b);
    lemma_outweighs(y, d);
    lemma_weighs(x);
    lemma_weighs(y);
    // a < c, so y gains over its left options between a and c
    lemma_times_grows(a, c, y);
    lemma_le_total(b, d);
    if b.le(d) {
        let m = term(x, y, a, d);
        lemma_times_keeps(b, d, x);
        assert(no_loss(b, d, x.left[ia], x));
        lemma_gain_turns(a, x, b, d);
        lemma_terms_second(x, y, a, b, d);
        assert(l.le(m));
        assert(gain(a, c, y.left[id], y));
        lemma_gain_turns(a, c, d, y);
        lemma_terms_first(x, y, c, a, d);
        assert(!r.le(m));
        if r.le(l) {
            lemma_le_transitive(r, l, m);
        }
    } else {
        let m = term(x, y, c, b);
        assert(gain(a, c, y.left[ib], y));
        lemma_gain_turns(a, c, b, y);
        lemma_terms_first(x, y, c, a, b);
        assert(!m.le(l));
        lemma_times_keeps(d, b, x);
        assert(no_loss(d, b, x, x.right[ic]));
        lemma_gain_turns(d, b, x, c);
        lemma_gain_turns(x, c, d, b);
        lemma_terms_second(x, y, c, b, d);
        assert(m.le(r));
        if r.le(l) {
            lemma_le_transitive(m, r, l);
        }
    }
}

/// In a product of numbers, the term of two right options lies below
/// the term of a left and a right option.
pub proof fn lemma_apart_rr_lr(x: Form, y: Form, ia: int, ib: int, ic: int, id: int)
    requires
        x.is_number(),
        y.is_number(),
        0 <= ia < x.right.len(),
        0 <= ib < y.right.len(),
        0 <= ic < x.left.len(),
        0 <= id < y.right.len(),
    ensures
        !term(x, y, x.left[ic], y.right[id]).le(term(x, y, x.right[ia], y.right[ib])),
    decreases weight(x) + weight(y), 0nat,
{
    let a = x.right[ia];
    let b = y.right[ib];
    let c = x.left[ic];
    let d = y.right[id];
    let l = term(x, y, a, b);
    let r = term(x, y, c, d);
    lemma_option_depth(x);
    lemma_option_depth(y);
    lemma_outweighs(x, a);
    lemma_outweighs(x, c);
    lemma_outweighs(y, b);
    lemma_outweighs(y, d);
    lemma_weighs(x);
    lemma_weighs(y);
    // c < a, so y gains over its right options between c and a
    lemma_times_grows(c, a, y);
    lemma_le_total(b, d);
    if b.le(d) {
        let m = term(x, y, c, b);
        assert(gain(c, a, y, y.right[ib]));
        lemma_gain_turns(c, a, y, b);
        lemma_terms_first(x, y, c, a, b);
        assert(!m.le(l));
        lemma_times_keeps(b, d, x);
        assert(no_loss(b, d, x.left[ic], x));
        lemma_gain_turns(c, x, b, d);
        lemma_terms_second(x, y, c, b, d);
        assert(m.le(r));
        if r.le(l) {
            lemma_le_transitive(m, r, l);
        }
    } else {
        let m = term(x, y, a, d);
        lemma_times_keeps(d, b, x);
        assert(no_loss(d, b, x, x.right[ia]));
        lemma_gain_turns(d, b, x, a);
        lemma_gain_turns(x, a, d, b);
        lemma_terms_second(x, y, a, b, d);
        assert(l.le(m));
        assert(gain(c, a, y, y.right[id]));
        lemma_gain_turns(c, a, y, d);
        lemma_terms_first(x, y, c, a, d);
        assert(!r.le(m));
        if r.le(l) {
            lemma_le_transitive(r, l, m);
        }
    }
}

/// In a product of numbers, the term of two right options lies below
/// the term of a right and a left option.
pub proof fn lemma_apart_rr_rl(x: Form, y: Form, ia: int, ib: int, ic: int, id: int)
    requires
        x.is_number(),
        y.is_number(),
        0 <= ia < x.right.len(),
        0 <= ib < y.right.len(),
        0 <= ic < x.right.len(),
        0 <= id < y.left.len(),
    ensures
        !term(x, y, x.right[ic], y.left[id]).le(term(x, y, x.right[ia], y.right[ib])),
    decreases weight(x) + weight(y), 0nat,
{
    let a = x.right[ia];
    let b = y.right[ib];
    let c = x.right[ic];
    let d = y.left[id];
    let l = term(x, y, a, b);
    let r = term(x, y, c, d);
    lemma_option_depth(x);
    lemma_option_depth(y);
    lemma_outweighs(x, a);
    lemma_outweighs(x, c);
    lemma_outweighs(y, b);
    lemma_outweighs(y, d);
    lemma_weighs(x);
    lemma_weighs(y);
    // d < b, so x gains over its right options between d and b
    lemma_times_grows(d, b, x);
    lemma_le_total(a, c);
    if a.le(c) {
        let m = term(x, y, a, d);
        assert(gain(d, b, x, x.right[ia]));
        lemma_gain_turns(d, b, x, a);
        lemma_gain_turns(x, a, d, b);
        lemma_gain_turns(a, x, b, d);
        lemma_terms_second(x, y, a, d, b);
        assert(!m.le(l));
        lemma_times_keeps(a, c, y);
        assert(no_loss(a, c, y.left[id], y));
        lemma_terms_first(x, y, a, c, d);
        assert(m.le(r));
        if r.le(l) {
            lemma_le_transitive(m, r, l);
        }
    } else {
        let m = term(x, y, c, b);
        lemma_times_keeps(c, a, y);
        assert(no_loss(c, a, y, y.right[ib]));
        lemma_gain_turns(c, a, y, b);
        lemma_terms_first(x, y, a, c, b);
        assert(l.le(m));
        assert(gain(d, b, x, x.right[ic]));
        lemma_gain_turns(d, b, x, c);
        lemma_gain_turns(x, c, d, b);
        lemma_gain_turns(c, x, b, d);
        lemma_terms_second(x, y, c, d, b);
        assert(!r.le(m));
        if r.le(l) {
            lemma_le_transitive(r, l, m);
        }
    }
}

/// The product of two numbers is a number.
pub proof fn lemma_product_number(x: Form, y: Form)
    requires
        x.is_number(),
        y.is_number(),
    ensures
        x.times(y).is_number(),
    decreases weight(x) + weight(y), 1nat,
{
    let z = x.times(y);
    lemma_option_depth(x);
    lemma_option_depth(y);
    lemma_product_options(x, y);
    assert forall|k: int| 0 <= k < z.left.len() implies (#[trigger] z.left[k]).is_number() by {
        let f = z.left[k];
        if is_term(x, y, x.left, y.left, f) {
            let (i, j) = choose|i: int, j: int|
                0 <= i < x.left.len() && 0 <= j < y.left.len() && f == #[trigger] term(
                    x,
                    y,
                    x.left[i],
                    y.left[j],
                );
            lemma_term_number(x, y, x.left[i], y.left[j]);
        } else {
            let (i, j) = choose|i: int, j: int|
                0 <= i < x.right.len() && 0 <= j < y.right.len() && f == #[trigger] term(
                    x,
                    y,
                    x.right[i],
                    y.right[j],
                );
            lemma_term_number(x, y, x.right[i], y.right[j]);
        }
    }
    assert forall|k: int| 0 <= k < z.right.len() implies (#[trigger] z.right[k]).is_number() by {
        let f = z.right[k];
        if is_term(x, y, x.left, y.right, f) {
            let (i, j) = choose|i: int, j: int|
                0 <= i < x.left.len() && 0 <= j < y.right.len() && f == #[trigger] term(
                    x,
                    y,
                    x.left[i],
                    y.right[j],
                );
            lemma_term_number(x, y, x.left[i], y.right[j]);
        } else {
            let (i, j) = choose|i: int, j: int|
                0 <= i < x.right.len() && 0 <= j < y.left.len() && f == #[trigger] term(
                    x,
                    y,
                    x.right[i],
                    y.left[j],
                );
            lemma_term_number(x, y, x.right[i], y.left[j]);
        }
    }
    assert forall|i: int, j: int|
        0 <= i < z.left.len() && 0 <= j < z.right.len() implies !(#[trigger] z.right[j]).le(
        #[trigger] z.left[i],
    ) by {
        let l = z.left[i];
        let r = z.right[j];
        if is_term(x, y, x.left, y.left, l) {
            let (ia, ib) = choose|ia: int, ib: int|
                0 <= ia < x.left.len() && 0 <= ib < y.left.len() && l == #[trigger] term(
                    x,
                    y,
                    x.left[ia],
                    y.left[ib],
                );
            if is_term(x, y, x.left, y.right, r) {
                let (ic, id) = choose|ic: int, id: int|
                    0 <= ic < x.left.len() && 0 <= id < y.right.len() && r == #[trigger] term(
                        x,
                        y,
                        x.left[ic],
                        y.right[id],
                    );
                lemma_apart_ll_lr(x, y, ia, ib, ic, id);
            } else {
                let (ic, id) = choose|ic: int, id: int|
                    0 <= ic < x.right.len() && 0 <= id < y.left.len() && r == #[trigger] term(
                        x,
                        y,
                        x.right[ic],
                        y.left[id],
                    );
                lemma_apart_ll_rl(x, y, ia, ib, ic, id);
            }
        } else {
            let (ia, ib) = choose|ia: int, ib: int|
                0 <= ia < x.right.len() && 0 <= ib < y.right.len() && l == #[trigger] term(
                    x,
                    y,
                    x.right[ia],
                    y.right[ib],
                );
            if is_term(x, y, x.left, y.right, r) {
                let (ic, id) = choose|ic: int, id: int|
                    0 <= ic < x.left.len() && 0 <= id < y.right.len() && r == #[trigger] term(
                        x,
                        y,
                        x.left[ic],
                        y.right[id],
                    );
                lemma_apart_rr_lr(x, y, ia, ib, ic, id);
            } else {
                let (ic, id) = choose|ic: int, id: int|
                    0 <= ic < x.right.len() && 0 <= id < y.left.len() && r == #[trigger] term(
                        x,
                        y,
                        x.right[ic],
                        y.left[id],
                    );
                lemma_apart_rr_rl(x, y, ia, ib, ic, id);
            }
        }
    }
}

/// Equivalent numbers give equivalent products, whichever factor they
/// are.
pub proof fn lemma_times_congruent(x1: Form, x2: Form, y1: Form, y2: Form)
    requires
        x1.is_number(),
        x2.is_number(),
        y1.is_number(),
        y2.is_number(),
        x1.equiv(x2),
        y1.equiv(y2),
    ensures
        x1.times(y1).equiv(x2.times(y2)),
{
    lemma_times_respects(x1, x2, y1);
    lemma_times_respects(y1, y2, x2);
    lemma_times_commutes(x2, y1);
    lemma_times_commutes(y2, x2);
    lemma_equiv_transitive(x1.times(y1), x2.times(y1), y1.times(x2));
    lemma_equiv_transitive(x1.times(y1), y1.times(x2), y2.times(x2));
    lemma_equiv_transitive(x1.times(y1), y2.times(x2), x2.times(y2));
}

/// For numbers `x1 < x2` and `y1 < y2`:
/// `x1 * y2 + x2 * y1 < x1 * y1 + x2 * y2`.
pub proof fn lemma_gain(x1: Form, x2: Form, y1: Form, y2: Form)
    requires
        x1.is_number(),
        x2.is_number(),
        y1.is_number(),
        y2.is_number(),
        x1.lt(x2),
        y1.lt(y2),
    ensures
        gain(x1, x2, y1, y2),
    decreases y1.depth() + y2.depth(), 0nat,
{
    lemma_option_depth(y1);
    lemma_option_depth(y2);
    if exists|j: int| 0 <= j < y2.left.len() && y1.le(#[trigger] y2.left[j]) {
        let j = choose|j: int| 0 <= j < y2.left.len() && y1.le(#[trigger] y2.left[j]);
        let o = y2.left[j];
        lemma_le_total(x1, x2);
        lemma_no_loss(x1, x2, y1, o);
        lemma_times_grows(x1, x2, y2);
        assert(gain(x1, x2, y2.left[j], y2));
        lemma_chain_second(x1, x2, y1, o, y2);
    } else {
        let j = choose|j: int| 0 <= j < y1.right.len() && (#[trigger] y1.right[j]).le(y2);
        let o = y1.right[j];
        lemma_le_total(x1, x2);
        lemma_no_loss(x1, x2, o, y2);
        lemma_times_grows(x1, x2, y1);
        assert(gain(x1, x2, y1, y1.right[j]));
        lemma_chain_second(x1, x2, y1, o, y2);
    }
}

/// For numbers `x1 <= x2` and `y1 <= y2`:
/// `x1 * y2 + x2 * y1 <= x1 * y1 + x2 * y2`.
pub proof fn lemma_no_loss(x1: Form, x2: Form, y1: Form, y2: Form)
    requires
        x1.is_number(),
        x2.is_number(),
        y1.is_number(),
        y2.is_number(),
        x1.le(x2),
        y1.le(y2),
    ensures
        no_loss(x1, x2, y1, y2),
    decreases y1.depth() + y2.depth(), 1nat,
{
    let a = x1.times(y2);
    let b = x2.times(y1);
    let c = x1.times(y1);
    let d = x2.times(y2);
    if x1.lt(x2) && y1.lt(y2) {
        lemma_gain(x1, x2, y1, y2);
        lemma_product_number(x1, y2);
        lemma_product_number(x2, y1);
        lemma_product_number(x1, y1);
        lemma_product_number(x2, y2);
        lemma_plus_number(a, b);
        lemma_plus_number(c, d);
        lemma_le_total(a.plus(b), c.plus(d));
    } else if !x1.lt(x2) {
        // x1 and x2 are equivalent: a = d and b = c
        lemma_le_reflexive(y1);
        lemma_le_reflexive(y2);
        lemma_times_congruent(x1, x2, y2, y2);
        lemma_times_congruent(x2, x1, y1, y1);
        lemma_plus_congruent(a, b, d, c);
        lemma_plus_commutes(d, c);
        lemma_equiv_transitive(a.plus(b), d.plus(c), c.plus(d));
    } else {
        // y1 and y2 are equivalent: a = c and b = d
        lemma_le_reflexive(x1);
        lemma_le_reflexive(x2);
        lemma_times_congruent(x1, x1, y2, y1);
        lemma_times_congruent(x2, x2, y1, y2);
        lemma_plus_congruent(a, b, c, d);
    }
}

/// The rule of signs: the product of two positive or of two negative
/// numbers is positive, and the product of a negative and a positive
/// number is negative.
pub proof fn lemma_signs(x: Form, y: Form)
    requires
        x.is_number(),
        y.is_number(),
    ensures
        Form::zero().lt(x) && Form::zero().lt(y) ==> Form::zero().lt(x.times(y)),
        x.lt(Form::zero()) && y.lt(Form::zero()) ==> Form::zero().lt(x.times(y)),
        x.lt(Form::zero()) && Form::zero().lt(y) ==> x.times(y).lt(Form::zero()),
        Form::zero().lt(x) && y.lt(Form::zero()) ==> x.times(y).lt(Form::zero()),
{
    let z = Form::zero();
    let p = x.times(y);
    assert(z.is_number());
    lemma_times_zero(x);
    lemma_times_zero(y);
    lemma_times_zero(z);
    lemma_plus_zero(z);
    lemma_plus_zero(p);
    if z.lt(x) && z.lt(y) {
        lemma_gain(z, x, z, y);
    }
    if x.lt(z) && y.lt(z) {
        lemma_gain(x, z, y, z);
    }
    if x.lt(z) && z.lt(y) {
        lemma_gain(x, z, z, y);
    }
    if z.lt(x) && y.lt(z) {
        lemma_gain(z, x, y, z);
    }
}

/// A product with a number equivalent to zero is equivalent to zero.
pub proof fn lemma_times_null(x: Form, y: Form)
    requires
        x.is_number(),
        y.is_number(),
        x.equiv(Form::zero()) || y.equiv(Form::zero()),
    ensures
        x.times(y).equiv(Form::zero()),
{
    let z = Form::zero();
    assert(z.is_number());
    lemma_times_zero(x);
    lemma_times_zero(y);
    lemma_le_reflexive(x);
    lemma_le_reflexive(y);
    if x.equiv(z) {
        lemma_times_congruent(x, z, y, y);
    } else {
        lemma_times_congruent(x, x, y, z);
    }
}

} // verus!
