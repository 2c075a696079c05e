//! Why the simplicity rule may halve in whole units: the real number of
//! a form nested `d` deep is a whole multiple of `2^-d`, so for forms no
//! deeper than `MAX_DEPTH` every halving in the rule is exact.

use crate::conv::{greatest, lemma_greatest, lemma_least, least, values, MAX_DEPTH};
use crate::dyadic::ONE;
use crate::form::{lemma_option_depth, Form};
use vstd::prelude::*;

verus! {

/// The units in `2^-d`, for `d` up to 64: `2^(64 - d)`.
pub open spec fn grain(d: nat) -> int
    decreases 64 - d,
{
    if d >= 64 {
        1
    } else {
        2 * grain(d + 1)
    }
}

/// `k` times `g`.
pub open spec fn scaled(k: int, g: int) -> int {
    k * g
}

/// `m` is a whole multiple of `g`.
pub open spec fn is_multiple(m: int, g: int) -> bool {
    exists|k: int| m == #[trigger] scaled(k, g)
}

/// The grain at depth 0 is one.
pub proof fn lemma_grain_zero()
    ensures
        grain(0) == ONE,
{
    reveal_with_fuel(grain, 65);
}

/// A multiple of a coarse grain is a multiple of every finer grain.
pub proof fn lemma_finer(m: int, d: nat, e: nat)
    requires
        d <= e <= 64,
        is_multiple(m, grain(d)),
    ensures
        is_multiple(m, grain(e)),
    decreases e - d,
{
    if d < e {
        let k = choose|k: int| m == #[trigger] scaled(k, grain(d));
        let g = grain(d + 1);
        assert(k * (2 * g) == (2 * k) * g) by (nonlinear_arith);
        assert(m == scaled(2 * k, g));
        lemma_finer(m, d + 1, e);
    }
}

/// Sums and differences of multiples are multiples.
pub proof fn lemma_multiple_sum(a: int, b: int, g: int)
    requires
        is_multiple(a, g),
        is_multiple(b, g),
    ensures
        is_multiple(a + b, g),
        is_multiple(a - b, g),
{
    let j = choose|k: int| a == #[trigger] scaled(k, g);
    let k = choose|k: int| b == #[trigger] scaled(k, g);
    assert(j * g + k * g == (j + k) * g) by (nonlinear_arith);
    assert(j * g - k * g == (j - k) * g) by (nonlinear_arith);
    assert(a + b == scaled(j + k, g));
    assert(a - b == scaled(j - k, g));
}

/// The real number of a form nested `d` deep, `d` up to `MAX_DEPTH`, is
/// a whole multiple of `2^-d`; and where the form has options on both
/// sides, the sum that the simplicity rule halves is even.
pub proof fn lemma_value_exact(x: Form)
    requires
        x.depth() <= MAX_DEPTH,
    ensures
        is_multiple(x.value(), grain(x.depth())),
        x.left.len() > 0 && x.right.len() > 0 ==> 2 * x.value() == greatest(values(x.left))
            + least(values(x.right)),
    decreases x.depth(),
{
    lemma_option_depth(x);
    let l = values(x.left);
    let r = values(x.right);
    let d = x.depth();
    if x.left.len() == 0 && x.right.len() == 0 {
        assert(x.value() == scaled(0, grain(d)));
    } else {
        assert(d >= 1) by {
            if x.left.len() > 0 {
                assert(x.left[0].depth() < d);
            } else {
                assert(x.right[0].depth() < d);
            }
        }
        let c = (d - 1) as nat;
        let g = grain(d);
        assert(grain(c) == 2 * g);
        assert forall|i: int| 0 <= i < l.len() implies is_multiple(#[trigger] l[i], grain(c)) by {
            lemma_value_exact(x.left[i]);
            lemma_finer(l[i], x.left[i].depth(), c);
        }
        assert forall|j: int| 0 <= j < r.len() implies is_multiple(#[trigger] r[j], grain(c)) by {
            lemma_value_exact(x.right[j]);
            lemma_finer(r[j], x.right[j].depth(), c);
        }
        lemma_grain_zero();
        assert(ONE == scaled(1, grain(0)));
        lemma_finer(ONE as int, 0, c);
        if l.len() > 0 {
            lemma_greatest(l);
        }
        if r.len() > 0 {
            lemma_least(r);
        }
        if l.len() == 0 {
            lemma_multiple_sum(least(r), ONE as int, grain(c));
            lemma_finer(x.value(), c, d);
        } else if r.len() == 0 {
            lemma_multiple_sum(greatest(l), ONE as int, grain(c));
            lemma_finer(x.value(), c, d);
        } else {
            let s = greatest(l) + least(r);
            lemma_multiple_sum(greatest(l), least(r), grain(c));
            let k = choose|k: int| s == #[trigger] scaled(k, grain(c));
            assert(k * (2 * g) == 2 * (k * g)) by (nonlinear_arith);
            assert(s / 2 == k * g);
            assert(x.value() == scaled(k, g));
        }
    }
}

} // verus!
