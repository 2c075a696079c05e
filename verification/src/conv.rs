//! From values to real numbers: the real number that a form denotes by
//! the simplicity rule, and the predicates that rest on it.

use crate::dyadic::{abs_units, magnitude, units, Dyadic, ONE, REACH};
use crate::error::SurrealError;
use crate::form::{lemma_option_depth, lemma_rise_at_most, lemma_rise_bounds, rise, Form};
use crate::surreal::{forms, Surreal};
use vstd::prelude::*;

verus! {

/// The deepest nesting of a value that has a real number here.
pub const MAX_DEPTH: usize = 64;

/// The greatest member of `s`; 0 for the empty sequence.
pub open spec fn greatest(s: Seq<int>) -> int
    decreases s.len(),
{
    if s.len() == 0 {
        0
    } else if s.len() == 1 {
        s[0]
    } else {
        let g = greatest(s.drop_last());
        if s.last() >= g {
            s.last()
        } else {
            g
        }
    }
}

/// The least member of `s`; 0 for the empty sequence.
pub open spec fn least(s: Seq<int>) -> int
    decreases s.len(),
{
    if s.len() == 0 {
        0
    } else if s.len() == 1 {
        s[0]
    } else {
        let g = least(s.drop_last());
        if s.last() <= g {
            s.last()
        } else {
            g
        }
    }
}

/// The simplicity rule on counts of units: 0 between two empty sides;
/// one below the least right member, or one above the greatest left
/// member, where the other side is empty; else midway between the
/// greatest left and the least right member.
pub open spec fn simplest(left: Seq<int>, right: Seq<int>) -> int {
    if left.len() == 0 {
        if right.len() == 0 {
            0
        } else {
            least(right) - ONE
        }
    } else if right.len() == 0 {
        greatest(left) + ONE
    } else {
        (greatest(left) + least(right)) / 2
    }
}

/// The real numbers of the forms in `s`, in order.
pub open spec fn values(s: Seq<Form>) -> Seq<int>
    decreases rise(s), 0nat,
{
    Seq::new(
        s.len(),
        |i: int|
            if 0 <= i < s.len() {
                proof {
                    lemma_rise_bounds(s, i);
                }
                s[i].value()
            } else {
                0
            },
    )
}

/// Some member of `left` is at least some member of `right`.
pub open spec fn overlap(left: Seq<int>, right: Seq<int>) -> bool {
    exists|i: int, j: int|
        0 <= i < left.len() && 0 <= j < right.len() && #[trigger] left[i] >= #[trigger] right[j]
}

/// `a / b` is a whole number of 256ths.
pub open spec fn divisible(a: int, b: int) -> bool {
    b != 0 && (256 * magnitude(a)) % magnitude(b) == 0
}

impl Form {
    /// The real number of the form, in units of `2^-64`: the simplicity
    /// rule applied to the real numbers of its options. For a form no
    /// deeper than `MAX_DEPTH` the halving in the rule is exact.
    pub open spec fn value(self) -> int
        decreases self.depth(), 1nat,
    {
        simplest(values(self.left), values(self.right))
    }
}

/// The greatest member of a sequence is one of its members and at least
/// each of them.
pub proof fn lemma_greatest(s: Seq<int>)
    requires
        s.len() > 0,
    ensures
        exists|k: int| 0 <= k < s.len() && s[k] == greatest(s),
        forall|k: int| 0 <= k < s.len() ==> s[k] <= greatest(s),
    decreases s.len(),
{
    if s.len() == 1 {
        assert(s[0] == greatest(s));
    } else {
        let t = s.drop_last();
        lemma_greatest(t);
        let k = choose|k: int| 0 <= k < t.len() && t[k] == greatest(t);
        if s.last() >= greatest(t) {
            assert(s[s.len() - 1] == greatest(s));
        } else {
            assert(s[k] == greatest(s));
        }
        assert forall|k: int| 0 <= k < s.len() implies s[k] <= greatest(s) by {
            if k < t.len() {
                assert(t[k] == s[k]);
            }
        }
    }
}

/// The least member of a sequence is one of its members and at most each
/// of them.
pub proof fn lemma_least(s: Seq<int>)
    requires
        s.len() > 0,
    ensures
        exists|k: int| 0 <= k < s.len() && s[k] == least(s),
        forall|k: int| 0 <= k < s.len() ==> s[k] >= least(s),
    decreases s.len(),
{
    if s.len() == 1 {
        assert(s[0] == least(s));
    } else {
        let t = s.drop_last();
        lemma_least(t);
        let k = choose|k: int| 0 <= k < t.len() && t[k] == least(t);
        if s.last() <= least(t) {
            assert(s[s.len() - 1] == least(s));
        } else {
            assert(s[k] == least(s));
        }
        assert forall|k: int| 0 <= k < s.len() implies s[k] >= least(s) by {
            if k < t.len() {
                assert(t[k] == s[k]);
            }
        }
    }
}

/// The simplicity rule moves at most one unit-of-one away from its
/// operands: with every operand within `b`, the result is within
/// `b + ONE`.
pub proof fn lemma_simplest_bound(left: Seq<int>, right: Seq<int>, b: int)
    requires
        0 <= b,
        forall|i: int| 0 <= i < left.len() ==> magnitude(#[trigger] left[i]) <= b,
        forall|j: int| 0 <= j < right.len() ==> magnitude(#[trigger] right[j]) <= b,
    ensures
        magnitude(simplest(left, right)) <= b + ONE,
{
    if left.len() > 0 {
        lemma_greatest(left);
        let k = choose|k: int| 0 <= k < left.len() && left[k] == greatest(left);
        assert(magnitude(left[k]) <= b);
    }
    if right.len() > 0 {
        lemma_least(right);
        let k = choose|k: int| 0 <= k < right.len() && right[k] == least(right);
        assert(magnitude(right[k]) <= b);
    }
}

/// The real number of a form is at most its depth in magnitude.
pub proof fn lemma_value_bound(x: Form)
    ensures
        magnitude(x.value()) <= x.depth() * ONE,
    decreases x.depth(),
{
    lemma_option_depth(x);
    let l = values(x.left);
    let r = values(x.right);
    if x.left.len() == 0 && x.right.len() == 0 {
    } else {
        let b = (x.depth() - 1) * ONE;
        assert forall|i: int| 0 <= i < l.len() implies magnitude(#[trigger] l[i]) <= b by {
            lemma_value_bound(x.left[i]);
            assert(x.left[i].depth() <= x.depth() - 1);
        }
        assert forall|j: int| 0 <= j < r.len() implies magnitude(#[trigger] r[j]) <= b by {
            lemma_value_bound(x.right[j]);
            assert(x.right[j].depth() <= x.depth() - 1);
        }
        assert(x.depth() >= 1) by {
            if x.left.len() > 0 {
                assert(x.left[0].depth() < x.depth());
            } else {
                assert(x.right[0].depth() < x.depth());
            }
        }
        lemma_simplest_bound(l, r, b);
    }
}

/// The greatest of the numbers in `v`.
fn max_of(v: &Vec<Dyadic>) -> (d: Dyadic)
    requires
        v.len() > 0,
    ensures
        d@ == greatest(units(v@)),
{
    let ghost u = units(v@);
    let mut best = v[0];
    let mut i: usize = 1;
    proof {
        assert(u.take(1) =~= seq![u[0]]);
    }
    while i < v.len()
        invariant
            1 <= i <= v.len(),
            u == units(v@),
            best@ == greatest(u.take(i as int)),
        decreases v.len() - i,
    {
        proof {
            assert(u.take(i + 1).drop_last() =~= u.take(i as int));
            assert(u.take(i + 1).last() == v[i as int]@);
        }
        if v[i].units >= best.units {
            best = v[i];
        }
        i += 1;
    }
    proof {
        assert(u.take(v.len() as int) =~= u);
    }
    best
}

/// The least of the numbers in `v`.
fn min_of(v: &Vec<Dyadic>) -> (d: Dyadic)
    requires
        v.len() > 0,
    ensures
        d@ == least(units(v@)),
{
    let ghost u = units(v@);
    let mut best = v[0];
    let mut i: usize = 1;
    proof {
        assert(u.take(1) =~= seq![u[0]]);
    }
    while i < v.len()
        invariant
            1 <= i <= v.len(),
            u == units(v@),
            best@ == least(u.take(i as int)),
        decreases v.len() - i,
    {
        proof {
            assert(u.take(i + 1).drop_last() =~= u.take(i as int));
            assert(u.take(i + 1).last() == v[i as int]@);
        }
        if v[i].units <= best.units {
            best = v[i];
        }
        i += 1;
    }
    proof {
        assert(u.take(v.len() as int) =~= u);
    }
    best
}

/// Half of `s`, rounded down.
fn halve(s: i128) -> (h: i128)
    ensures
        h == s / 2,
{
    let t = s / 2;
    if s < 0 && s % 2 != 0 {
        t - 1
    } else {
        t
    }
}

/// The simplicity rule: the number that two sides of numbers enclose.
/// The members need not be sorted.
pub fn logic(left: &Vec<Dyadic>, right: &Vec<Dyadic>) -> (d: Dyadic)
    requires
        forall|i: int| 0 <= i < left.len() ==> magnitude(#[trigger] left[i]@) <= REACH,
        forall|j: int| 0 <= j < right.len() ==> magnitude(#[trigger] right[j]@) <= REACH,
    ensures
        d@ == simplest(units(left@), units(right@)),
{
    proof {
        if left.len() > 0 {
            lemma_greatest(units(left@));
            let k = choose|k: int|
                0 <= k < units(left@).len() && units(left@)[k] == greatest(units(left@));
            assert(magnitude(left[k]@) <= REACH);
        }
        if right.len() > 0 {
            lemma_least(units(right@));
            let k = choose|k: int|
                0 <= k < units(right@).len() && units(right@)[k] == least(units(right@));
            assert(magnitude(right[k]@) <= REACH);
        }
    }
    if left.len() == 0 {
        if right.len() == 0 {
            Dyadic { units: 0 }
        } else {
            Dyadic { units: min_of(right).units - ONE }
        }
    } else if right.len() == 0 {
        Dyadic { units: max_of(left).units + ONE }
    } else {
        Dyadic { units: halve(max_of(left).units + min_of(right).units) }
    }
}

/// The real numbers of the values in `v`, each of which may be nested
/// `budget` deep at most.
fn stof_each(v: &Vec<Surreal>, budget: usize) -> (r: Result<Vec<Dyadic>, SurrealError>)
    requires
        budget <= MAX_DEPTH,
    ensures
        rise(forms(v@)) <= budget + 1 ==> r is Ok && units(r->Ok_0@) == values(forms(v@)),
        rise(forms(v@)) > budget + 1 ==> r == Err::<Vec<Dyadic>, SurrealError>(
            SurrealError::DepthExceeded,
        ),
    decreases rise(forms(v@)), 0nat,
{
    let ghost f = forms(v@);
    let mut out: Vec<Dyadic> = Vec::new();
    let mut i: usize = 0;
    while i < v.len()
        invariant
            0 <= i <= v.len(),
            budget <= MAX_DEPTH,
            f == forms(v@),
            out.len() == i,
            forall|k: int| 0 <= k < i ==> f[k].depth() <= budget,
            forall|k: int| 0 <= k < i ==> (#[trigger] out[k])@ == f[k].value(),
        decreases v.len() - i,
    {
        proof {
            lemma_rise_bounds(f, i as int);
        }
        match stof_within(&v[i], budget) {
            Ok(d) => {
                out.push(d);
            },
            Err(_) => {
                return Err(SurrealError::DepthExceeded);
            },
        }
        i += 1;
    }
    proof {
        lemma_rise_at_most(f, (budget + 1) as nat);
        assert(units(out@) =~= values(f));
    }
    Ok(out)
}

/// The real number of `sur`, provided that it is nested `budget` deep at
/// most.
fn stof_within(sur: &Surreal, budget: usize) -> (r: Result<Dyadic, SurrealError>)
    requires
        budget <= MAX_DEPTH,
    ensures
        sur@.depth() <= budget ==> r is Ok && r->Ok_0@ == sur@.value(),
        sur@.depth() > budget ==> r == Err::<Dyadic, SurrealError>(SurrealError::DepthExceeded),
    decreases sur@.depth(), 1nat,
{
    let xl = sur.left_options();
    let xr = sur.right_options();
    proof {
        lemma_option_depth(sur@);
        assert(forms(xl@).len() == xl.len() && forms(xr@).len() == xr.len());
    }
    if xl.len() == 0 && xr.len() == 0 {
        proof {
            assert(sur@.left =~= Seq::<Form>::empty());
            assert(sur@.right =~= Seq::<Form>::empty());
            assert(rise(Seq::<Form>::empty()) == 0);
            assert(values(Seq::<Form>::empty()) =~= Seq::<int>::empty());
        }
        return Ok(Dyadic { units: 0 });
    }
    if budget == 0 {
        proof {
            if xl.len() > 0 {
                assert(sur@.left[0].depth() < sur@.depth());
            } else {
                assert(sur@.right[0].depth() < sur@.depth());
            }
        }
        return Err(SurrealError::DepthExceeded);
    }
    let left = match stof_each(xl, budget - 1) {
        Ok(l) => l,
        Err(_) => {
            return Err(SurrealError::DepthExceeded);
        },
    };
    let right = match stof_each(xr, budget - 1) {
        Ok(r) => r,
        Err(_) => {
            return Err(SurrealError::DepthExceeded);
        },
    };
    proof {
        assert(units(left@).len() == left.len() && units(right@).len() == right.len());
        assert(values(sur@.left).len() == sur@.left.len());
        assert(values(sur@.right).len() == sur@.right.len());
        assert forall|i: int| 0 <= i < left.len() implies magnitude(#[trigger] left[i]@)
            <= REACH by {
            assert(left[i]@ == units(left@)[i]);
            lemma_value_bound(sur@.left[i]);
            lemma_rise_bounds(sur@.left, i);
            assert(magnitude(left[i]@) <= sur@.left[i].depth() * ONE);
            assert(sur@.left[i].depth() * ONE <= 64 * ONE) by (nonlinear_arith)
                requires
                    sur@.left[i].depth() <= 64,
            ;
        }
        assert forall|j: int| 0 <= j < right.len() implies magnitude(#[trigger] right[j]@)
            <= REACH by {
            assert(right[j]@ == units(right@)[j]);
            lemma_value_bound(sur@.right[j]);
            lemma_rise_bounds(sur@.right, j);
            assert(magnitude(right[j]@) <= sur@.right[j].depth() * ONE);
            assert(sur@.right[j].depth() * ONE <= 64 * ONE) by (nonlinear_arith)
                requires
                    sur@.right[j].depth() <= 64,
            ;
        }
    }
    Ok(logic(&left, &right))
}

/// The real number that `sur` denotes by the simplicity rule. Fails with
/// `DepthExceeded` exactly when `sur` is nested deeper than `MAX_DEPTH`.
pub fn stof(sur: &Surreal) -> (r: Result<Dyadic, SurrealError>)
    ensures
        sur@.depth() <= MAX_DEPTH ==> r is Ok && r->Ok_0@ == sur@.value(),
        sur@.depth() > MAX_DEPTH ==> r == Err::<Dyadic, SurrealError>(SurrealError::DepthExceeded),
{
    stof_within(sur, MAX_DEPTH)
}

/// Two sides overlap exactly when both have members and the greatest
/// on the left is at least the least on the right.
pub proof fn lemma_overlap(left: Seq<int>, right: Seq<int>)
    ensures
        overlap(left, right) <==> left.len() > 0 && right.len() > 0 && greatest(left) >= least(
            right,
        ),
{
    if left.len() > 0 && right.len() > 0 {
        lemma_greatest(left);
        lemma_least(right);
        if greatest(left) >= least(right) {
            let i = choose|k: int| 0 <= k < left.len() && left[k] == greatest(left);
            let j = choose|k: int| 0 <= k < right.len() && right[k] == least(right);
            assert(left[i] >= right[j]);
        }
    }
}

/// Whether `sur` is a pseudo-number by the real numbers of its options:
/// some left option denotes a number at least that of some right option.
/// Fails with `DepthExceeded` exactly when an option is nested deeper
/// than `MAX_DEPTH`.
pub fn is_pseudo(sur: &Surreal) -> (r: Result<bool, SurrealError>)
    ensures
        sur@.depth() <= MAX_DEPTH + 1 ==> r == Ok::<bool, SurrealError>(
            overlap(values(sur@.left), values(sur@.right)),
        ),
        sur@.depth() > MAX_DEPTH + 1 ==> r == Err::<bool, SurrealError>(
            SurrealError::DepthExceeded,
        ),
{
    let left = match stof_each(sur.left_options(), MAX_DEPTH) {
        Ok(l) => l,
        Err(_) => {
            return Err(SurrealError::DepthExceeded);
        },
    };
    let right = match stof_each(sur.right_options(), MAX_DEPTH) {
        Ok(r) => r,
        Err(_) => {
            return Err(SurrealError::DepthExceeded);
        },
    };
    proof {
        lemma_overlap(units(left@), units(right@));
        assert(units(left@).len() == left.len() && units(right@).len() == right.len());
    }
    if left.len() == 0 || right.len() == 0 {
        Ok(false)
    } else {
        Ok(max_of(&left).units >= min_of(&right).units)
    }
}

/// Whether the real number of `x` divided by that of `y` is a whole
/// number of 256ths, which `divide` asks for. Fails with `DepthExceeded`
/// exactly when `x` or `y` is nested deeper than `MAX_DEPTH`.
pub fn is_divisible(x: &Surreal, y: &Surreal) -> (r: Result<bool, SurrealError>)
    ensures
        x@.depth() <= MAX_DEPTH && y@.depth() <= MAX_DEPTH ==> r == Ok::<bool, SurrealError>(
            divisible(x@.value(), y@.value()),
        ),
        x@.depth() > MAX_DEPTH || y@.depth() > MAX_DEPTH ==> r == Err::<bool, SurrealError>(
            SurrealError::DepthExceeded,
        ),
{
    let a = match stof(x) {
        Ok(a) => a,
        Err(_) => {
            return Err(SurrealError::DepthExceeded);
        },
    };
    let b = match stof(y) {
        Ok(b) => b,
        Err(_) => {
            return Err(SurrealError::DepthExceeded);
        },
    };
    proof {
        lemma_value_bound(x@);
        assert(x@.depth() * ONE <= 64 * ONE) by (nonlinear_arith)
            requires
                x@.depth() <= 64,
        ;
    }
    Ok(divides(a, b))
}

/// Whether `a / b` is a whole number of 256ths, for a dividend that is
/// the number of a form no deeper than `MAX_DEPTH`.
fn divides(a: Dyadic, b: Dyadic) -> (r: bool)
    requires
        magnitude(a@) <= 64 * ONE,
    ensures
        r == divisible(a@, b@),
{
    if b.units == 0 {
        return false;
    }
    let ma = abs_units(a.units);
    let mb = abs_units(b.units);
    (256 * ma) % mb == 0
}

} // verus!
