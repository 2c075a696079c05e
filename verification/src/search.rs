//! From real numbers to values: the search by bisection for a value
//! that denotes a given real number.

use crate::ceiling::Ceiling;
use crate::conv::{stof, values, MAX_DEPTH};
use crate::dyadic::{magnitude, Dyadic, EPSILON};
use crate::error::SurrealError;
use crate::form::{rise, Form};
use crate::laws::{lemma_plus_depth, lemma_plus_number};
use crate::monotone::lemma_product_number;
use crate::order::lemma_le_reflexive;
use crate::product::mul_within;
use crate::surreal::{outcome, Surreal};
use vstd::prelude::*;

verus! {

/// Two numbers lie within `EPSILON` of each other.
pub open spec fn close(a: int, b: int) -> bool {
    magnitude(a - b) <= EPSILON
}

/// The deepest that a cursor of a search may be nested under the
/// ceiling `depth`: `depth` itself, and `MAX_DEPTH` at most.
pub open spec fn reach(depth: nat) -> nat {
    if depth <= MAX_DEPTH {
        depth
    } else {
        MAX_DEPTH as nat
    }
}

/// One climb of the search for `target`: from `floor`, advance by `step`
/// until the cursor is no longer below `target` in magnitude. Gives the
/// cursor, the last position below `target`, and the steps that are
/// left; fails where the steps run out or the cursor would nest deeper
/// than `reach(depth)`.
pub open spec fn climb(target: int, floor: Form, step: Form, depth: nat, fuel: nat) -> Result<
    (Form, Form, nat),
    SurrealError,
>
    decreases fuel,
{
    let cursor = floor.plus(step);
    if fuel == 0 || cursor.depth() > reach(depth) {
        Err(SurrealError::DepthExceeded)
    } else if magnitude(target) > magnitude(cursor.value()) {
        climb(target, cursor, step, depth, (fuel - 1) as nat)
    } else {
        Ok((cursor, floor, (fuel - 1) as nat))
    }
}

/// The search for `target` by bisection: climb from `floor` by `step`;
/// where the cursor then lies within `EPSILON` of `target`, it is the
/// answer; else halve the step by a product with one half and climb
/// again from the last position below `target`.
pub open spec fn search(
    target: int,
    floor: Form,
    step: Form,
    nesting: nat,
    depth: nat,
    fuel: nat,
) -> Result<Form, SurrealError>
    decreases fuel,
{
    match climb(target, floor, step, depth, fuel) {
        Err(e) => Err(e),
        Ok((cursor, below, left)) => {
            if close(target, cursor.value()) {
                Ok(cursor)
            } else {
                match step.times_within(Form::half(), nesting) {
                    Err(e) => Err(e),
                    Ok(finer) => {
                        proof {
                            lemma_climb_consumes(target, floor, step, depth, fuel);
                        }
                        search(target, below, finer, nesting, depth, left)
                    },
                }
            }
        },
    }
}

/// The form that the search for the real number `target` arrives at
/// under the given ceilings: zero where `target` lies within `EPSILON`
/// of zero, else the result of the search from zero, by steps of one
/// towards `target`.
pub open spec fn from_real(target: int, nesting: nat, steps: nat, depth: nat) -> Result<
    Form,
    SurrealError,
> {
    if close(target, 0) {
        Ok(Form::zero())
    } else {
        search(
            target,
            Form::zero(),
            if target > 0 {
                Form::one()
            } else {
                Form::neg_one()
            },
            nesting,
            depth,
            steps,
        )
    }
}

/// A climb that succeeds takes at least one step.
pub proof fn lemma_climb_consumes(target: int, floor: Form, step: Form, depth: nat, fuel: nat)
    ensures
        climb(target, floor, step, depth, fuel) matches Ok(c) ==> c.2 < fuel,
    decreases fuel,
{
    let cursor = floor.plus(step);
    if fuel != 0 && cursor.depth() <= reach(depth) && magnitude(target) > magnitude(
        cursor.value(),
    ) {
        lemma_climb_consumes(target, cursor, step, depth, (fuel - 1) as nat);
    }
}

/// What a search gives lies within `EPSILON` of its target and is no
/// deeper than `MAX_DEPTH`.
pub proof fn lemma_search_close(
    target: int,
    floor: Form,
    step: Form,
    nesting: nat,
    depth: nat,
    fuel: nat,
)
    ensures
        search(target, floor, step, nesting, depth, fuel) matches Ok(f) ==> close(target, f.value())
            && f.depth() <= MAX_DEPTH,
    decreases fuel,
{
    lemma_climb_consumes(target, floor, step, depth, fuel);
    lemma_climb_lands(target, floor, step, depth, fuel);
    match climb(target, floor, step, depth, fuel) {
        Err(e) => {},
        Ok((cursor, below, left)) => {
            if !close(target, cursor.value()) {
                match step.times_within(Form::half(), nesting) {
                    Err(e) => {},
                    Ok(finer) => {
                        lemma_search_close(target, below, finer, nesting, depth, left);
                    },
                }
            }
        },
    }
}

/// The cursor that a climb gives is no deeper than `MAX_DEPTH`.
pub proof fn lemma_climb_lands(target: int, floor: Form, step: Form, depth: nat, fuel: nat)
    ensures
        climb(target, floor, step, depth, fuel) matches Ok(c) ==> c.0.depth() <= MAX_DEPTH && magnitude(
            target,
        ) <= magnitude(c.0.value()),
    decreases fuel,
{
    let cursor = floor.plus(step);
    if fuel != 0 && cursor.depth() <= reach(depth) && magnitude(target) > magnitude(
        cursor.value(),
    ) {
        lemma_climb_lands(target, cursor, step, depth, (fuel - 1) as nat);
    }
}

/// Climbing from a number by a number arrives at numbers.
pub proof fn lemma_climb_number(target: int, floor: Form, step: Form, depth: nat, fuel: nat)
    requires
        floor.is_number(),
        step.is_number(),
    ensures
        climb(target, floor, step, depth, fuel) matches Ok(c) ==> c.0.is_number() && c.1.is_number(),
    decreases fuel,
{
    let cursor = floor.plus(step);
    lemma_plus_number(floor, step);
    if fuel != 0 && cursor.depth() <= reach(depth) && magnitude(target) > magnitude(
        cursor.value(),
    ) {
        lemma_climb_number(target, cursor, step, depth, (fuel - 1) as nat);
    }
}

/// A search from a number by a number gives a number.
pub proof fn lemma_search_number(
    target: int,
    floor: Form,
    step: Form,
    nesting: nat,
    depth: nat,
    fuel: nat,
)
    requires
        floor.is_number(),
        step.is_number(),
    ensures
        search(target, floor, step, nesting, depth, fuel) matches Ok(f) ==> f.is_number(),
    decreases fuel,
{
    lemma_climb_consumes(target, floor, step, depth, fuel);
    lemma_climb_number(target, floor, step, depth, fuel);
    match climb(target, floor, step, depth, fuel) {
        Err(e) => {},
        Ok((cursor, below, left)) => {
            if !close(target, cursor.value()) {
                match step.times_within(Form::half(), nesting) {
                    Err(e) => {},
                    Ok(finer) => {
                        lemma_units_are_numbers();
                        lemma_product_number(step, Form::half());
                        lemma_search_number(target, below, finer, nesting, depth, left);
                    },
                }
            }
        },
    }
}

/// Zero, one, minus one and one half are numbers.
pub proof fn lemma_units_are_numbers()
    ensures
        Form::zero().is_number(),
        Form::one().is_number(),
        Form::neg_one().is_number(),
        Form::half().is_number(),
{
    let z = Form::zero();
    let o = Form::one();
    assert(z.is_number());
    assert(o.left[0] == z);
    assert(o.is_number());
    assert(Form::neg_one().right[0] == z);
    assert(Form::neg_one().is_number());
    let h = Form::half();
    assert(h.left[0] == z);
    assert(h.right[0] == o);
    lemma_le_reflexive(z);
    assert(!o.le(z));
    assert(h.is_number());
}

/// Whatever form the search for a real number gives is a number.
pub proof fn lemma_from_real_number(target: int, nesting: nat, steps: nat, depth: nat)
    ensures
        from_real(target, nesting, steps, depth) matches Ok(f) ==> f.is_number(),
{
    lemma_units_are_numbers();
    if !close(target, 0) {
        lemma_search_number(
            target,
            Form::zero(),
            if target > 0 {
                Form::one()
            } else {
                Form::neg_one()
            },
            nesting,
            depth,
            steps,
        );
    }
}

/// Round trip: whatever form the search for `target` gives denotes a
/// real number within `EPSILON` of `target`.
pub proof fn lemma_from_real_close(target: int, nesting: nat, steps: nat, depth: nat)
    ensures
        from_real(target, nesting, steps, depth) matches Ok(f) ==> close(target, f.value()) && f.depth()
            <= MAX_DEPTH,
{
    if close(target, 0) {
        assert(Form::zero().left.len() == 0);
        assert(values(Form::zero().left) =~= Seq::<int>::empty());
        assert(values(Form::zero().right) =~= Seq::<int>::empty());
        assert(rise(Seq::<Form>::empty()) == 0);
    } else {
        lemma_search_close(
            target,
            Form::zero(),
            if target > 0 {
                Form::one()
            } else {
                Form::neg_one()
            },
            nesting,
            depth,
            steps,
        );
    }
}

/// Searches for a value that denotes the real number `value`, by
/// bisection from zero: steps of one towards `value`, then of a half, a
/// quarter and so on, each step halved by a product with one half. What
/// comes back is a number and lies within `EPSILON` of `value`. The
/// search gives up with `DepthExceeded` where it needs more than
/// `ceiling.steps` steps, a product beyond `ceiling.nesting`, or a
/// cursor deeper than `ceiling.depth` or `MAX_DEPTH`.
pub fn ftos(value: Dyadic, ceiling: Ceiling) -> (r: Result<Surreal, SurrealError>)
    ensures
        outcome(r) == from_real(
            value@,
            ceiling.nesting as nat,
            ceiling.steps as nat,
            ceiling.depth as nat,
        ),
        r matches Ok(s) ==> close(value@, s@.value()) && s@.depth() <= MAX_DEPTH
            && s@.is_number(),
{
    let ghost nesting = ceiling.nesting as nat;
    let ghost depth = ceiling.depth as nat;
    let ghost goal = from_real(value@, nesting, ceiling.steps as nat, depth);
    proof {
        lemma_from_real_close(value@, nesting, ceiling.steps as nat, depth);
        lemma_from_real_number(value@, nesting, ceiling.steps as nat, depth);
    }
    if value.is_close(&Dyadic::zero()) {
        return Ok(Surreal::zero());
    }
    let limit: usize = if ceiling.depth <= MAX_DEPTH {
        ceiling.depth
    } else {
        MAX_DEPTH
    };
    let half = Surreal::half();
    let mut step = if value.units > 0 {
        Surreal::one()
    } else {
        Surreal::neg_one()
    };
    let mut floor = Surreal::zero();
    let mut fuel: usize = ceiling.steps;
    loop
        invariant
            half@ == Form::half(),
            nesting == ceiling.nesting,
            depth == ceiling.depth,
            limit == reach(depth),
            goal == from_real(value@, nesting, ceiling.steps as nat, depth),
            goal == search(value@, floor@, step@, nesting, depth, fuel as nat),
            goal matches Ok(f) ==> close(value@, f.value()) && f.depth() <= MAX_DEPTH
                && f.is_number(),
        decreases fuel,
    {
        let ghost round = climb(value@, floor@, step@, depth, fuel as nat);
        let ghost fuel_before = fuel;
        let ghost start = floor@;
        let mut cursor = Surreal::zero();
        let mut at = Dyadic::zero();
        loop
            invariant_except_break
                round == climb(value@, floor@, step@, depth, fuel as nat),
                fuel <= fuel_before,
            invariant
                limit == reach(depth),
                nesting == ceiling.nesting,
                depth == ceiling.depth,
                goal == from_real(value@, nesting, ceiling.steps as nat, depth),
                goal == search(value@, start, step@, nesting, depth, fuel_before as nat),
                round == climb(value@, start, step@, depth, fuel_before as nat),
            ensures
                round == Ok::<(Form, Form, nat), SurrealError>((cursor@, floor@, fuel as nat)),
                at@ == cursor@.value(),
                fuel < fuel_before,
            decreases fuel,
        {
            if fuel == 0 {
                return Err(SurrealError::DepthExceeded);
            }
            proof {
                lemma_plus_depth(floor@, step@);
            }
            let fits = match floor.depth_within(limit) {
                Some(d) => step.depth_within(limit - d).is_some(),
                None => false,
            };
            if !fits {
                return Err(SurrealError::DepthExceeded);
            }
            let next = crate::arith::add(&floor, &step);
            match stof(&next) {
                Ok(d) => {
                    at = d;
                },
                Err(_) => {
                    return Err(SurrealError::DepthExceeded);
                },
            }
            fuel = fuel - 1;
            if !value.exceeds(&at) {
                cursor = next;
                break ;
            }
            floor = next;
        }
        if value.is_close(&at) {
            return Ok(cursor);
        }
        step = match mul_within(&step, &half, ceiling.nesting) {
            Ok(finer) => finer,
            Err(_) => {
                return Err(SurrealError::DepthExceeded);
            },
        };
    }
}

} // verus!
