//! Surreal values with a denumerable side: each side is given by a
//! generator that is asked for one option at a time. Such a value has no
//! order and no arithmetic; only single options can be sampled.

use crate::surreal::Surreal;
use vstd::prelude::*;

verus! {

/// A value whose left and right options are produced on demand. A side
/// without a generator is empty. A generator is a total function from an
/// index to an option, or to nothing where the side has no option at
/// that index.
pub struct SurrealInf<L: Fn(u32) -> Option<Surreal>, R: Fn(u32) -> Option<Surreal>> {
    left: Option<L>,
    right: Option<R>,
}

impl<L: Fn(u32) -> Option<Surreal>, R: Fn(u32) -> Option<Surreal>> SurrealInf<L, R> {
    /// Both generators, where present, accept every index.
    #[verifier::type_invariant]
    pub closed spec fn total(self) -> bool {
        &&& self.left matches Some(f) ==> forall|i: u32| call_requires(f, (i,))
        &&& self.right matches Some(g) ==> forall|i: u32| call_requires(g, (i,))
    }

    /// The generator of the left side, if there is one.
    pub closed spec fn left_generator(self) -> Option<L> {
        self.left
    }

    /// The generator of the right side, if there is one.
    pub closed spec fn right_generator(self) -> Option<R> {
        self.right
    }

    /// The value with the given generators.
    pub fn new(left: Option<L>, right: Option<R>) -> (s: Self)
        requires
            left matches Some(f) ==> forall|i: u32| call_requires(f, (i,)),
            right matches Some(g) ==> forall|i: u32| call_requires(g, (i,)),
        ensures
            s.left_generator() == left,
            s.right_generator() == right,
    {
        SurrealInf { left, right }
    }

    /// The left option at `index`: what the left generator gives there,
    /// and nothing where there is no left generator.
    pub fn left(&self, index: u32) -> (r: Option<Surreal>)
        ensures
            match self.left_generator() {
                None => r is None,
                Some(f) => call_ensures(f, (index,), r),
            },
    {
        proof {
            use_type_invariant(self);
        }
        match &self.left {
            None => None,
            Some(f) => f(index),
        }
    }

    /// The right option at `index`: what the right generator gives
    /// there, and nothing where there is no right generator.
    pub fn right(&self, index: u32) -> (r: Option<Surreal>)
        ensures
            match self.right_generator() {
                None => r is None,
                Some(g) => call_ensures(g, (index,), r),
            },
    {
        proof {
            use_type_invariant(self);
        }
        match &self.right {
            None => None,
            Some(g) => g(index),
        }
    }
}

} // verus!
