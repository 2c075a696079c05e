//! The ceilings that keep the expensive operations within reach.

use vstd::prelude::*;

verus! {

/// How far a search for a real number, and the products it takes, may
/// go before they give up with `DepthExceeded`.
#[derive(Debug, Clone, Copy, PartialEq, Eq, Structural)]
pub struct Ceiling {
    /// The most that the two factors of a product may be nested
    /// together, unless one of them is zero, one or minus one.
    pub nesting: usize,
    /// The most steps that a search may advance in all.
    pub steps: usize,
    /// The deepest that the cursor of a search may be nested.
    pub depth: usize,
}

impl Ceiling {
    /// The ceilings with the given bounds.
    pub fn new(nesting: usize, steps: usize, depth: usize) -> (c: Ceiling)
        ensures
            c == (Ceiling { nesting, steps, depth }),
    {
        Ceiling { nesting, steps, depth }
    }
}

impl Default for Ceiling {
    /// Ceilings under which every answer comes quickly: products of
    /// factors nested 4 deep together, searches of 8 steps with cursors
    /// nested 10 deep.
    fn default() -> (c: Ceiling)
        ensures
            c == (Ceiling { nesting: 4, steps: 8, depth: 10 }),
    {
        Ceiling { nesting: 4, steps: 8, depth: 10 }
    }
}

} // verus!
