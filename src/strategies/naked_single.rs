use super::{single_solutions, singles, SolveStrategy};
use crate::data::{Grid, Solution};
use vstd::prelude::*;

verus! {

/// Naked singles are cells which have only one candidate.
pub struct NakedSingle {}

impl SolveStrategy for NakedSingle {
    open spec fn found(grid: Grid) -> Seq<Solution> {
        singles(grid.cells@)
    }

    fn solutions(grid: &Grid) -> (r: Vec<Solution>)
        ensures
            r@ == singles(grid.cells@),
    {
        single_solutions(grid)
    }
}

} // verus!
