//! Strategies: each reads the board and proposes solutions or reductions,
//! which the board then applies.

pub mod naked_pair;
pub mod naked_single;
pub mod region_intersection;
pub mod simple_link;
pub mod single;

use crate::data::{Cell, Grid, Reduction, Solution};
use crate::solver::{candidate_total, lemma_reductions_progress, lemma_solutions_progress};
use vstd::prelude::*;

verus! {

/// A strategy that finds cells whose value is forced.
pub trait SolveStrategy {
    /// The solutions that the strategy finds on a board, in order.
    spec fn found(grid: Grid) -> Seq<Solution>;

    fn solutions(grid: &Grid) -> (r: Vec<Solution>)
        requires
            grid.wf(),
        ensures
            r@ == Self::found(*grid),
            grid.valid_solutions(r@),
    ;

    /// Applies what `solutions` finds, and reports whether it found anything.
    fn try_solution(grid: &mut Grid) -> (r: bool)
        requires
            old(grid).wf(),
        ensures
            final(grid).wf(),
            final(grid).size == old(grid).size,
            final(grid).regions == old(grid).regions,
            old(grid).sound() ==> final(grid).sound(),
            r == (Self::found(*old(grid)).len() > 0),
            r ==> old(grid).after_solutions(*final(grid), Self::found(*old(grid))),
            !r ==> *final(grid) == *old(grid),
            r ==> candidate_total(final(grid).cells@) < candidate_total(old(grid).cells@),
    {
        let ghost g0 = *grid;
        let solutions = Self::solutions(&*grid);
        if !solutions.is_empty() {
            grid.apply_solutions(solutions.as_slice());
            proof {
                lemma_solutions_progress(g0, *grid, solutions@);
            }
        }
        !solutions.is_empty()
    }
}

/// A strategy that finds candidates that cells cannot hold.
pub trait ReduceStrategy {
    /// The boards on which the strategy is meaningful.
    spec fn admits(grid: Grid) -> bool;

    /// The strategy justifies taking `red.candidate` from the cell at `red.coord`.
    spec fn eliminates(grid: Grid, red: Reduction) -> bool;

    fn reduce_candidates(grid: &Grid) -> (r: Vec<Reduction>)
        requires
            grid.wf(),
            Self::admits(*grid),
        ensures
            forall|red: Reduction| #[trigger] r@.contains(red) <==> Self::eliminates(*grid, red),
            grid.valid_reductions(r@),
    ;

    /// Applies what `reduce_candidates` finds, and reports whether it found anything.
    fn try_reduction(grid: &mut Grid) -> (r: bool)
        requires
            old(grid).wf(),
            Self::admits(*old(grid)),
        ensures
            final(grid).wf(),
            final(grid).size == old(grid).size,
            final(grid).regions == old(grid).regions,
            old(grid).sound() ==> final(grid).sound(),
            r == exists|red: Reduction| #[trigger] Self::eliminates(*old(grid), red),
            r ==> exists|reds: Seq<Reduction>|
                old(grid).after_reductions(*final(grid), reds) && forall|red: Reduction|
                    #[trigger] reds.contains(red) <==> Self::eliminates(*old(grid), red),
            !r ==> *final(grid) == *old(grid),
            r ==> candidate_total(final(grid).cells@) < candidate_total(old(grid).cells@),
    {
        let ghost g0 = *grid;
        let reductions = Self::reduce_candidates(&*grid);
        if !reductions.is_empty() {
            grid.apply_reductions(reductions.as_slice());
            proof {
                lemma_reductions_progress(g0, *grid, reductions@);
                assert(reductions@.contains(reductions@[0]));
                assert(Self::eliminates(g0, reductions@[0]));
            }
        } else {
            proof {
                assert forall|red: Reduction| !#[trigger] Self::eliminates(g0, red) by {
                    if Self::eliminates(g0, red) {
                        assert(reductions@.contains(red));
                    }
                }
            }
        }
        !reductions.is_empty()
    }
}

/// The solutions that an unsolved cell with a single candidate gives, one per
/// such cell, in the order of `cells`.
pub open spec fn singles(cells: Seq<Cell>) -> Seq<Solution>
    decreases cells.len(),
{
    if cells.len() == 0 {
        Seq::empty()
    } else {
        let c = cells.last();
        let rest = singles(cells.drop_last());
        if c.value is None && c.candidates.len() == 1 {
            rest.push(Solution { coord: c.coord, value: c.candidates@[0] })
        } else {
            rest
        }
    }
}

/// Each solution in `singles(cells)` names the only candidate of one of the
/// cells.
pub proof fn lemma_singles_come_from_cells(cells: Seq<Cell>)
    ensures
        forall|k: int|
            0 <= k < singles(cells).len() ==> exists|i: int|
                0 <= i < cells.len() && (#[trigger] cells[i]).coord == (#[trigger] singles(cells)[k]).coord
                    && cells[i].candidates@ == seq![singles(cells)[k].value],
    decreases cells.len(),
{
    if cells.len() > 0 {
        let rest = cells.drop_last();
        lemma_singles_come_from_cells(rest);
        let n = cells.len() - 1;
        assert forall|k: int| 0 <= k < singles(cells).len() implies exists|i: int|
            0 <= i < cells.len() && (#[trigger] cells[i]).coord == (#[trigger] singles(cells)[k]).coord
                && cells[i].candidates@ == seq![singles(cells)[k].value] by {
            if k < singles(rest).len() {
                let i = choose|i: int|
                    0 <= i < rest.len() && (#[trigger] rest[i]).coord == singles(rest)[k].coord
                        && rest[i].candidates@ == seq![singles(rest)[k].value];
                assert(cells[i] == rest[i]);
            } else {
                assert(cells[n].candidates@ == seq![cells[n].candidates@[0]]);
            }
        }
    }
}

/// On a board whose candidates are sound, no solution that singles propose
/// repeats the value of a solved cell that shares a region with its cell.
pub proof fn lemma_single_consistent(g: Grid)
    requires
        g.wf(),
        g.sound(),
    ensures
        forall|k: int|
            0 <= k < singles(g.cells@).len() ==> !g.seen_from(
                #[trigger] singles(g.cells@)[k].coord,
                singles(g.cells@)[k].value,
            ),
{
    lemma_singles_come_from_cells(g.cells@);
    assert forall|k: int| 0 <= k < singles(g.cells@).len() implies !g.seen_from(
        #[trigger] singles(g.cells@)[k].coord,
        singles(g.cells@)[k].value,
    ) by {
        let s = singles(g.cells@)[k];
        let i = choose|i: int|
            0 <= i < g.cells.len() && (#[trigger] g.cells@[i]).coord == s.coord && g.cells@[i].candidates@ == seq![s.value];
        assert(g.cells@[i].candidates@[0] == s.value);
        assert(g.cells@[i].has_candidate(s.value));
    }
}

/// A cell with a single candidate is solved by it.
pub fn single_solutions(grid: &Grid) -> (r: Vec<Solution>)
    requires
        grid.wf(),
    ensures
        r@ == singles(grid.cells@),
        grid.valid_solutions(r@),
{
    let mut found: Vec<Solution> = Vec::new();
    let mut i: usize = 0;
    while i < grid.cells.len()
        invariant
            grid.wf(),
            i <= grid.cells.len(),
            found@ == singles(grid.cells@.take(i as int)),
            grid.valid_solutions(found@),
        decreases grid.cells.len() - i,
    {
        let cell = &grid.cells[i];
        proof {
            assert(grid.cells@.take(i + 1).drop_last() == grid.cells@.take(i as int));
            assert(grid.cells@[i as int].wf(grid.size as int));
            grid.lemma_cell(cell.coord);
        }
        if cell.is_empty() && cell.candidates.len() == 1 {
            let value = cell.candidates[0];
            proof {
                assert(cell.candidates@.contains(value));
            }
            found.push(Solution::new(cell.coord, value));
        }
        i += 1;
    }
    proof {
        assert(grid.cells@.take(i as int) == grid.cells@);
    }
    found
}

} // verus!
