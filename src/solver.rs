//! The propagation loop: strategies tried in a fixed order until the board is
//! solved or none of them makes progress.

use crate::data::{solution_for, Cell, Coord, Grid, Reduction, Solution};
use crate::strategies::naked_pair::{pair_eliminates, pairs_consistent, NakedPair};
use crate::strategies::region_intersection::{intersection_eliminates, RegionIntersection};
use crate::strategies::simple_link::{link_eliminates, SimpleLink};
use crate::strategies::single::Single;
use crate::strategies::{singles, ReduceStrategy, SolveStrategy};
use vstd::prelude::*;
use vstd::set_lib::lemma_len_subset;

verus! {

/// The number of candidates that the cells list in all.
pub open spec fn candidate_total(cells: Seq<Cell>) -> int
    decreases cells.len(),
{
    if cells.len() == 0 {
        0
    } else {
        candidate_total(cells.drop_last()) + cells.last().candidates.len()
    }
}

/// A list without duplicates that holds only values of another holds at most
/// as many, and fewer when it misses one of them.
proof fn lemma_subset_len(a: Seq<u8>, b: Seq<u8>, w: u8)
    requires
        a.no_duplicates(),
        b.no_duplicates(),
        forall|v: u8| a.contains(v) ==> b.contains(v),
    ensures
        a.len() <= b.len(),
        b.contains(w) && !a.contains(w) ==> a.len() < b.len(),
{
    broadcast use vstd::seq_lib::seq_to_set_is_finite;
    broadcast use vstd::set::axiom_set_remove_len;

    a.unique_seq_to_set();
    b.unique_seq_to_set();
    lemma_len_subset(a.to_set(), b.to_set());
    if b.contains(w) && !a.contains(w) {
        assert(b.to_set().contains(w));
        lemma_len_subset(a.to_set(), b.to_set().remove(w));
    }
}

/// Cells that each list no more candidates than before, one of them fewer,
/// list fewer in all.
proof fn lemma_total_shrinks(before: Seq<Cell>, after: Seq<Cell>, j: int)
    requires
        before.len() == after.len(),
        forall|i: int| 0 <= i < before.len() ==> (#[trigger] after[i]).candidates.len() <= before[i].candidates.len(),
    ensures
        candidate_total(after) <= candidate_total(before),
        0 <= j < before.len() && after[j].candidates.len() < before[j].candidates.len() ==> candidate_total(after)
            < candidate_total(before),
    decreases before.len(),
{
    if before.len() > 0 {
        let n = before.len() - 1;
        assert forall|i: int| 0 <= i < n implies (#[trigger] after.drop_last()[i]).candidates.len()
            <= before.drop_last()[i].candidates.len() by {
            assert(after.drop_last()[i] == after[i]);
            assert(before.drop_last()[i] == before[i]);
        }
        assert(after[n].candidates.len() <= before[n].candidates.len());
        if 0 <= j < n {
            assert(after.drop_last()[j] == after[j]);
            assert(before.drop_last()[j] == before[j]);
        }
        lemma_total_shrinks(before.drop_last(), after.drop_last(), j);
    }
}

/// Applying solutions that name candidates of cells, at least one, shrinks the
/// number of candidates.
pub proof fn lemma_solutions_progress(g: Grid, next: Grid, sols: Seq<Solution>)
    requires
        g.wf(),
        next.wf(),
        g.after_solutions(next, sols),
        g.valid_solutions(sols),
        sols.len() > 0,
    ensures
        candidate_total(next.cells@) < candidate_total(g.cells@),
{
    let c = sols[0].coord;
    g.lemma_cell(c);
    let j = crate::data::index_of(g.size as int, c);
    crate::data::lemma_solution_for(sols, c);
    assert forall|i: int| 0 <= i < g.cells.len() implies (#[trigger] next.cells@[i]).candidates.len()
        <= g.cells@[i].candidates.len() by {
        assert(g.cells@[i].wf(g.size as int));
        assert(next.cells@[i].wf(g.size as int));
        if solution_for(sols, g.cells@[i].coord) is None {
            assert forall|v: u8| next.cells@[i].candidates@.contains(v) implies g.cells@[i].candidates@.contains(v) by {
                assert(next.cells@[i].has_candidate(v));
            }
            lemma_subset_len(next.cells@[i].candidates@, g.cells@[i].candidates@, 0);
        }
    }
    if solution_for(sols, c) is None {
        assert(sols[0].coord == c);
    }
    assert(g.cells@[j].candidates@.contains(sols[0].value));
    lemma_total_shrinks(g.cells@, next.cells@, j);
}

/// Applying reductions that name candidates of cells, at least one, shrinks
/// the number of candidates.
pub proof fn lemma_reductions_progress(g: Grid, next: Grid, reds: Seq<Reduction>)
    requires
        g.wf(),
        next.wf(),
        g.after_reductions(next, reds),
        g.valid_reductions(reds),
        reds.len() > 0,
    ensures
        candidate_total(next.cells@) < candidate_total(g.cells@),
{
    let c = reds[0].coord;
    let w = reds[0].candidate;
    g.lemma_cell(c);
    let j = crate::data::index_of(g.size as int, c);
    assert forall|i: int| 0 <= i < g.cells.len() implies (#[trigger] next.cells@[i]).candidates.len()
        <= g.cells@[i].candidates.len() by {
        assert(g.cells@[i].wf(g.size as int));
        assert(next.cells@[i].wf(g.size as int));
        assert forall|v: u8| next.cells@[i].candidates@.contains(v) implies g.cells@[i].candidates@.contains(v) by {
            assert(next.cells@[i].has_candidate(v));
        }
        lemma_subset_len(next.cells@[i].candidates@, g.cells@[i].candidates@, w);
    }
    assert(Grid::reduced_by(reds, c, w));
    assert(!next.cells@[j].has_candidate(w));
    assert(g.cells@[j].wf(g.size as int));
    assert(next.cells@[j].wf(g.size as int));
    assert(g.cells@[j].coord == c);
    assert(!next.cells@[j].candidates@.contains(w));
    assert forall|v: u8| next.cells@[j].candidates@.contains(v) implies g.cells@[j].candidates@.contains(v) by {
        assert(next.cells@[j].has_candidate(v));
    }
    lemma_subset_len(next.cells@[j].candidates@, g.cells@[j].candidates@, w);
    lemma_total_shrinks(g.cells@, next.cells@, j);
}


/// The total is at most `size` per cell.
proof fn lemma_total_bound(cells: Seq<Cell>, size: int)
    requires
        forall|i: int| 0 <= i < cells.len() ==> (#[trigger] cells[i]).candidates.len() <= size,
        0 <= size,
    ensures
        0 <= candidate_total(cells) <= cells.len() * size,
    decreases cells.len(),
{
    if cells.len() > 0 {
        assert forall|i: int| 0 <= i < cells.len() - 1 implies (#[trigger] cells.drop_last()[i]).candidates.len() <= size by {
            assert(cells.drop_last()[i] == cells[i]);
        }
        lemma_total_bound(cells.drop_last(), size);
        assert(cells[cells.len() - 1].candidates.len() <= size);
        assert((cells.len() - 1) * size + size == cells.len() * size) by (nonlinear_arith);
    }
}

/// No pair of regions justifies a reduction by intersection.
pub open spec fn no_intersections(g: Grid) -> bool {
    forall|a: int, b: int, c: Coord, v: u8| !#[trigger] intersection_eliminates(g, a, b, c, v)
}

/// No naked pair justifies a reduction.
pub open spec fn no_naked_pairs(g: Grid) -> bool {
    forall|r: int, p: Coord, c: Coord, v: u8| !#[trigger] pair_eliminates(g, r, p, c, v)
}

/// No conjugate pair justifies a reduction.
pub open spec fn no_simple_links(g: Grid) -> bool {
    forall|a: int, c: Coord, v: u8| !#[trigger] link_eliminates(g, a, v, c)
}

/// What one round of propagation did.
pub enum Step {
    /// Cells with a single candidate were solved.
    Singles(Vec<Solution>),
    /// Candidates were removed where one region confines a value to another.
    Intersections(Vec<Reduction>),
    /// Candidates were removed around naked pairs.
    NakedPairs(Vec<Reduction>),
    /// Candidates were removed through conjugate pairs.
    SimpleLinks(Vec<Reduction>),
    /// No strategy makes progress.
    Stuck,
    /// A region has three cells that list the same two candidates.
    Contradiction,
}

/// Tries the strategies in order (singles, region intersections, naked pairs,
/// simple links) and applies what the first one that finds anything finds.
pub fn step(grid: &mut Grid) -> (r: Step)
    requires
        old(grid).wf(),
    ensures
        final(grid).wf(),
        old(grid).sound() ==> final(grid).sound(),
        r is Stuck || r is Contradiction ==> *final(grid) == *old(grid),
        !(r is Stuck || r is Contradiction) ==> candidate_total(final(grid).cells@) < candidate_total(old(grid).cells@),
        !(r is Singles) ==> singles(old(grid).cells@).len() == 0,
        !(r is Singles || r is Intersections) ==> no_intersections(*old(grid)),
        !(r is Singles || r is Intersections || r is Contradiction) ==> pairs_consistent(*old(grid)),
        r is SimpleLinks || r is Stuck ==> no_naked_pairs(*old(grid)),
        r is Stuck ==> no_simple_links(*old(grid)),
        r is Contradiction ==> !pairs_consistent(*old(grid)),
        r matches Step::Singles(s) ==> s@ == singles(old(grid).cells@) && old(grid).after_solutions(*final(grid), s@),
        r matches Step::Intersections(rs) ==> old(grid).after_reductions(*final(grid), rs@) && forall|red: Reduction|
            #[trigger] rs@.contains(red) <==> exists|a: int, b: int|
                #[trigger] intersection_eliminates(*old(grid), a, b, red.coord, red.candidate),
        r matches Step::NakedPairs(rs) ==> old(grid).after_reductions(*final(grid), rs@) && forall|red: Reduction|
            #[trigger] rs@.contains(red) <==> exists|reg: int, p: Coord|
                #[trigger] pair_eliminates(*old(grid), reg, p, red.coord, red.candidate),
        r matches Step::SimpleLinks(rs) ==> old(grid).after_reductions(*final(grid), rs@) && forall|red: Reduction|
            #[trigger] rs@.contains(red) <==> exists|a: int| #[trigger] link_eliminates(*old(grid), a, red.candidate, red.coord),
{
    let ghost g0 = *grid;
    let solutions = Single::solutions(&*grid);
    if solutions.len() > 0 {
        grid.apply_solutions(solutions.as_slice());
        proof {
            lemma_solutions_progress(g0, *grid, solutions@);
        }
        return Step::Singles(solutions);
    }
    let reductions = RegionIntersection::reduce_candidates(&*grid);
    if reductions.len() > 0 {
        grid.apply_reductions(reductions.as_slice());
        proof {
            lemma_reductions_progress(g0, *grid, reductions@);
        }
        return Step::Intersections(reductions);
    }
    proof {
        assert forall|a: int, b: int, c: Coord, v: u8| !#[trigger] intersection_eliminates(g0, a, b, c, v) by {
            if intersection_eliminates(g0, a, b, c, v) {
                let red = Reduction { coord: c, candidate: v };
                assert(*grid == g0);
                assert(intersection_eliminates(*grid, a, b, red.coord, red.candidate));
                assert(reductions@.contains(red));
            }
        }
    }
    if !NakedPair::is_consistent(&*grid) {
        return Step::Contradiction;
    }
    let reductions = NakedPair::reduce_candidates(&*grid);
    if reductions.len() > 0 {
        grid.apply_reductions(reductions.as_slice());
        proof {
            lemma_reductions_progress(g0, *grid, reductions@);
        }
        return Step::NakedPairs(reductions);
    }
    proof {
        assert forall|r: int, p: Coord, c: Coord, v: u8| !#[trigger] pair_eliminates(g0, r, p, c, v) by {
            if pair_eliminates(g0, r, p, c, v) {
                let red = Reduction { coord: c, candidate: v };
                assert(*grid == g0);
                assert(pair_eliminates(*grid, r, p, red.coord, red.candidate));
                assert(reductions@.contains(red));
            }
        }
    }
    let reductions = SimpleLink::reduce_candidates(&*grid);
    if reductions.len() > 0 {
        grid.apply_reductions(reductions.as_slice());
        proof {
            lemma_reductions_progress(g0, *grid, reductions@);
        }
        return Step::SimpleLinks(reductions);
    }
    proof {
        assert forall|a: int, c: Coord, v: u8| !#[trigger] link_eliminates(g0, a, v, c) by {
            if link_eliminates(g0, a, v, c) {
                let red = Reduction { coord: c, candidate: v };
                assert(*grid == g0);
                assert(link_eliminates(*grid, a, red.candidate, red.coord));
                assert(reductions@.contains(red));
            }
        }
    }
    Step::Stuck
}

/// Runs `step` until the board is solved or no strategy makes progress.
/// Returns whether the board was solved, and how many steps made progress:
/// never more than the candidates that the board listed at the start.
pub fn solve(grid: &mut Grid) -> (r: (bool, usize))
    requires
        old(grid).wf(),
    ensures
        final(grid).wf(),
        old(grid).sound() ==> final(grid).sound(),
        r.0 == final(grid).solved(),
        r.1 <= candidate_total(old(grid).cells@),
        !r.0 ==> singles(final(grid).cells@).len() == 0 && no_intersections(*final(grid)) && (!pairs_consistent(
            *final(grid),
        ) || (no_naked_pairs(*final(grid)) && no_simple_links(*final(grid)))),
{
    let ghost g0 = *grid;
    proof {
        assert forall|i: int| 0 <= i < g0.cells.len() implies (#[trigger] g0.cells@[i]).candidates.len() <= 255 by {
            assert(g0.cells@[i].wf(g0.size as int));
        }
        lemma_total_bound(g0.cells@, 255);
        assert(g0.cells.len() * 255 <= 255 * 255 * 255) by (nonlinear_arith)
            requires
                g0.cells.len() == g0.size * g0.size,
                g0.size <= 255,
        ;
    }
    let mut steps: usize = 0;
    loop
        invariant
            g0 == *old(grid),
            grid.wf(),
            g0.sound() ==> grid.sound(),
            0 <= candidate_total(grid.cells@),
            steps + candidate_total(grid.cells@) <= candidate_total(g0.cells@),
            candidate_total(g0.cells@) <= 255 * 255 * 255,
        decreases candidate_total(grid.cells@),
    {
        if grid.is_solved() {
            return (true, steps);
        }
        let ghost before = *grid;
        match step(grid) {
            Step::Stuck | Step::Contradiction => {
                proof {
                    assert(*grid == before);
                }
                return (false, steps);
            },
            _ => {
                proof {
                    assert forall|i: int| 0 <= i < grid.cells.len() implies (#[trigger] grid.cells@[i]).candidates.len() <= 255 by {
                        assert(grid.cells@[i].wf(grid.size as int));
                    }
                    lemma_total_bound(grid.cells@, 255);
                }
                steps += 1;
            },
        }
    }
}

} // verus!
