use super::ReduceStrategy;
use crate::data::{coords_contain, vec_contains, Coord, Grid, Reduction};
use vstd::prelude::*;

verus! {

/// Region Intersection is a way to reduce the possible candidates in the Sudoku grid by looking at ways regions intersect.
/// For example, if the first row of the grid only has 7 as a candidate in the first three cells, there is an intersection with
/// the top-left 3x3 subgrid square. The number 7 cannot be a candidate in any of the other cells in this square. If we put a 7
/// in any of the other cells, there would be no way to put a 7 on the first row.
/// Inversely, if the only places that 7 is a candidate in a 3x3 subgrid are the first 3 cells, we can conclude that 7 cannot
/// occur anywhere else on the top row.
pub struct RegionIntersection {}

/// Some cell of region `a` lists `v`.
pub open spec fn region_lists(g: Grid, a: int, v: u8) -> bool {
    exists|d: Coord| g.regions@[a].has(d) && #[trigger] g.cell(d).has_candidate(v)
}

/// Every cell of region `a` that lists `v` lies in region `b`.
pub open spec fn confined_to(g: Grid, a: int, b: int, v: u8) -> bool {
    forall|d: Coord| g.regions@[a].has(d) && #[trigger] g.cell(d).has_candidate(v) ==> g.regions@[b].has(d)
}

/// Region `a` places `v` inside region `b`, so `v` leaves the cell at `c`,
/// which lies in `b` outside `a`.
pub open spec fn intersection_eliminates(g: Grid, a: int, b: int, c: Coord, v: u8) -> bool {
    &&& 0 <= a < g.regions.len()
    &&& 0 <= b < g.regions.len()
    &&& a != b
    &&& 1 <= v <= g.size
    &&& region_lists(g, a, v)
    &&& confined_to(g, a, b, v)
    &&& g.regions@[b].has(c)
    &&& !g.regions@[a].has(c)
    &&& g.cell(c).has_candidate(v)
}

/// Some pair of regions, the first below `n`, justifies `red`.
pub open spec fn eliminated_before(g: Grid, n: int, red: Reduction) -> bool {
    exists|a: int, b: int| 0 <= a < n && #[trigger] intersection_eliminates(g, a, b, red.coord, red.candidate)
}

impl ReduceStrategy for RegionIntersection {
    open spec fn admits(grid: Grid) -> bool {
        true
    }

    open spec fn eliminates(grid: Grid, red: Reduction) -> bool {
        exists|a: int, b: int| #[trigger] intersection_eliminates(grid, a, b, red.coord, red.candidate)
    }

    fn reduce_candidates(grid: &Grid) -> (r: Vec<Reduction>)
        ensures
            forall|red: Reduction| #[trigger] r@.contains(red) <==> exists|a: int, b: int|
                #[trigger] intersection_eliminates(*grid, a, b, red.coord, red.candidate),
    {
        let mut reductions: Vec<Reduction> = Vec::new();
        let nr = grid.regions.len();
        let mut a: usize = 0;
        while a < nr
            invariant
                grid.wf(),
                nr == grid.regions.len(),
                a <= nr,
                grid.valid_reductions(reductions@),
                forall|red: Reduction| #[trigger] reductions@.contains(red) <==> eliminated_before(*grid, a as int, red),
            decreases nr - a,
        {
            let region = &grid.regions[a];
            proof {
                assert(grid.regions@[a as int].wf(grid.size as int));
            }
            let mut v: u16 = 1;
            while v <= grid.size as u16
                invariant
                    grid.wf(),
                    nr == grid.regions.len(),
                    a < nr,
                    *region == grid.regions@[a as int],
                    1 <= v <= grid.size + 1,
                    grid.valid_reductions(reductions@),
                    forall|red: Reduction| #[trigger] reductions@.contains(red) <==> (eliminated_before(*grid, a as int, red)
                        || (red.candidate < v && exists|b: int| #[trigger] intersection_eliminates(*grid, a as int, b, red.coord, red.candidate))),
                decreases grid.size + 1 - v,
            {
                let candidate = v as u8;
                // Collect the cells of the region that list the value.
                let with = region.cells_with_candidate(grid, candidate);
                if with.len() > 0 {
                    proof {
                        assert(with@.contains(with@[0]));
                    }
                    // The other regions that hold all of those cells lose the value elsewhere.
                    let inter = grid.regions_for_coords(&with);
                    proof {
                        assert forall|b: int| 0 <= b < nr implies (#[trigger] inter@.contains(b as usize) <==> confined_to(*grid, a as int, b, candidate)) by {
                            if inter@.contains(b as usize) {
                                assert forall|d: Coord| grid.regions@[a as int].has(d) && #[trigger] grid.cell(d).has_candidate(candidate) implies grid.regions@[b].has(d) by {
                                    assert(with@.contains(d));
                                    let j = choose|j: int| 0 <= j < with@.len() && with@[j] == d;
                                }
                            }
                            if confined_to(*grid, a as int, b, candidate) {
                                assert forall|j: int| 0 <= j < with@.len() implies grid.regions@[b].has(#[trigger] with@[j]) by {
                                    assert(with@.contains(with@[j]));
                                }
                            }
                        }
                    }
                    let mut t: usize = 0;
                    while t < inter.len()
                        invariant
                            grid.wf(),
                            nr == grid.regions.len(),
                            a < nr,
                            1 <= v <= grid.size,
                            candidate == v,
                            region_lists(*grid, a as int, candidate),
                            forall|i: int| 0 <= i < inter@.len() ==> (#[trigger] inter@[i]) < nr,
                            forall|b: int| 0 <= b < nr ==> (#[trigger] inter@.contains(b as usize) <==> confined_to(*grid, a as int, b, candidate)),
                            forall|c: Coord| #[trigger] with@.contains(c) <==> (grid.regions@[a as int].has(c) && grid.cell(c).has_candidate(candidate)),
                            t <= inter.len(),
                            grid.valid_reductions(reductions@),
                            forall|red: Reduction| #[trigger] reductions@.contains(red) <==> (eliminated_before(*grid, a as int, red)
                                || (red.candidate < v && exists|b: int| #[trigger] intersection_eliminates(*grid, a as int, b, red.coord, red.candidate))
                                || (red.candidate == v && exists|j: int| 0 <= j < t && #[trigger] intersection_eliminates(*grid, a as int, inter@[j] as int, red.coord, red.candidate))),
                        decreases inter.len() - t,
                    {
                        let b = inter[t];
                        if b != a {
                            proof {
                                assert(grid.regions@[b as int].wf(grid.size as int));
                                assert(inter@.contains(inter@[t as int]));
                                assert(inter@.contains((b as int) as usize));
                            }
                            let cells = grid.cells_for_region(&grid.regions[b]);
                            let ghost m = grid.regions@[b as int].members();
                            let mut k: usize = 0;
                            while k < cells.len()
                                invariant
                                    grid.wf(),
                                    nr == grid.regions.len(),
                                    a < nr,
                                    b < nr,
                                    b != a,
                                    b == inter@[t as int],
                                    t < inter.len(),
                                    1 <= v <= grid.size,
                                    candidate == v,
                                    region_lists(*grid, a as int, candidate),
                                    confined_to(*grid, a as int, b as int, candidate),
                                    m == grid.regions@[b as int].members(),
                                    grid.regions@[b as int].wf(grid.size as int),
                                    cells@.len() == m.len(),
                                    forall|j: int| 0 <= j < cells@.len() ==> *cells@[j] == grid.cell(#[trigger] m[j]),
                                    forall|c: Coord| #[trigger] with@.contains(c) <==> (grid.regions@[a as int].has(c) && grid.cell(c).has_candidate(candidate)),
                                    k <= cells.len(),
                                    grid.valid_reductions(reductions@),
                                    forall|red: Reduction| #[trigger] reductions@.contains(red) <==> (eliminated_before(*grid, a as int, red)
                                        || (red.candidate < v && exists|b: int| #[trigger] intersection_eliminates(*grid, a as int, b, red.coord, red.candidate))
                                        || (red.candidate == v && exists|j: int| 0 <= j < t && #[trigger] intersection_eliminates(*grid, a as int, inter@[j] as int, red.coord, red.candidate))
                                        || (red.candidate == v && intersection_eliminates(*grid, a as int, b as int, red.coord, red.candidate) && m.take(k as int).contains(red.coord))),
                                decreases cells.len() - k,
                            {
                                let cell = cells[k];
                                proof {
                                    assert(grid.regions@[b as int].has(m[k as int]));
                                    grid.lemma_cell(m[k as int]);
                                    assert(m.take(k + 1) == m.take(k as int).push(m[k as int]));
                                    crate::data::lemma_push_fresh(m.take(k as int), m[k as int]);
                                }
                                if cell.is_empty() && !coords_contain(&with, &cell.coord) && vec_contains(&cell.candidates, candidate) {
                                    let red = Reduction::new(cell.coord, candidate);
                                    proof {
                                        assert(intersection_eliminates(*grid, a as int, b as int, red.coord, red.candidate));
                                        crate::data::lemma_push_fresh(reductions@, red);
                                    }
                                    reductions.push(red);
                                }
                                k += 1;
                            }
                            proof {
                                assert(m.take(k as int) == m);
                            }
                        }
                        proof {
                            assert forall|red: Reduction| #[trigger] reductions@.contains(red) <==> (eliminated_before(*grid, a as int, red)
                                || (red.candidate < v && exists|b: int| #[trigger] intersection_eliminates(*grid, a as int, b, red.coord, red.candidate))
                                || (red.candidate == v && exists|j: int| 0 <= j < t + 1 && #[trigger] intersection_eliminates(*grid, a as int, inter@[j] as int, red.coord, red.candidate))) by {
                                if red.candidate == v && intersection_eliminates(*grid, a as int, b as int, red.coord, red.candidate) {
                                    assert(grid.regions@[b as int].has(red.coord));
                                }
                            }
                        }
                        t += 1;
                    }
                    proof {
                        assert forall|red: Reduction| #[trigger] reductions@.contains(red) <==> (eliminated_before(*grid, a as int, red)
                            || (red.candidate < v + 1 && exists|b: int| #[trigger] intersection_eliminates(*grid, a as int, b, red.coord, red.candidate))) by {
                            if red.candidate == v && exists|b: int| #[trigger] intersection_eliminates(*grid, a as int, b, red.coord, red.candidate) {
                                let b = choose|b: int| #[trigger] intersection_eliminates(*grid, a as int, b, red.coord, red.candidate);
                                assert(inter@.contains(b as usize));
                                let j = choose|j: int| 0 <= j < inter@.len() && inter@[j] == b as usize;
                                assert(intersection_eliminates(*grid, a as int, inter@[j] as int, red.coord, red.candidate));
                            }
                        }
                    }
                } else {
                    proof {
                        assert(!region_lists(*grid, a as int, candidate)) by {
                            if region_lists(*grid, a as int, candidate) {
                                let d = choose|d: Coord| grid.regions@[a as int].has(d) && #[trigger] grid.cell(d).has_candidate(candidate);
                                assert(with@.contains(d));
                            }
                        }
                    }
                }
                v += 1;
            }
            proof {
                assert forall|red: Reduction| #[trigger] reductions@.contains(red) <==> eliminated_before(*grid, a + 1, red) by {
                    if eliminated_before(*grid, a + 1, red) && !eliminated_before(*grid, a as int, red) {
                        let (a2, b2) = choose|a2: int, b2: int| 0 <= a2 < a + 1 && #[trigger] intersection_eliminates(*grid, a2, b2, red.coord, red.candidate);
                        assert(a2 == a);
                    }
                    if exists|b: int| #[trigger] intersection_eliminates(*grid, a as int, b, red.coord, red.candidate) {
                        let b = choose|b: int| #[trigger] intersection_eliminates(*grid, a as int, b, red.coord, red.candidate);
                        assert(eliminated_before(*grid, a + 1, red));
                    }
                }
            }
            a += 1;
        }
        proof {
            assert forall|red: Reduction| #[trigger] reductions@.contains(red) <==> exists|a: int, b: int|
                #[trigger] intersection_eliminates(*grid, a, b, red.coord, red.candidate) by {
                if exists|a: int, b: int| #[trigger] intersection_eliminates(*grid, a, b, red.coord, red.candidate) {
                    let (a2, b2) = choose|a2: int, b2: int| #[trigger] intersection_eliminates(*grid, a2, b2, red.coord, red.candidate);
                    assert(eliminated_before(*grid, nr as int, red));
                }
            }
        }
        reductions
    }
}

} // verus!
