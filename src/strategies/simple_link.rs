use super::ReduceStrategy;
use crate::data::{lemma_push_fresh, vec_contains, Coord, Grid, Reduction};
use vstd::prelude::*;

verus! {

/// When a region has exactly two cells that list a value, one of them holds
/// it; a cell outside the region that shares another region with each of the
/// two cannot hold the value.
pub struct SimpleLink {}

/// In region `a`, the cells at `x` and `y`, and no others, list `v`.
pub open spec fn conjugate_pair(g: Grid, a: int, v: u8, x: Coord, y: Coord) -> bool {
    &&& 0 <= a < g.regions.len()
    &&& x != y
    &&& g.regions@[a].has(x)
    &&& g.regions@[a].has(y)
    &&& g.cell(x).has_candidate(v)
    &&& g.cell(y).has_candidate(v)
    &&& forall|d: Coord| g.regions@[a].has(d) && #[trigger] g.cell(d).has_candidate(v) ==> d == x || d == y
}

/// A region other than `a` holds both `x` and `c`.
pub open spec fn linked_outside(g: Grid, a: int, x: Coord, c: Coord) -> bool {
    exists|r: int| 0 <= r < g.regions.len() && r != a && (#[trigger] g.regions@[r]).has(x) && g.regions@[r].has(c)
}

/// The conjugate pair of `v` in region `a` takes `v` from the cell at `c`,
/// which lies outside `a` and shares another region with each cell of the pair.
pub open spec fn link_eliminates(g: Grid, a: int, v: u8, c: Coord) -> bool {
    &&& 1 <= v <= g.size
    &&& exists|x: Coord, y: Coord|
        #[trigger] conjugate_pair(g, a, v, x, y) && linked_outside(g, a, x, c) && linked_outside(g, a, y, c)
    &&& !g.regions@[a].has(c)
    &&& g.cell(c).has_candidate(v)
}

/// Some region below `n` justifies `red`.
pub open spec fn linked_before(g: Grid, n: int, red: Reduction) -> bool {
    exists|a: int| 0 <= a < n && #[trigger] link_eliminates(g, a, red.candidate, red.coord)
}

/// Some region of `regions`, other than the `a`-th, holds `c`.
fn in_other_region(grid: &Grid, regions: &Vec<usize>, a: usize, c: &Coord) -> (r: bool)
    requires
        forall|i: int| 0 <= i < regions@.len() ==> (#[trigger] regions@[i]) < grid.regions.len(),
    ensures
        r == exists|i: int| 0 <= i < regions@.len() && (#[trigger] regions@[i]) != a && grid.regions@[regions@[i] as int].has(*c),
{
    let mut i: usize = 0;
    while i < regions.len()
        invariant
            i <= regions@.len(),
            forall|i: int| 0 <= i < regions@.len() ==> (#[trigger] regions@[i]) < grid.regions.len(),
            forall|j: int| 0 <= j < i ==> (#[trigger] regions@[j]) == a || !grid.regions@[regions@[j] as int].has(*c),
        decreases regions@.len() - i,
    {
        if regions[i] != a && grid.regions[regions[i]].contains_coord(c) {
            return true;
        }
        i += 1;
    }
    false
}


impl ReduceStrategy for SimpleLink {
    open spec fn admits(grid: Grid) -> bool {
        true
    }

    open spec fn eliminates(grid: Grid, red: Reduction) -> bool {
        exists|a: int| #[trigger] link_eliminates(grid, a, red.candidate, red.coord)
    }

    fn reduce_candidates(grid: &Grid) -> (r: Vec<Reduction>)
        ensures
            forall|red: Reduction| #[trigger] r@.contains(red) <==> exists|a: int|
                #[trigger] link_eliminates(*grid, a, red.candidate, red.coord),
    {
        let mut reductions: Vec<Reduction> = Vec::new();
        let nr = grid.regions.len();
        let mut a: usize = 0;
        while a < nr
            invariant
                grid.wf(),
                nr == grid.regions.len(),
                a <= nr,
                grid.valid_reductions(reductions@),
                forall|red: Reduction| #[trigger] reductions@.contains(red) <==> linked_before(*grid, a as int, red),
            decreases nr - a,
        {
            let region = &grid.regions[a];
            proof {
                assert(grid.regions@[a as int].wf(grid.size as int));
            }
            let mut v: u16 = 1;
            while v <= grid.size as u16
                invariant
                    grid.wf(),
                    nr == grid.regions.len(),
                    a < nr,
                    *region == grid.regions@[a as int],
                    grid.regions@[a as int].wf(grid.size as int),
                    1 <= v <= grid.size + 1,
                    grid.valid_reductions(reductions@),
                    forall|red: Reduction| #[trigger] reductions@.contains(red) <==> (linked_before(*grid, a as int, red)
                        || (red.candidate < v && link_eliminates(*grid, a as int, red.candidate, red.coord))),
                decreases grid.size + 1 - v,
            {
                let candidate = v as u8;
                let with = region.cells_with_candidate(grid, candidate);
                let ghost before = reductions@;
                if with.len() == 2 {
                    let x = with[0];
                    let y = with[1];
                    proof {
                        assert(with@.contains(x));
                        assert(with@.contains(y));
                        assert forall|d: Coord| grid.regions@[a as int].has(d) && #[trigger] grid.cell(d).has_candidate(candidate) implies d == x || d == y by {
                            assert(with@.contains(d));
                        }
                        assert(conjugate_pair(*grid, a as int, candidate, x, y));
                        assert(grid.regions@[a as int].has(x));
                        assert(grid.regions@[a as int].has(y));
                    }
                    // The regions other than this one that hold each cell of the pair.
                    let x_regions = grid.regions_for_coord(&x);
                    let y_regions = grid.regions_for_coord(&y);
                    let mut t: usize = 0;
                    while t < x_regions.len()
                        invariant
                            grid.wf(),
                            nr == grid.regions.len(),
                            a < nr,
                            *region == grid.regions@[a as int],
                            1 <= v <= grid.size,
                            candidate == v,
                            conjugate_pair(*grid, a as int, candidate, x, y),
                            forall|i: int| 0 <= i < x_regions@.len() ==> (#[trigger] x_regions@[i]) < nr,
                            forall|k: usize| #[trigger] x_regions@.contains(k) <==> (k < nr && grid.regions@[k as int].has(x)),
                            forall|i: int| 0 <= i < y_regions@.len() ==> (#[trigger] y_regions@[i]) < nr,
                            forall|k: usize| #[trigger] y_regions@.contains(k) <==> (k < nr && grid.regions@[k as int].has(y)),
                            t <= x_regions@.len(),
                            grid.valid_reductions(reductions@),
                            forall|red: Reduction| #[trigger] reductions@.contains(red) <==> (before.contains(red)
                                || (red.candidate == candidate && !grid.regions@[a as int].has(red.coord)
                                    && grid.cell(red.coord).has_candidate(candidate) && linked_outside(*grid, a as int, y, red.coord)
                                    && exists|j: int| 0 <= j < t && x_regions@[j] != a && (#[trigger] grid.regions@[x_regions@[j] as int]).has(red.coord))),
                        decreases x_regions@.len() - t,
                    {
                        let ra = x_regions[t];
                        if ra != a {
                            proof {
                                assert(grid.regions@[ra as int].wf(grid.size as int));
                            }
                            let cells = grid.cells_for_region(&grid.regions[ra]);
                            let ghost m = grid.regions@[ra as int].members();
                            let mut k: usize = 0;
                            while k < cells.len()
                                invariant
                                    grid.wf(),
                                    nr == grid.regions.len(),
                                    a < nr,
                                    ra < nr,
                                    ra != a,
                                    ra == x_regions@[t as int],
                                    t < x_regions@.len(),
                                    *region == grid.regions@[a as int],
                                    1 <= v <= grid.size,
                                    candidate == v,
                                    m == grid.regions@[ra as int].members(),
                                    grid.regions@[ra as int].wf(grid.size as int),
                                    cells@.len() == m.len(),
                                    forall|j: int| 0 <= j < cells@.len() ==> *cells@[j] == grid.cell(#[trigger] m[j]),
                                    forall|i: int| 0 <= i < y_regions@.len() ==> (#[trigger] y_regions@[i]) < nr,
                                    forall|k: usize| #[trigger] y_regions@.contains(k) <==> (k < nr && grid.regions@[k as int].has(y)),
                                    k <= cells@.len(),
                                    grid.valid_reductions(reductions@),
                                    forall|red: Reduction| #[trigger] reductions@.contains(red) <==> (before.contains(red)
                                        || (red.candidate == candidate && !grid.regions@[a as int].has(red.coord)
                                            && grid.cell(red.coord).has_candidate(candidate) && linked_outside(*grid, a as int, y, red.coord)
                                            && exists|j: int| 0 <= j < t && x_regions@[j] != a && (#[trigger] grid.regions@[x_regions@[j] as int]).has(red.coord))
                                        || (red.candidate == candidate && !grid.regions@[a as int].has(red.coord)
                                            && grid.cell(red.coord).has_candidate(candidate) && linked_outside(*grid, a as int, y, red.coord)
                                            && m.take(k as int).contains(red.coord))),
                                decreases cells@.len() - k,
                            {
                                let c_cell = cells[k];
                                let ghost c = m[k as int];
                                proof {
                                    assert(grid.regions@[ra as int].has(c));
                                    grid.lemma_cell(c);
                                    assert(grid.cells@[crate::data::index_of(grid.size as int, c)].wf(grid.size as int));
                                    assert(m.take(k + 1) == m.take(k as int).push(c));
                                    lemma_push_fresh(m.take(k as int), c);
                                }
                                if c_cell.is_empty() && vec_contains(&c_cell.candidates, candidate) && !region.contains(c_cell)
                                    && in_other_region(grid, &y_regions, a, &c_cell.coord) {
                                    let red = Reduction::new(c_cell.coord, candidate);
                                    proof {
                                        let i = choose|i: int| 0 <= i < y_regions@.len() && (#[trigger] y_regions@[i]) != a && grid.regions@[y_regions@[i] as int].has(c);
                                        assert(y_regions@.contains(y_regions@[i]));
                                        assert(linked_outside(*grid, a as int, y, c));
                                        lemma_push_fresh(reductions@, red);
                                    }
                                    reductions.push(red);
                                } else {
                                    proof {
                                        if linked_outside(*grid, a as int, y, c) {
                                            let rb = choose|rb: int| 0 <= rb < grid.regions.len() && rb != a && (#[trigger] grid.regions@[rb]).has(y) && grid.regions@[rb].has(c);
                                            assert(y_regions@.contains(rb as usize));
                                            let i = choose|i: int| 0 <= i < y_regions@.len() && y_regions@[i] == rb as usize;
                                            assert(grid.regions@[y_regions@[i] as int].has(c));
                                        }
                                    }
                                }
                                k += 1;
                            }
                            proof {
                                assert(m.take(k as int) == m);
                            }
                        }
                        proof {
                            assert forall|red: Reduction| #[trigger] reductions@.contains(red) <==> (before.contains(red)
                                || (red.candidate == candidate && !grid.regions@[a as int].has(red.coord)
                                    && grid.cell(red.coord).has_candidate(candidate) && linked_outside(*grid, a as int, y, red.coord)
                                    && exists|j: int| 0 <= j < t + 1 && x_regions@[j] != a && (#[trigger] grid.regions@[x_regions@[j] as int]).has(red.coord))) by {
                            }
                        }
                        t += 1;
                    }
                    proof {
                        assert forall|red: Reduction| #[trigger] reductions@.contains(red) <==> (linked_before(*grid, a as int, red)
                            || (red.candidate < v + 1 && link_eliminates(*grid, a as int, red.candidate, red.coord))) by {
                            let c = red.coord;
                            let xo = exists|j: int| 0 <= j < x_regions@.len() && x_regions@[j] != a && (#[trigger] grid.regions@[x_regions@[j] as int]).has(c);
                            assert(xo <==> linked_outside(*grid, a as int, x, c)) by {
                                if xo {
                                    let j = choose|j: int| 0 <= j < x_regions@.len() && x_regions@[j] != a && (#[trigger] grid.regions@[x_regions@[j] as int]).has(c);
                                    assert(x_regions@.contains(x_regions@[j]));
                                }
                                if linked_outside(*grid, a as int, x, c) {
                                    let ra = choose|ra: int| 0 <= ra < grid.regions.len() && ra != a && (#[trigger] grid.regions@[ra]).has(x) && grid.regions@[ra].has(c);
                                    assert(x_regions@.contains(ra as usize));
                                    let j = choose|j: int| 0 <= j < x_regions@.len() && x_regions@[j] == ra as usize;
                                    assert(grid.regions@[x_regions@[j] as int].has(c));
                                }
                            }
                            if red.candidate == candidate {
                                if link_eliminates(*grid, a as int, candidate, c) {
                                    let (x2, y2) = choose|x2: Coord, y2: Coord| #[trigger] conjugate_pair(*grid, a as int, candidate, x2, y2)
                                        && linked_outside(*grid, a as int, x2, c) && linked_outside(*grid, a as int, y2, c);
                                    assert(x2 == x || x2 == y);
                                    assert(y2 == x || y2 == y);
                                }
                                if linked_outside(*grid, a as int, x, c) && linked_outside(*grid, a as int, y, c)
                                    && !grid.regions@[a as int].has(c) && grid.cell(c).has_candidate(candidate) {
                                    assert(conjugate_pair(*grid, a as int, candidate, x, y));
                                    assert(link_eliminates(*grid, a as int, candidate, c));
                                }
                            }
                        }
                    }
                } else {
                    proof {
                        assert forall|c: Coord| !#[trigger] link_eliminates(*grid, a as int, candidate, c) by {
                            if link_eliminates(*grid, a as int, candidate, c) {
                                let (x2, y2) = choose|x2: Coord, y2: Coord| #[trigger] conjugate_pair(*grid, a as int, candidate, x2, y2)
                                    && linked_outside(*grid, a as int, x2, c) && linked_outside(*grid, a as int, y2, c);
                                assert(with@.to_set() =~= set![x2, y2]) by {
                                    assert forall|d: Coord| with@.to_set().contains(d) <==> set![x2, y2].contains(d) by {
                                        if d == x2 || d == y2 {
                                            assert(with@.contains(d));
                                        }
                                    }
                                }
                                with@.unique_seq_to_set();
                                assert(set![x2, y2].len() == 2) by {
                                    assert(set![x2, y2] == set![x2].insert(y2));
                                }
                            }
                        }
                    }
                }
                v += 1;
            }
            proof {
                assert forall|red: Reduction| #[trigger] reductions@.contains(red) <==> linked_before(*grid, a + 1, red) by {
                    if linked_before(*grid, a + 1, red) && !linked_before(*grid, a as int, red) {
                        let a2 = choose|a2: int| 0 <= a2 < a + 1 && #[trigger] link_eliminates(*grid, a2, red.candidate, red.coord);
                        assert(a2 == a);
                    }
                    if link_eliminates(*grid, a as int, red.candidate, red.coord) {
                        assert(linked_before(*grid, a + 1, red));
                    }
                }
            }
            a += 1;
        }
        proof {
            assert forall|red: Reduction| #[trigger] reductions@.contains(red) <==> exists|a: int|
                #[trigger] link_eliminates(*grid, a, red.candidate, red.coord) by {
                if exists|a: int| #[trigger] link_eliminates(*grid, a, red.candidate, red.coord) {
                    let a2 = choose|a2: int| #[trigger] link_eliminates(*grid, a2, red.candidate, red.coord);
                    assert(0 <= a2 < nr);
                    assert(linked_before(*grid, nr as int, red));
                }
            }
        }
        reductions
    }
}

} // verus!
