use super::ReduceStrategy;
use crate::data::{coords_contain, lemma_push_fresh, vec_contains, Cell, Coord, Grid, Reduction};
use vstd::prelude::*;

verus! {

/// Two cells of a region that share the same two candidates hold those two
/// values between them, so no other cell of the region can hold either.
pub struct NakedPair {}

/// The two candidate lists hold the same values.
pub open spec fn same_set(a: Seq<u8>, b: Seq<u8>) -> bool {
    forall|v: u8| a.contains(v) <==> b.contains(v)
}

/// The cells at `p` and `q` of region `r` are distinct and list the same two
/// candidates.
pub open spec fn naked_pair(g: Grid, r: int, p: Coord, q: Coord) -> bool {
    &&& 0 <= r < g.regions.len()
    &&& g.regions@[r].has(p)
    &&& g.regions@[r].has(q)
    &&& p != q
    &&& g.cell(p).candidates.len() == 2
    &&& same_set(g.cell(p).candidates@, g.cell(q).candidates@)
}

/// The pair that `p` forms in region `r` takes `v` from the cell at `c`.
pub open spec fn pair_eliminates(g: Grid, r: int, p: Coord, c: Coord, v: u8) -> bool {
    exists|q: Coord|
        #[trigger] naked_pair(g, r, p, q) && g.regions@[r].has(c) && c != p && c != q && g.cell(p).has_candidate(v)
            && g.cell(c).has_candidate(v)
}

/// No region has three cells that list the same two candidates: such a board
/// has no solution.
pub open spec fn pairs_consistent(g: Grid) -> bool {
    forall|r: int, p: Coord, q: Coord, z: Coord|
        #[trigger] naked_pair(g, r, p, q) && #[trigger] naked_pair(g, r, p, z) ==> q == z
}

/// Some region below `n` has a pair that justifies `red`.
pub open spec fn paired_before(g: Grid, n: int, red: Reduction) -> bool {
    exists|r: int, p: Coord| 0 <= r < n && #[trigger] pair_eliminates(g, r, p, red.coord, red.candidate)
}

/// Both lists hold the same values.
fn same_candidates(a: &Vec<u8>, b: &Vec<u8>) -> (r: bool)
    ensures
        r == same_set(a@, b@),
{
    let mut k: usize = 0;
    while k < a.len()
        invariant
            k <= a.len(),
            forall|j: int| 0 <= j < k ==> b@.contains(#[trigger] a@[j]),
        decreases a.len() - k,
    {
        if !vec_contains(b, a[k]) {
            return false;
        }
        k += 1;
    }
    let mut k: usize = 0;
    while k < b.len()
        invariant
            k <= b.len(),
            forall|j: int| 0 <= j < a.len() ==> b@.contains(#[trigger] a@[j]),
            forall|j: int| 0 <= j < k ==> a@.contains(#[trigger] b@[j]),
        decreases b.len() - k,
    {
        if !vec_contains(a, b[k]) {
            return false;
        }
        k += 1;
    }
    proof {
        assert forall|v: u8| a@.contains(v) <==> b@.contains(v) by {
            if a@.contains(v) {
                let j = choose|j: int| 0 <= j < a.len() && a@[j] == v;
            }
            if b@.contains(v) {
                let j = choose|j: int| 0 <= j < b.len() && b@[j] == v;
            }
        }
    }
    true
}


/// The first cell other than the `k`-th that lists the same candidates.
fn find_partner(cells: &Vec<&Cell>, k: usize) -> (r: Option<usize>)
    requires
        k < cells@.len(),
    ensures
        r matches Some(j) ==> j < cells@.len() && j != k && same_set(cells@[j as int].candidates@, cells@[k as int].candidates@),
        r is None ==> forall|j: int| 0 <= j < cells@.len() && j != k ==> !same_set(#[trigger] cells@[j].candidates@, cells@[k as int].candidates@),
{
    let mut j: usize = 0;
    while j < cells.len()
        invariant
            k < cells@.len(),
            j <= cells@.len(),
            forall|i: int| 0 <= i < j && i != k ==> !same_set(#[trigger] cells@[i].candidates@, cells@[k as int].candidates@),
        decreases cells@.len() - j,
    {
        if j != k && same_candidates(&cells[j].candidates, &cells[k].candidates) {
            return Some(j);
        }
        j += 1;
    }
    None
}

/// Lists without duplicates that hold the same values have the same length.
proof fn lemma_same_set_len(a: Seq<u8>, b: Seq<u8>)
    requires
        a.no_duplicates(),
        b.no_duplicates(),
        same_set(a, b),
    ensures
        a.len() == b.len(),
{
    a.unique_seq_to_set();
    b.unique_seq_to_set();
    assert(a.to_set() =~= b.to_set());
}

impl NakedPair {
    /// Whether no cell has two partners: the board is one on which the
    /// strategy can run.
    pub fn is_consistent(grid: &Grid) -> (r: bool)
        requires
            grid.wf(),
        ensures
            r == pairs_consistent(*grid),
    {
        let nr = grid.regions.len();
        let mut ri: usize = 0;
        while ri < nr
            invariant
                grid.wf(),
                nr == grid.regions.len(),
                ri <= nr,
                forall|r: int, p: Coord, q: Coord, z: Coord|
                    0 <= r < ri && #[trigger] naked_pair(*grid, r, p, q) && #[trigger] naked_pair(*grid, r, p, z) ==> q == z,
            decreases nr - ri,
        {
            proof {
                assert(grid.regions@[ri as int].wf(grid.size as int));
            }
            let cells = grid.cells_for_region(&grid.regions[ri]);
            let ghost m = grid.regions@[ri as int].members();
            let ghost rr = ri as int;
            let mut k: usize = 0;
            while k < cells.len()
                invariant
                    grid.wf(),
                    nr == grid.regions.len(),
                    ri < nr,
                    rr == ri,
                    m == grid.regions@[rr].members(),
                    grid.regions@[rr].wf(grid.size as int),
                    cells@.len() == m.len(),
                    forall|j: int| 0 <= j < cells@.len() ==> *cells@[j] == grid.cell(#[trigger] m[j]),
                    k <= cells@.len(),
                    forall|r: int, p: Coord, q: Coord, z: Coord|
                        0 <= r < ri && #[trigger] naked_pair(*grid, r, p, q) && #[trigger] naked_pair(*grid, r, p, z) ==> q == z,
                    forall|i: int, q: Coord, z: Coord|
                        0 <= i < k && #[trigger] naked_pair(*grid, rr, m[i], q) && #[trigger] naked_pair(*grid, rr, m[i], z) ==> q == z,
                decreases cells@.len() - k,
            {
                let ghost p = m[k as int];
                proof {
                    assert(grid.regions@[rr].has(p));
                    grid.lemma_cell(p);
                }
                if cells[k].candidates.len() == 2 {
                    let mut first: Option<usize> = None;
                    let mut j: usize = 0;
                    while j < cells.len()
                        invariant
                            grid.wf(),
                            ri < nr,
                            nr == grid.regions.len(),
                            rr == ri,
                            m == grid.regions@[rr].members(),
                            grid.regions@[rr].wf(grid.size as int),
                            forall|j: int| 0 <= j < cells@.len() ==> *cells@[j] == grid.cell(#[trigger] m[j]),
                            p == m[k as int],
                            grid.regions@[rr].has(p),
                            cells@[k as int].candidates.len() == 2,
                            cells@.len() == m.len(),
                            k < cells@.len(),
                            j <= cells@.len(),
                            first matches Some(f) ==> f < j && f != k && same_set(cells@[f as int].candidates@, cells@[k as int].candidates@),
                            forall|i: int| 0 <= i < j && i != k && (first matches Some(f) ==> i != f) ==> !same_set(#[trigger] cells@[i].candidates@, cells@[k as int].candidates@),
                        decreases cells@.len() - j,
                    {
                        if j != k && same_candidates(&cells[j].candidates, &cells[k].candidates) {
                            if let Some(f) = first {
                                proof {
                                    let q = m[f as int];
                                    let z = m[j as int];
                                    assert(grid.regions@[rr].has(q));
                                    assert(grid.regions@[rr].has(z));
                                    grid.lemma_cell(q);
                                    grid.lemma_cell(z);
                                    assert(naked_pair(*grid, rr, p, q));
                                    assert(naked_pair(*grid, rr, p, z));
                                }
                                return false;
                            }
                            first = Some(j);
                        }
                        j += 1;
                    }
                    proof {
                        assert forall|q: Coord, z: Coord| #[trigger] naked_pair(*grid, rr, p, q) && #[trigger] naked_pair(*grid, rr, p, z) implies q == z by {
                            let jq = choose|jq: int| 0 <= jq < m.len() && m[jq] == q;
                            let jz = choose|jz: int| 0 <= jz < m.len() && m[jz] == z;
                            grid.lemma_cell(q);
                            grid.lemma_cell(z);
                            assert(same_set(cells@[jq].candidates@, cells@[k as int].candidates@));
                            assert(same_set(cells@[jz].candidates@, cells@[k as int].candidates@));
                        }
                    }
                }
                k += 1;
            }
            proof {
                assert forall|r: int, p: Coord, q: Coord, z: Coord|
                    0 <= r < ri + 1 && #[trigger] naked_pair(*grid, r, p, q) && #[trigger] naked_pair(*grid, r, p, z) implies q == z by {
                    if r == rr {
                        let i = choose|i: int| 0 <= i < m.len() && m[i] == p;
                    }
                }
            }
            ri += 1;
        }
        true
    }

    /// In a consistent board the partner of `p` is unique, so the pair that
    /// `p` forms removes exactly what the pair that its partner forms removes.
    proof fn lemma_partner(g: Grid, r: int, p: Coord, q: Coord)
        requires
            g.wf(),
            pairs_consistent(g),
            naked_pair(g, r, p, q),
        ensures
            naked_pair(g, r, q, p),
            forall|c: Coord, v: u8| #[trigger] pair_eliminates(g, r, q, c, v) <==> pair_eliminates(g, r, p, c, v),
            forall|c: Coord, v: u8| #[trigger] pair_eliminates(g, r, p, c, v) <==> (g.regions@[r].has(c) && c != p
                && c != q && g.cell(p).has_candidate(v) && g.cell(c).has_candidate(v)),
    {
        assert(g.regions@[r].wf(g.size as int));
        g.lemma_cell(p);
        g.lemma_cell(q);
        let ip = crate::data::index_of(g.size as int, p);
        let iq = crate::data::index_of(g.size as int, q);
        assert(g.cells@[ip].wf(g.size as int));
        assert(g.cells@[iq].wf(g.size as int));
        lemma_same_set_len(g.cell(p).candidates@, g.cell(q).candidates@);
        assert(naked_pair(g, r, q, p));
        assert forall|c: Coord, v: u8| #[trigger] pair_eliminates(g, r, q, c, v) <==> pair_eliminates(g, r, p, c, v) by {
            if pair_eliminates(g, r, q, c, v) {
                let z = choose|z: Coord| #[trigger] naked_pair(g, r, q, z) && g.regions@[r].has(c) && c != q && c != z
                    && g.cell(q).has_candidate(v) && g.cell(c).has_candidate(v);
                assert(z == p);
                assert(naked_pair(g, r, p, q));
            }
            if pair_eliminates(g, r, p, c, v) {
                let z = choose|z: Coord| #[trigger] naked_pair(g, r, p, z) && g.regions@[r].has(c) && c != p && c != z
                    && g.cell(p).has_candidate(v) && g.cell(c).has_candidate(v);
                assert(z == q);
                assert(naked_pair(g, r, q, p));
            }
        }
        assert forall|c: Coord, v: u8| #[trigger] pair_eliminates(g, r, p, c, v) <==> (g.regions@[r].has(c) && c != p
            && c != q && g.cell(p).has_candidate(v) && g.cell(c).has_candidate(v)) by {
            if pair_eliminates(g, r, p, c, v) {
                let z = choose|z: Coord| #[trigger] naked_pair(g, r, p, z) && g.regions@[r].has(c) && c != p && c != z
                    && g.cell(p).has_candidate(v) && g.cell(c).has_candidate(v);
                assert(z == q);
            }
        }
    }
}

impl ReduceStrategy for NakedPair {
    open spec fn admits(grid: Grid) -> bool {
        pairs_consistent(grid)
    }

    open spec fn eliminates(grid: Grid, red: Reduction) -> bool {
        exists|reg: int, p: Coord| #[trigger] pair_eliminates(grid, reg, p, red.coord, red.candidate)
    }

    fn reduce_candidates(grid: &Grid) -> (r: Vec<Reduction>)
        ensures
            forall|red: Reduction| #[trigger] r@.contains(red) <==> exists|reg: int, p: Coord|
                #[trigger] pair_eliminates(*grid, reg, p, red.coord, red.candidate),
    {
        let mut reductions: Vec<Reduction> = Vec::new();
        let nr = grid.regions.len();
        let mut ri: usize = 0;
        while ri < nr
            invariant
                grid.wf(),
                pairs_consistent(*grid),
                nr == grid.regions.len(),
                ri <= nr,
                grid.valid_reductions(reductions@),
                forall|red: Reduction| #[trigger] reductions@.contains(red) <==> paired_before(*grid, ri as int, red),
            decreases nr - ri,
        {
            let region = &grid.regions[ri];
            proof {
                assert(grid.regions@[ri as int].wf(grid.size as int));
            }
            let cells = grid.cells_for_region(region);
            let ghost m = region.members();
            let ghost rr = ri as int;
            let mut visited: Vec<Coord> = Vec::new();
            let mut k: usize = 0;
            while k < cells.len()
                invariant
                    grid.wf(),
                    pairs_consistent(*grid),
                    nr == grid.regions.len(),
                    ri < nr,
                    rr == ri,
                    m == grid.regions@[rr].members(),
                    grid.regions@[rr].wf(grid.size as int),
                    cells@.len() == m.len(),
                    forall|j: int| 0 <= j < cells@.len() ==> *cells@[j] == grid.cell(#[trigger] m[j]),
                    k <= cells@.len(),
                    grid.valid_reductions(reductions@),
                    forall|x: Coord, red: Reduction| #[trigger] visited@.contains(x) && #[trigger] pair_eliminates(*grid, rr, x, red.coord, red.candidate) ==> reductions@.contains(red),
                    forall|red: Reduction| #[trigger] reductions@.contains(red) <==> (paired_before(*grid, rr, red)
                        || exists|j: int| 0 <= j < k && #[trigger] pair_eliminates(*grid, rr, m[j], red.coord, red.candidate)),
                decreases cells@.len() - k,
            {
                let cell = cells[k];
                let ghost p = m[k as int];
                proof {
                    assert(grid.regions@[rr].has(p));
                    grid.lemma_cell(p);
                    assert(grid.cells@[crate::data::index_of(grid.size as int, p)].wf(grid.size as int));
                }
                let ghost before = reductions@;
                if cell.is_empty() && !coords_contain(&visited, &cell.coord) && cell.candidates.len() == 2 {
                    if let Some(pj) = find_partner(&cells, k) {
                        let paired = cells[pj];
                        let ghost q = m[pj as int];
                        proof {
                            assert(grid.regions@[rr].has(q));
                            grid.lemma_cell(q);
                            assert(naked_pair(*grid, rr, p, q));
                            NakedPair::lemma_partner(*grid, rr, p, q);
                        }
                        let mut k2: usize = 0;
                        while k2 < cells.len()
                            invariant
                                grid.wf(),
                                ri < nr,
                                nr == grid.regions.len(),
                                rr == ri,
                                m == grid.regions@[rr].members(),
                                grid.regions@[rr].wf(grid.size as int),
                                cells@.len() == m.len(),
                                forall|j: int| 0 <= j < cells@.len() ==> *cells@[j] == grid.cell(#[trigger] m[j]),
                                k2 <= cells@.len(),
                                *cell == grid.cell(p),
                                *paired == grid.cell(q),
                                cell.coord == p,
                                paired.coord == q,
                                grid.regions@[rr].has(p),
                                grid.valid_reductions(reductions@),
                                forall|c: Coord, v: u8| #[trigger] pair_eliminates(*grid, rr, p, c, v) <==> (grid.regions@[rr].has(c) && c != p
                                    && c != q && grid.cell(p).has_candidate(v) && grid.cell(c).has_candidate(v)),
                                forall|red: Reduction| #[trigger] reductions@.contains(red) <==> (before.contains(red)
                                    || (pair_eliminates(*grid, rr, p, red.coord, red.candidate) && m.take(k2 as int).contains(red.coord))),
                            decreases cells@.len() - k2,
                        {
                            let other = cells[k2];
                            let ghost c = m[k2 as int];
                            proof {
                                assert(grid.regions@[rr].has(c));
                                grid.lemma_cell(c);
                                assert(grid.cells@[crate::data::index_of(grid.size as int, c)].wf(grid.size as int));
                                assert(m.take(k2 + 1) == m.take(k2 as int).push(c));
                                lemma_push_fresh(m.take(k2 as int), c);
                                if m.take(k2 as int).contains(c) {
                                    let j = choose|j: int| 0 <= j < k2 && m.take(k2 as int)[j] == c;
                                    assert(m[j] == m[k2 as int]);
                                }
                            }
                            if other.coord != cell.coord && other.coord != paired.coord {
                                let mut k3: usize = 0;
                                while k3 < other.candidates.len()
                                    invariant
                                        grid.wf(),
                                        k3 <= other.candidates@.len(),
                                        *other == grid.cell(c),
                                        other.coord == c,
                                        *cell == grid.cell(p),
                                        c != p,
                                        c != q,
                                        0 <= rr < grid.regions.len(),
                                        grid.regions@[rr].has(c),
                                        grid.valid_reductions(reductions@),
                                        c.in_bounds(grid.size as int),
                                        !m.take(k2 as int).contains(c),
                                        forall|c2: Coord, v: u8| #[trigger] pair_eliminates(*grid, rr, p, c2, v) <==> (grid.regions@[rr].has(c2) && c2 != p
                                            && c2 != q && grid.cell(p).has_candidate(v) && grid.cell(c2).has_candidate(v)),
                                        forall|red: Reduction| #[trigger] reductions@.contains(red) <==> (before.contains(red)
                                            || (pair_eliminates(*grid, rr, p, red.coord, red.candidate) && m.take(k2 as int).contains(red.coord))
                                            || (red.coord == c && pair_eliminates(*grid, rr, p, red.coord, red.candidate) && other.candidates@.take(k3 as int).contains(red.candidate))),
                                    decreases other.candidates@.len() - k3,
                                {
                                    let v = other.candidates[k3];
                                    proof {
                                        assert(other.candidates@.take(k3 + 1) == other.candidates@.take(k3 as int).push(v));
                                        lemma_push_fresh(other.candidates@.take(k3 as int), v);
                                        assert(other.candidates@.contains(v));
                                    }
                                    if vec_contains(&cell.candidates, v) {
                                        let red = Reduction::new(other.coord, v);
                                        proof {
                                            lemma_push_fresh(reductions@, red);
                                        }
                                        reductions.push(red);
                                    }
                                    k3 += 1;
                                }
                                proof {
                                    assert(other.candidates@.take(k3 as int) == other.candidates@);
                                }
                            }
                            k2 += 1;
                        }
                        proof {
                            assert(m.take(k2 as int) == m);
                            assert forall|red: Reduction| pair_eliminates(*grid, rr, p, red.coord, red.candidate) implies #[trigger] reductions@.contains(red) by {
                                assert(grid.regions@[rr].has(red.coord));
                            }
                        }
                        let ghost vis0 = visited@;
                        visited.push(cell.coord);
                        visited.push(paired.coord);
                        proof {
                            lemma_push_fresh(vis0, p);
                            lemma_push_fresh(vis0.push(p), q);
                            assert(visited@ == vis0.push(p).push(q));
                            assert forall|x: Coord, red: Reduction| #[trigger] visited@.contains(x) && #[trigger] pair_eliminates(*grid, rr, x, red.coord, red.candidate) implies reductions@.contains(red) by {
                                if vis0.contains(x) {
                                    assert(before.contains(red));
                                }
                            }
                        }
                    } else {
                        proof {
                            assert forall|c: Coord, v: u8| !#[trigger] pair_eliminates(*grid, rr, p, c, v) by {
                                if pair_eliminates(*grid, rr, p, c, v) {
                                    let z = choose|z: Coord| #[trigger] naked_pair(*grid, rr, p, z) && grid.regions@[rr].has(c) && c != p && c != z
                                        && grid.cell(p).has_candidate(v) && grid.cell(c).has_candidate(v);
                                    let j = choose|j: int| 0 <= j < m.len() && m[j] == z;
                                    assert(!same_set(cells@[j].candidates@, cells@[k as int].candidates@));
                                }
                            }
                        }
                    }
                } else {
                    proof {
                        if !visited@.contains(p) {
                            assert forall|c: Coord, v: u8| !#[trigger] pair_eliminates(*grid, rr, p, c, v) by {
                                if pair_eliminates(*grid, rr, p, c, v) {
                                    let z = choose|z: Coord| #[trigger] naked_pair(*grid, rr, p, z) && grid.regions@[rr].has(c) && c != p && c != z
                                        && grid.cell(p).has_candidate(v) && grid.cell(c).has_candidate(v);
                                }
                            }
                        }
                    }
                }
                proof {
                    assert forall|red: Reduction| #[trigger] reductions@.contains(red) <==> (paired_before(*grid, rr, red)
                        || exists|j: int| 0 <= j < k + 1 && #[trigger] pair_eliminates(*grid, rr, m[j], red.coord, red.candidate)) by {
                        if pair_eliminates(*grid, rr, m[k as int], red.coord, red.candidate) {
                            if visited@.contains(p) {
                            }
                        }
                    }
                }
                k += 1;
            }
            proof {
                assert forall|red: Reduction| #[trigger] reductions@.contains(red) <==> paired_before(*grid, ri + 1, red) by {
                    if paired_before(*grid, ri + 1, red) && !paired_before(*grid, rr, red) {
                        let (r2, p2) = choose|r2: int, p2: Coord| 0 <= r2 < ri + 1 && #[trigger] pair_eliminates(*grid, r2, p2, red.coord, red.candidate);
                        assert(r2 == rr);
                        let z = choose|z: Coord| #[trigger] naked_pair(*grid, rr, p2, z) && grid.regions@[rr].has(red.coord) && red.coord != p2 && red.coord != z
                            && grid.cell(p2).has_candidate(red.candidate) && grid.cell(red.coord).has_candidate(red.candidate);
                        let j = choose|j: int| 0 <= j < m.len() && m[j] == p2;
                        assert(pair_eliminates(*grid, rr, m[j], red.coord, red.candidate));
                    }
                    if exists|j: int| 0 <= j < k && #[trigger] pair_eliminates(*grid, rr, m[j], red.coord, red.candidate) {
                        let j = choose|j: int| 0 <= j < k && #[trigger] pair_eliminates(*grid, rr, m[j], red.coord, red.candidate);
                        assert(paired_before(*grid, ri + 1, red));
                    }
                }
            }
            ri += 1;
        }
        proof {
            assert forall|red: Reduction| #[trigger] reductions@.contains(red) <==> exists|reg: int, p: Coord|
                #[trigger] pair_eliminates(*grid, reg, p, red.coord, red.candidate) by {
                if exists|reg: int, p: Coord| #[trigger] pair_eliminates(*grid, reg, p, red.coord, red.candidate) {
                    let (r2, p2) = choose|r2: int, p2: Coord| #[trigger] pair_eliminates(*grid, r2, p2, red.coord, red.candidate);
                    assert(paired_before(*grid, nr as int, red));
                }
            }
        }
        reductions
    }
}

} // verus!
