use sudoku_logic::data::{Coord, Grid, Reduction};
use sudoku_logic::solver::{solve, step, Step};
use sudoku_logic::strategies::naked_pair::NakedPair;
use sudoku_logic::strategies::naked_single::NakedSingle;
use sudoku_logic::strategies::region_intersection::RegionIntersection;
use sudoku_logic::strategies::simple_link::SimpleLink;
use sudoku_logic::strategies::single::Single;
use sudoku_logic::strategies::{ReduceStrategy, SolveStrategy};

const SOLVED: [[u8; 9]; 9] = [
    [5, 3, 4, 6, 7, 8, 9, 1, 2],
    [6, 7, 2, 1, 9, 5, 3, 4, 8],
    [1, 9, 8, 3, 4, 2, 5, 6, 7],
    [8, 5, 9, 7, 6, 1, 4, 2, 3],
    [4, 2, 6, 8, 5, 3, 7, 9, 1],
    [7, 1, 3, 9, 2, 4, 8, 5, 6],
    [9, 6, 1, 5, 3, 7, 2, 8, 4],
    [2, 8, 7, 4, 1, 9, 6, 3, 5],
    [3, 4, 5, 2, 8, 6, 1, 7, 9],
];

fn index(x: u8, y: u8) -> usize {
    x as usize + 9 * y as usize
}

fn has(reductions: &[Reduction], x: u8, y: u8, v: u8) -> bool {
    reductions.iter().any(|r| r.coord == Coord::new(x, y) && r.candidate == v)
}

/// The solved board with the cells for which `blank` holds left open.
fn puzzle(blank: impl Fn(u8, u8) -> bool) -> Grid {
    let mut grid = Grid::new(9);
    for y in 0..9u8 {
        for x in 0..9u8 {
            if !blank(x, y) {
                grid.set_given_value(Coord::new(x, y), SOLVED[y as usize][x as usize]);
            }
        }
    }
    grid.compute_candidates();
    grid
}

#[test]
fn single_finds_only_candidates() {
    let grid = puzzle(|x, y| x == y);
    let solutions = Single::solutions(&grid);
    assert_eq!(solutions.len(), 9);
    for (k, s) in solutions.iter().enumerate() {
        assert_eq!(s.coord, Coord::new(k as u8, k as u8));
        assert_eq!(s.value, SOLVED[k][k]);
    }
    let naked = NakedSingle::solutions(&grid);
    assert_eq!(naked.len(), 9);
    assert!(Single::solutions(&Grid::new(4)).is_empty());
}

#[test]
fn singles_alone_solve_a_simple_puzzle() {
    let mut grid = puzzle(|x, y| (x + 2 * y) % 9 == 0 || (x + y) % 7 == 3);
    let mut rounds = 0;
    while !grid.is_solved() {
        let solutions = Single::solutions(&grid);
        assert!(!solutions.is_empty());
        grid.apply_solutions(&solutions);
        rounds += 1;
        assert!(rounds < 81);
    }
    for y in 0..9u8 {
        for x in 0..9u8 {
            assert_eq!(grid.cells[index(x, y)].value, Some(SOLVED[y as usize][x as usize]));
        }
    }
}

#[test]
fn single_solutions_never_repeat_a_neighbour() {
    let grid = puzzle(|x, y| (x * 3 + y) % 4 == 0);
    for s in Single::solutions(&grid) {
        for other in grid.cells.iter() {
            let shares = other.coord.x == s.coord.x
                || other.coord.y == s.coord.y
                || (other.coord.x / 3 == s.coord.x / 3 && other.coord.y / 3 == s.coord.y / 3);
            if shares && other.coord != s.coord {
                assert_ne!(other.value, Some(s.value));
            }
        }
    }
}

#[test]
fn try_solution_applies_what_it_finds() {
    let mut grid = puzzle(|x, y| x == 0 && y < 3);
    assert!(Single::try_solution(&mut grid));
    assert!(grid.is_solved());
    assert!(!Single::try_solution(&mut grid));
}

#[test]
fn naked_pair_strips_the_other_cells() {
    let mut grid = Grid::new(9);
    grid.compute_candidates();
    grid.cells[index(0, 0)].candidates = vec![3, 7];
    grid.cells[index(1, 0)].candidates = vec![7, 3];
    let reductions = NakedPair::reduce_candidates(&grid);
    for x in 2..9u8 {
        assert!(has(&reductions, x, 0, 3));
        assert!(has(&reductions, x, 0, 7));
    }
    for (x, y) in [(2u8, 1u8), (0, 2), (1, 1)] {
        assert!(has(&reductions, x, y, 3));
        assert!(has(&reductions, x, y, 7));
    }
    assert!(reductions.iter().all(|r| r.coord != Coord::new(0, 0) && r.coord != Coord::new(1, 0)));
    assert!(reductions.iter().all(|r| r.candidate == 3 || r.candidate == 7));
    assert!(reductions.iter().all(|r| r.coord.y == 0 || (r.coord.x < 3 && r.coord.y < 3)));
    assert!(!has(&reductions, 0, 5, 3));
}

#[test]
fn naked_pair_needs_two_candidates() {
    let mut grid = Grid::new(9);
    grid.compute_candidates();
    grid.cells[index(0, 0)].candidates = vec![3, 7, 8];
    grid.cells[index(1, 0)].candidates = vec![3, 7, 8];
    assert!(NakedPair::reduce_candidates(&grid).is_empty());
}

#[test]
fn three_cells_with_one_pair_are_inconsistent() {
    let mut grid = Grid::new(9);
    grid.compute_candidates();
    assert!(NakedPair::is_consistent(&grid));
    for x in 0..3u8 {
        grid.cells[index(x, 0)].candidates = vec![3, 7];
    }
    assert!(!NakedPair::is_consistent(&grid));
    let before: Vec<Vec<u8>> = grid.cells.iter().map(|c| c.candidates.clone()).collect();
    assert!(matches!(step(&mut grid), Step::Contradiction));
    let after: Vec<Vec<u8>> = grid.cells.iter().map(|c| c.candidates.clone()).collect();
    assert_eq!(before, after);
}

#[test]
fn region_intersection_confines_a_value() {
    let mut grid = Grid::new(9);
    grid.compute_candidates();
    // In row 0, the value 7 stays only in the first block.
    for x in 3..9u8 {
        grid.cells[index(x, 0)].candidates.retain(|v| *v != 7);
    }
    let reductions = RegionIntersection::reduce_candidates(&grid);
    for (x, y) in [(0u8, 1u8), (1, 1), (2, 1), (0, 2), (1, 2), (2, 2)] {
        assert!(has(&reductions, x, y, 7));
    }
    assert!(!has(&reductions, 0, 0, 7));
    assert!(!has(&reductions, 5, 5, 7));
    assert!(reductions.iter().all(|r| r.candidate == 7));
    assert!(RegionIntersection::reduce_candidates(&{
        let mut g = Grid::new(9);
        g.compute_candidates();
        g
    })
    .is_empty());
}

#[test]
fn simple_link_removes_a_doubly_linked_candidate() {
    let mut grid = Grid::new(9);
    grid.compute_candidates();
    // In row 0, the value 5 stays only at (0,0) and (1,0), which also share a block.
    for x in 2..9u8 {
        grid.cells[index(x, 0)].candidates.retain(|v| *v != 5);
    }
    let reductions = SimpleLink::reduce_candidates(&grid);
    for (x, y) in [(0u8, 1u8), (1, 1), (2, 1), (0, 2), (1, 2), (2, 2)] {
        assert!(has(&reductions, x, y, 5));
    }
    assert!(reductions.iter().all(|r| r.candidate == 5 && r.coord.x < 3 && r.coord.y >= 1 && r.coord.y < 3));
}

#[test]
fn simple_link_needs_a_region_for_each_end() {
    let mut grid = Grid::new(9);
    grid.compute_candidates();
    // In column 0, the value 4 stays only at (0,1) and (0,6): no cell outside
    // the column shares a region with both.
    for y in 0..9u8 {
        if y != 1 && y != 6 {
            grid.cells[index(0, y)].candidates.retain(|v| *v != 4);
        }
    }
    assert!(SimpleLink::reduce_candidates(&grid).is_empty());
}

#[test]
fn try_reduction_reports_progress() {
    let mut grid = Grid::new(9);
    grid.compute_candidates();
    assert!(!RegionIntersection::try_reduction(&mut grid));
    for x in 3..9u8 {
        grid.cells[index(x, 0)].candidates.retain(|v| *v != 7);
    }
    assert!(RegionIntersection::try_reduction(&mut grid));
    assert!(!grid.cells[index(0, 1)].candidates.contains(&7));
}

#[test]
fn step_prefers_singles() {
    let mut grid = puzzle(|x, y| x == y);
    match step(&mut grid) {
        Step::Singles(s) => assert_eq!(s.len(), 9),
        _ => panic!("expected singles"),
    }
    assert!(grid.is_solved());
}

#[test]
fn solve_finishes_a_simple_puzzle() {
    let mut grid = puzzle(|x, y| (x + y) % 3 == 0 && x != y);
    let total: usize = grid.cells.iter().map(|c| c.candidates.len()).sum();
    let (solved, steps) = solve(&mut grid);
    assert!(solved);
    assert!(steps <= total);
    assert!(grid.is_solved());
    for y in 0..9u8 {
        for x in 0..9u8 {
            assert_eq!(grid.cells[index(x, y)].value, Some(SOLVED[y as usize][x as usize]));
        }
    }
}

#[test]
fn solve_reports_a_stuck_board() {
    let mut grid = Grid::new(4);
    grid.compute_candidates();
    let (solved, steps) = solve(&mut grid);
    assert!(!solved);
    assert_eq!(steps, 0);
    assert!(matches!(step(&mut grid), Step::Stuck));
}

#[test]
fn one_try_solution_fills_the_diagonal() {
    let rows = [[1u8, 2, 3, 4], [3, 4, 1, 2], [2, 1, 4, 3], [4, 3, 2, 1]];
    let mut g = Grid::new(4);
    for y in 0..4u8 {
        for x in 0..4u8 {
            if x != y {
                g.set_given_value(Coord::new(x, y), rows[y as usize][x as usize]);
            }
        }
    }
    g.compute_candidates();
    assert!(Single::try_solution(&mut g));
    assert!(g.is_solved());
    for y in 0..4usize {
        for x in 0..4usize {
            assert_eq!(g.cells[x + 4 * y].value, Some(rows[y][x]));
        }
    }
}

#[test]
fn a_loop_of_try_solution_solves_a_singles_puzzle() {
    let mut grid = puzzle(|x, y| (x + 2 * y) % 9 == 0 || (x + y) % 7 == 3);
    while !grid.is_solved() && Single::try_solution(&mut grid) {}
    assert!(grid.is_solved());
    assert_eq!(grid.validate(), Ok(()));
}
