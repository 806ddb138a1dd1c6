use sudoku_logic::data::{Coord, Flaw, Grid, Reduction, Region, RegionKind, Solution};

fn cell<'a>(grid: &'a Grid, x: u8, y: u8) -> &'a sudoku_logic::data::Cell {
    &grid.cells[x as usize + grid.size as usize * y as usize]
}

fn sorted(values: &[u8]) -> Vec<u8> {
    let mut v = values.to_vec();
    v.sort();
    v
}

#[test]
fn grid_of_nine_has_subgrids() {
    let grid = Grid::new(9);
    let squares: Vec<&Region> = grid
        .regions
        .iter()
        .filter(|r| matches!(r.kind, RegionKind::Square(_)))
        .collect();
    let num_squares = squares.len();
    assert_eq!(num_squares, 9);
    if let RegionKind::Square(square) = squares[0].kind {
        assert_eq!(square.size, 3);
    }
}

#[test]
fn grid_of_sixteen_has_subgrids() {
    let grid = Grid::new(16);
    let squares: Vec<&Region> = grid
        .regions
        .iter()
        .filter(|r| matches!(r.kind, RegionKind::Square(_)))
        .collect();
    let num_squares = squares.len();
    assert_eq!(num_squares, 16);
    if let RegionKind::Square(square) = squares[0].kind {
        assert_eq!(square.size, 4);
    }
}

#[test]
fn grid_of_twelve_does_not_have_subgrids() {
    let grid = Grid::new(12);
    let squares: Vec<&Region> = grid
        .regions
        .iter()
        .filter(|r| matches!(r.kind, RegionKind::Square(_)))
        .collect();
    let num_squares = squares.len();
    assert_eq!(num_squares, 0);
}

#[test]
fn block_regions_have_square_many_members() {
    for (size, side) in [(4u8, 2u8), (9, 3), (16, 4), (1, 1)] {
        let grid = Grid::new(size);
        let squares: Vec<&Region> = grid
            .regions
            .iter()
            .filter(|r| matches!(r.kind, RegionKind::Square(_)))
            .collect();
        assert_eq!(squares.len(), size as usize);
        for s in squares {
            assert_eq!(s.cell_coords().len(), (side * side) as usize);
        }
    }
    let grid = Grid::new(10);
    assert_eq!(grid.regions.len(), 20);
}

#[test]
fn rows_and_columns_come_first() {
    let grid = Grid::new(9);
    assert_eq!(grid.regions.len(), 27);
    let row = &grid.regions[4];
    assert!(matches!(row.kind, RegionKind::Row(r) if r.y == 2));
    let coords = row.cell_coords();
    assert_eq!(coords.len(), 9);
    assert!(coords.iter().all(|c| c.y == 2));
    let column = &grid.regions[5];
    assert!(matches!(column.kind, RegionKind::Column(c) if c.x == 2));
    let block = &grid.regions[18 + 5];
    match block.kind {
        RegionKind::Square(s) => {
            assert_eq!(s.top_left, Coord::new(6, 3));
            assert_eq!(s.size, 3);
        }
        _ => panic!("expected a block"),
    }
}

#[test]
fn new_grid_cells_are_empty() {
    let grid = Grid::new(9);
    assert_eq!(grid.cells.len(), 81);
    assert_eq!(cell(&grid, 4, 7).coord, Coord::new(4, 7));
    assert!(grid.cells.iter().all(|c| c.is_empty() && c.candidates.is_empty() && !c.is_given));
    assert!(!grid.is_solved());
}

#[test]
fn empty_grid_candidates_are_full() {
    let mut grid = Grid::new(9);
    grid.compute_candidates();
    for c in grid.cells.iter() {
        assert!(c.value.is_none());
        assert_eq!(sorted(&c.candidates), vec![1, 2, 3, 4, 5, 6, 7, 8, 9]);
    }
}

#[test]
fn single_given_removes_candidate_from_its_regions() {
    let mut grid = Grid::new(9);
    grid.set_given_value(Coord::new(0, 0), 5);
    grid.compute_candidates();
    assert!(!cell(&grid, 1, 0).candidates.contains(&5));
    assert!(!cell(&grid, 0, 1).candidates.contains(&5));
    assert!(!cell(&grid, 1, 1).candidates.contains(&5));
    assert!(cell(&grid, 8, 8).candidates.contains(&5));
    assert_eq!(cell(&grid, 8, 8).candidates.len(), 9);
    assert_eq!(cell(&grid, 1, 0).candidates.len(), 8);
    assert_eq!(cell(&grid, 0, 0).value, Some(5));
    assert!(cell(&grid, 0, 0).candidates.is_empty());
    assert!(cell(&grid, 0, 0).is_given);
}

#[test]
fn no_candidate_repeats_a_solved_neighbour() {
    let mut grid = Grid::new(4);
    grid.set_given_value(Coord::new(0, 0), 1);
    grid.set_given_value(Coord::new(3, 0), 2);
    grid.set_given_value(Coord::new(0, 3), 3);
    grid.compute_candidates();
    assert_eq!(sorted(&cell(&grid, 1, 0).candidates), vec![3, 4]);
    assert_eq!(sorted(&cell(&grid, 0, 1).candidates), vec![2, 4]);
    assert_eq!(sorted(&cell(&grid, 1, 1).candidates), vec![2, 3, 4]);
    assert_eq!(sorted(&cell(&grid, 3, 3).candidates), vec![1, 4]);
    for c in grid.cells.iter() {
        if c.value.is_some() {
            assert!(c.candidates.is_empty());
        }
    }
}

#[test]
fn set_given_value_clears_candidates() {
    let mut grid = Grid::new(4);
    grid.compute_candidates();
    grid.set_given_value(Coord::new(2, 1), 3);
    let c = cell(&grid, 2, 1);
    assert_eq!(c.value, Some(3));
    assert!(c.is_given);
    assert!(c.candidates.is_empty());
    assert_eq!(cell(&grid, 2, 0).candidates.len(), 4);
}

#[test]
fn applying_a_solution_updates_neighbours() {
    let mut grid = Grid::new(9);
    grid.compute_candidates();
    grid.apply_solutions(&[Solution::new(Coord::new(4, 4), 7)]);
    assert_eq!(cell(&grid, 4, 4).value, Some(7));
    assert!(cell(&grid, 4, 4).candidates.is_empty());
    assert!(!cell(&grid, 4, 4).is_given);
    assert!(!cell(&grid, 0, 4).candidates.contains(&7));
    assert!(!cell(&grid, 4, 8).candidates.contains(&7));
    assert!(!cell(&grid, 3, 5).candidates.contains(&7));
    assert!(cell(&grid, 0, 0).candidates.contains(&7));
    assert_eq!(cell(&grid, 0, 0).candidates.len(), 9);
    assert_eq!(cell(&grid, 0, 4).candidates.len(), 8);
}

#[test]
fn reductions_are_idempotent() {
    let mut grid = Grid::new(9);
    grid.compute_candidates();
    let reductions = vec![Reduction::new(Coord::new(2, 3), 4), Reduction::new(Coord::new(2, 3), 9)];
    grid.apply_reductions(&reductions);
    let once: Vec<Vec<u8>> = grid.cells.iter().map(|c| sorted(&c.candidates)).collect();
    assert_eq!(once[2 + 9 * 3], vec![1, 2, 3, 5, 6, 7, 8]);
    grid.apply_reductions(&reductions);
    let twice: Vec<Vec<u8>> = grid.cells.iter().map(|c| sorted(&c.candidates)).collect();
    assert_eq!(once, twice);
}

#[test]
fn removing_an_absent_candidate_changes_nothing() {
    let mut grid = Grid::new(4);
    grid.compute_candidates();
    grid.apply_reductions(&[Reduction::new(Coord::new(0, 0), 9)]);
    assert_eq!(sorted(&cell(&grid, 0, 0).candidates), vec![1, 2, 3, 4]);
}

#[test]
fn cells_with_candidate_in_a_row() {
    let mut grid = Grid::new(4);
    grid.set_given_value(Coord::new(1, 1), 2);
    grid.compute_candidates();
    let row = &grid.regions[0];
    let with_two = row.cells_with_candidate(&grid, 2);
    assert_eq!(with_two, vec![Coord::new(2, 0), Coord::new(3, 0)]);
    let with_one = row.cells_with_candidate(&grid, 1);
    assert_eq!(with_one.len(), 4);
}

#[test]
fn regions_for_coords_finds_containing_regions() {
    let grid = Grid::new(9);
    let pair = vec![Coord::new(0, 0), Coord::new(1, 0)];
    assert_eq!(grid.regions_for_coords(&pair), vec![0, 18]);
    let single = vec![Coord::new(4, 4)];
    assert_eq!(grid.regions_for_coords(&single), vec![8, 9, 22]);
    let apart = vec![Coord::new(0, 0), Coord::new(8, 8)];
    assert!(grid.regions_for_coords(&apart).is_empty());
}

#[test]
fn cells_for_region_lists_members() {
    let grid = Grid::new(9);
    let cells = grid.cells_for_region(&grid.regions[19]);
    assert_eq!(cells.len(), 9);
    assert_eq!(cells[0].coord, Coord::new(3, 0));
    assert!(cells.iter().all(|c| c.coord.x >= 3 && c.coord.x < 6 && c.coord.y < 3));
}

#[test]
fn possible_values_span_the_size() {
    let grid = Grid::new(6);
    assert_eq!(grid.possible_values(), 1..=6);
}

#[test]
fn region_new_computes_members() {
    let grid = Grid::new(9);
    let region = Region::new(
        RegionKind::Square(sudoku_logic::data::Square { size: 2, top_left: Coord::new(4, 5) }),
        &grid,
    );
    let coords = region.cell_coords();
    assert_eq!(coords, vec![Coord::new(4, 5), Coord::new(5, 5), Coord::new(4, 6), Coord::new(5, 6)]);
}

fn filled(rows: &[[u8; 4]; 4]) -> Grid {
    let mut grid = Grid::new(4);
    for y in 0..4u8 {
        for x in 0..4u8 {
            grid.set_given_value(Coord::new(x, y), rows[y as usize][x as usize]);
        }
    }
    grid
}

#[test]
fn validate_accepts_a_solution() {
    let grid = filled(&[[1, 2, 3, 4], [3, 4, 1, 2], [2, 1, 4, 3], [4, 3, 2, 1]]);
    assert!(grid.is_solved());
    assert_eq!(grid.validate(), Ok(()));
}

#[test]
fn validate_names_each_flaw() {
    let mut open = filled(&[[1, 2, 3, 4], [3, 4, 1, 2], [2, 1, 4, 3], [4, 3, 2, 1]]);
    open.cells[6].value = None;
    assert_eq!(open.validate(), Err((Flaw::Unsolved, Coord::new(2, 1))));
    let outside = filled(&[[1, 2, 3, 4], [3, 4, 1, 2], [2, 1, 4, 3], [4, 3, 2, 9]]);
    assert_eq!(outside.validate(), Err((Flaw::OutOfRange, Coord::new(3, 3))));
    let repeated = filled(&[[1, 2, 3, 4], [3, 4, 1, 2], [2, 1, 4, 3], [4, 3, 1, 2]]);
    let (flaw, coord) = repeated.validate().unwrap_err();
    assert_eq!(flaw, Flaw::Repeated);
    assert!(coord.y == 3 || coord.x >= 2);
}

#[test]
fn extra_squares_must_fit() {
    let mut grid = Grid::new(9);
    assert!(grid.add_extra_square(1, 1));
    assert_eq!(grid.regions.len(), 28);
    assert_eq!(grid.regions[27].cell_coords().len(), 9);
    assert!(!grid.add_extra_square(7, 0));
    assert_eq!(grid.regions.len(), 28);
    let mut irregular = Grid::new(6);
    assert!(!irregular.add_extra_square(0, 0));
}

#[test]
fn cells_for_region_come_in_row_major_order() {
    let grid = Grid::new(9);
    let coords: Vec<Coord> = grid.cells_for_region(&grid.regions[19]).iter().map(|c| c.coord).collect();
    let expected: Vec<Coord> = (0..3u8).flat_map(|y| (3..6u8).map(move |x| Coord::new(x, y))).collect();
    assert_eq!(coords, expected);
    let column: Vec<Coord> = grid.cells_for_region(&grid.regions[3]).iter().map(|c| c.coord).collect();
    assert_eq!(column, (0..9u8).map(|y| Coord::new(1, y)).collect::<Vec<Coord>>());
}
