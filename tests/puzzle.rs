use sudoku_logic::data::{Coord, RegionKind};
use sudoku_logic::puzzle::{
    corner_from_capture, load_puzzle, parse_row, parse_u8, size_from_capture, split_bytes, text_lines, LoadError,
};
use sudoku_logic::solver::solve;

const FOUR: &str = "size 4\n1 . 3 4\n3 4 . 2\n2 1 4 .\n. 3 2 1\n";

#[test]
fn loads_a_small_puzzle() {
    let grid = load_puzzle(FOUR.as_bytes()).unwrap();
    assert_eq!(grid.size, 4);
    assert_eq!(grid.cells[0].value, Some(1));
    assert!(grid.cells[0].is_given);
    assert_eq!(grid.cells[1].value, None);
    assert!(!grid.cells[1].is_given);
    assert_eq!(grid.cells[3].value, Some(4));
    assert_eq!(grid.cells[5].value, Some(4));
    assert_eq!(grid.cells[15].value, Some(1));
    assert_eq!(grid.regions.len(), 12);
}

#[test]
fn a_loaded_puzzle_solves() {
    let mut grid = load_puzzle(FOUR.as_bytes()).unwrap();
    grid.compute_candidates();
    let (solved, _) = solve(&mut grid);
    assert!(solved);
    assert_eq!(grid.validate(), Ok(()));
    let row: Vec<Option<u8>> = grid.cells[0..4].iter().map(|c| c.value).collect();
    assert_eq!(row, vec![Some(1), Some(2), Some(3), Some(4)]);
}

#[test]
fn load_accepts_crlf_and_extra_squares() {
    let text = "size 4\r\n1 . . 4\r\n. 4 1 .\r\n. 1 4 .\r\n4 . . 1\r\nextra square 1,1\r\nsomething else\r\n";
    let grid = load_puzzle(text.as_bytes()).unwrap();
    assert_eq!(grid.regions.len(), 13);
    match grid.regions[12].kind {
        RegionKind::Square(s) => {
            assert_eq!(s.top_left, Coord::new(1, 1));
            assert_eq!(s.size, 2);
        }
        _ => panic!("expected a block"),
    }
}

#[test]
fn load_reports_each_error() {
    assert_eq!(load_puzzle(b"").err(), Some(LoadError::Empty));
    assert_eq!(load_puzzle(b"width 4\n").err(), Some(LoadError::NoSize));
    assert_eq!(load_puzzle(b"size 300\n").err(), Some(LoadError::BadSize));
    assert_eq!(load_puzzle(b"size 4\n1 . . 4\n").err(), Some(LoadError::MissingRow(1)));
    assert_eq!(
        load_puzzle(b"size 4\n1 . . 4\n. 4 1\n. 1 4 .\n4 . . 1\n").err(),
        Some(LoadError::WrongRowLength(1))
    );
    assert_eq!(
        load_puzzle(b"size 4\n1 . . 4\n. 4 x .\n. 1 4 .\n4 . . 1\n").err(),
        Some(LoadError::BadValue(1))
    );
    assert_eq!(
        load_puzzle(b"size 4\n1 . . 4\n. 4 1 .\n. 1 4 .\n4 . . 1\nextra square 3,0\n").err(),
        Some(LoadError::ExtraSquareOutside)
    );
    assert_eq!(
        load_puzzle(b"size 4\n1 . . 4\n. 4 1 .\n. 1 4 .\n4 . . 1\nextra square 999,0\n").err(),
        Some(LoadError::BadExtraSquare)
    );
}

#[test]
fn size_zero_gives_an_empty_board() {
    let grid = load_puzzle(b"size 0\n").unwrap();
    assert_eq!(grid.size, 0);
    assert!(grid.cells.is_empty());
}

#[test]
fn numbers_are_read_in_decimal() {
    assert_eq!(parse_u8(b"0"), Some(0));
    assert_eq!(parse_u8(b"255"), Some(255));
    assert_eq!(parse_u8(b"+7"), Some(7));
    assert_eq!(parse_u8(b"256"), None);
    assert_eq!(parse_u8(b""), None);
    assert_eq!(parse_u8(b"+"), None);
    assert_eq!(parse_u8(b"1a"), None);
    assert_eq!(parse_u8(b"0012"), Some(12));
}

#[test]
fn captures_become_values() {
    assert_eq!(size_from_capture(&Some(b"9".to_vec())), Ok(9));
    assert_eq!(size_from_capture(&Some(b"999".to_vec())), Err(LoadError::BadSize));
    assert_eq!(size_from_capture(&None), Err(LoadError::NoSize));
    assert_eq!(corner_from_capture(&Some((b"3".to_vec(), b"6".to_vec()))), Ok(Some((3, 6))));
    assert_eq!(corner_from_capture(&None), Ok(None));
    assert_eq!(corner_from_capture(&Some((b"3".to_vec(), b"600".to_vec()))), Err(LoadError::BadExtraSquare));
}

#[test]
fn text_is_split_into_lines_and_values() {
    assert_eq!(split_bytes(b"a  b", b' '), vec![b"a".to_vec(), vec![], b"b".to_vec()]);
    assert_eq!(split_bytes(b"", b' '), vec![Vec::<u8>::new()]);
    assert_eq!(text_lines(b"one\r\ntwo\n"), vec![b"one".to_vec(), b"two".to_vec()]);
    assert_eq!(text_lines(b"one\n\ntwo"), vec![b"one".to_vec(), vec![], b"two".to_vec()]);
    assert!(text_lines(b"").is_empty());
    assert_eq!(parse_row(b"1 . 3", 3, 0), Ok(vec![Some(1), None, Some(3)]));
    assert_eq!(parse_row(b"1 . 3", 4, 2), Err(LoadError::WrongRowLength(2)));
    assert_eq!(parse_row(b"1 .. 3", 3, 5), Err(LoadError::BadValue(5)));
}
