use sudoku::check::check_grid;
use sudoku::grid::{Cell, Grid};
use sudoku::solve::solve;

const PUZZLE: &str = "53..7....\
                      6..195...\
                      .98....6.\
                      8...6...3\
                      4..8.3..1\
                      7...2...6\
                      .6....28.\
                      ...419..5\
                      ....8..79";

const SOLUTION: &str = "534678912\
                        672195348\
                        198342567\
                        859761423\
                        426853791\
                        713924856\
                        961537284\
                        287419635\
                        345286179";

#[test]
fn solve_leaves_solved_grid_unchanged() {
    let mut grid = Grid::from_str(SOLUTION).unwrap();
    let original = grid.clone();

    assert!(solve(&mut grid));
    assert_eq!(grid, original);
}

#[test]
fn solve_finds_unique_solution() {
    let mut grid = Grid::from_str(PUZZLE).unwrap();

    assert!(solve(&mut grid));

    let expected = Grid::from_str(SOLUTION).unwrap();
    assert_eq!(grid, expected);
    assert_eq!(grid.render(), expected.render());
    assert!(check_grid(&grid));
}

#[test]
fn solve_respects_given_clues() {
    let mut grid = Grid::from_str(PUZZLE).unwrap();
    let original = grid.clone();

    assert!(solve(&mut grid));

    for i in 0..9 {
        for j in 0..9 {
            if let Cell::Known(d) = original.cell(i, j) {
                assert_eq!(grid.cell(i, j), Cell::Known(d));
            }
        }
    }
}

#[test]
fn solve_fails_on_row_conflict() {
    // Row 1 holds two 5s; the other clues leave the first blank cell with no
    // candidate at all, so the search gives up at once. The grid, conflict
    // included, is left exactly as it was.
    let mut digits = vec![0u32; 81];
    for j in 0..8 {
        digits[j] = j as u32 + 1;
    }
    digits[9] = 5;
    digits[10] = 5;
    digits[17] = 9;
    let mut grid = Grid::from_digits(&digits).unwrap();
    let original = grid.clone();

    assert!(!solve(&mut grid));
    assert_eq!(grid, original);
    assert_eq!(grid.cell(1, 0), Cell::Known(5));
    assert_eq!(grid.cell(1, 1), Cell::Known(5));
}

#[test]
fn solve_completes_empty_grid() {
    let digits = vec![0u32; 81];
    let mut grid = Grid::from_digits(&digits).unwrap();

    assert!(solve(&mut grid));
    assert!(check_grid(&grid));

    // The row-major scan with ascending candidates is deterministic: a
    // second run from scratch lands on the identical completion.
    let mut again = Grid::from_digits(&digits).unwrap();
    assert!(solve(&mut again));
    assert_eq!(grid, again);
}
