use sudoku::check::{check_blocks, check_columns, check_grid, check_rows};
use sudoku::grid::Grid;

#[test]
fn test_check_rows() {
    let digits = vec![
        1, 2, 3, 4, 5, 6, 7, 8, 9,
        2, 3, 1, 5, 6, 9, 4, 7, 8,
        2, 1, 3, 4, 6, 5, 7, 8, 9,
        1, 2, 3, 4, 5, 6, 7, 8, 9,
        1, 2, 3, 4, 5, 6, 7, 8, 9,
        1, 2, 3, 4, 5, 6, 7, 8, 9,
        1, 2, 3, 4, 5, 6, 7, 8, 9,
        1, 2, 3, 4, 5, 6, 7, 8, 9,
        1, 2, 3, 4, 5, 6, 7, 8, 9,
    ];
    let grid = Grid::from_digits(&digits).unwrap();
    assert!(check_rows(&grid));
}

#[test]
fn test_check_rows_duplicates() {
    let digits = vec![
        1, 1, 3, 4, 5, 6, 7, 8, 9,
        2, 3, 1, 5, 6, 9, 4, 7, 8,
        2, 1, 3, 4, 6, 5, 7, 8, 9,
        1, 2, 3, 4, 5, 6, 7, 8, 9,
        1, 2, 3, 4, 5, 6, 7, 8, 9,
        1, 2, 3, 4, 5, 6, 7, 8, 9,
        1, 2, 3, 4, 5, 6, 7, 8, 9,
        1, 2, 3, 4, 5, 6, 7, 8, 9,
        1, 2, 3, 4, 5, 6, 7, 8, 9,
    ];
    let grid = Grid::from_digits(&digits).unwrap();
    assert!(!check_rows(&grid));
}

#[test]
fn test_check_rows_unknowns() {
    let digits = vec![
        1, 2, 3, 4, 5, 6, 7, 8, 9,
        2, 3, 1, 5, 6, 9, 4, 7, 8,
        2, 1, 3, 4, 0, 5, 7, 8, 9,
        1, 2, 3, 4, 5, 6, 7, 8, 9,
        1, 2, 3, 4, 5, 6, 7, 8, 9,
        1, 2, 3, 4, 5, 6, 7, 8, 9,
        1, 2, 3, 4, 5, 6, 7, 8, 9,
        1, 2, 3, 4, 5, 6, 7, 8, 9,
        1, 2, 3, 4, 5, 6, 7, 8, 9,
    ];
    let grid = Grid::from_digits(&digits).unwrap();
    assert!(!check_rows(&grid));
}

#[test]
fn test_check_columns() {
    let digits = vec![
        1, 2, 2, 1, 1, 1, 1, 1, 1,
        2, 3, 1, 2, 2, 2, 2, 2, 2,
        3, 1, 3, 3, 3, 3, 3, 3, 3,
        4, 5, 4, 4, 4, 4, 4, 4, 4,
        5, 6, 6, 5, 5, 5, 5, 5, 5,
        6, 9, 5, 6, 6, 6, 6, 6, 6,
        7, 4, 7, 7, 7, 7, 7, 7, 7,
        8, 7, 8, 8, 8, 8, 8, 8, 8,
        9, 8, 9, 9, 9, 9, 9, 9, 9,
    ];
    let grid = Grid::from_digits(&digits).unwrap();
    assert!(check_columns(&grid));
}

#[test]
fn test_check_columns_duplicates() {
    let digits = vec![
        1, 2, 2, 1, 1, 1, 1, 1, 1,
        1, 3, 1, 2, 2, 2, 2, 2, 2,
        3, 1, 3, 3, 3, 3, 3, 3, 3,
        4, 5, 4, 4, 4, 4, 4, 4, 4,
        5, 6, 6, 5, 5, 5, 5, 5, 5,
        6, 9, 5, 6, 6, 6, 6, 6, 6,
        7, 4, 7, 7, 7, 7, 7, 7, 7,
        8, 7, 8, 8, 8, 8, 8, 8, 8,
        9, 8, 9, 9, 9, 9, 9, 9, 9,
    ];
    let grid = Grid::from_digits(&digits).unwrap();
    assert!(!check_columns(&grid));
}

#[test]
fn test_check_columns_unknowns() {
    let digits = vec![
        1, 2, 2, 1, 1, 1, 1, 1, 1,
        2, 0, 1, 2, 2, 2, 2, 2, 2,
        3, 1, 3, 3, 3, 3, 3, 3, 3,
        4, 5, 4, 4, 4, 4, 4, 4, 4,
        5, 6, 6, 5, 5, 5, 5, 5, 5,
        6, 9, 5, 6, 6, 6, 6, 6, 6,
        7, 4, 7, 7, 7, 7, 7, 7, 7,
        8, 7, 8, 8, 8, 8, 8, 8, 8,
        9, 8, 9, 9, 9, 9, 9, 9, 9,
    ];
    let grid = Grid::from_digits(&digits).unwrap();
    assert!(!check_columns(&grid));
}

#[test]
fn test_check_blocks() {
    let digits = vec![
        1, 3, 2, 1, 2, 3, 1, 2, 3,
        9, 8, 7, 4, 5, 6, 4, 5, 6,
        6, 5, 4, 7, 8, 9, 7, 8, 9,
        1, 2, 3, 4, 9, 1, 1, 2, 3,
        4, 5, 6, 3, 6, 5, 4, 5, 6,
        7, 8, 9, 8, 7, 2, 7, 8, 9,
        1, 2, 3, 1, 2, 3, 1, 2, 3,
        4, 5, 6, 4, 5, 6, 4, 5, 6,
        7, 8, 9, 7, 8, 9, 7, 8, 9,
    ];
    let grid = Grid::from_digits(&digits).unwrap();
    assert!(check_blocks(&grid));
}

#[test]
fn test_check_blocks_duplicates() {
    let digits = vec![
        1, 3, 2, 1, 2, 3, 1, 2, 3,
        9, 8, 7, 4, 5, 6, 4, 5, 6,
        6, 5, 4, 7, 8, 9, 7, 8, 9,
        1, 2, 3, 4, 9, 1, 1, 2, 3,
        4, 5, 6, 3, 7, 5, 4, 5, 6,
        7, 8, 9, 8, 7, 2, 7, 8, 9,
        1, 2, 3, 1, 2, 3, 1, 2, 3,
        4, 5, 6, 4, 5, 6, 4, 5, 6,
        7, 8, 9, 7, 8, 9, 7, 8, 9,
    ];
    let grid = Grid::from_digits(&digits).unwrap();
    assert!(!check_blocks(&grid));
}

#[test]
fn test_check_blocks_unknowns() {
    let digits = vec![
        1, 3, 2, 1, 2, 3, 1, 2, 3,
        9, 8, 7, 4, 5, 0, 4, 5, 6,
        6, 5, 4, 7, 8, 9, 7, 8, 9,
        1, 2, 3, 4, 9, 1, 1, 2, 3,
        4, 5, 6, 3, 6, 5, 4, 5, 6,
        7, 8, 9, 8, 7, 2, 7, 8, 9,
        1, 2, 3, 1, 2, 3, 1, 2, 3,
        4, 5, 6, 4, 5, 6, 4, 5, 6,
        7, 8, 9, 7, 8, 0, 7, 8, 9,
    ];
    let grid = Grid::from_digits(&digits).unwrap();
    assert!(!check_blocks(&grid));
}

#[test]
fn check_grid_accepts_solved_sudoku() {
    let text = "534678912\
                672195348\
                198342567\
                859761423\
                426853791\
                713924856\
                961537284\
                287419635\
                345286179";
    let grid = Grid::from_str(text).unwrap();
    assert!(check_grid(&grid));
}

#[test]
fn check_grid_rejects_unknown_cell() {
    let text = "53467891.\
                672195348\
                198342567\
                859761423\
                426853791\
                713924856\
                961537284\
                287419635\
                345286179";
    let grid = Grid::from_str(text).unwrap();
    assert!(!check_grid(&grid));
}

#[test]
fn check_grid_rejects_row_duplicate() {
    // Swapping one digit for another duplicates it in its row even though
    // some other groups stay individually legal.
    let text = "534678912\
                672195348\
                198342567\
                859761423\
                426853791\
                713924856\
                961537284\
                287419635\
                345286119";
    let grid = Grid::from_str(text).unwrap();
    assert!(!check_grid(&grid));
}
