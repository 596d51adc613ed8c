use sudoku::grid::{Cell, Grid, GridError};

/// Checks that the first cell is unknown and every later cell cycles
/// through the digits 1 to 9, as in the repeating test rows.
fn assert_cycle_pattern(grid: &Grid) {
    assert_eq!(grid.cell(0, 0), Cell::Unknown);
    for k in 1..81usize {
        let expected = (k % 9 + 1) as u32;
        assert_eq!(grid.cell(k / 9, k % 9), Cell::Known(expected));
    }
}

#[test]
fn grid_from_digits() {
    let digits = vec![
        0, 2, 3, 4, 5, 6, 7, 8, 9,
        1, 2, 3, 4, 5, 6, 7, 8, 9,
        1, 2, 3, 4, 5, 6, 7, 8, 9,
        1, 2, 3, 4, 5, 6, 7, 8, 9,
        1, 2, 3, 4, 5, 6, 7, 8, 9,
        1, 2, 3, 4, 5, 6, 7, 8, 9,
        1, 2, 3, 4, 5, 6, 7, 8, 9,
        1, 2, 3, 4, 5, 6, 7, 8, 9,
        1, 2, 3, 4, 5, 6, 7, 8, 9,
    ];

    let grid = Grid::from_digits(&digits).unwrap();

    assert_cycle_pattern(&grid);
}

#[test]
fn grid_from_digits_wrong_size() {
    let digits = vec![
        0, 2, 3, 4, 5, 6, 7, 8, 9,
        1, 2, 3, 4, 5, 6, 7, 8, 9,
        1, 2, 3, 4, 5, 6, 7, 8, 9,
        1, 2, 3, 4, 5, 6, 7, 8, 9,
        1, 2, 3, 4, 5, 6, 7, 8, 9,
        1, 2, 3, 4, 5, 6, 7, 8, 9,
        1, 2, 3, 4, 5, 6, 7, 8, 9,
        1, 2, 3, 4, 5, 6, 7, 8, 9,
        1, 2, 3, 4, 5, 6, 7, 8,
    ];

    let grid = Grid::from_digits(&digits);

    assert_eq!(
        grid,
        Err(GridError::IncorrectSize {
            expected: 81,
            actual: 80
        })
    );
}

#[test]
fn grid_from_str() {
    let chars = ".23456789\
             123456789\
             123456789\
             123456789\
             123456789\
             123456789\
             123456789\
             123456789\
             123456789";

    let grid = Grid::from_str(&chars).unwrap();

    assert_cycle_pattern(&grid);
}

#[test]
fn grid_from_str_with_whitespace() {
    let chars = ". 2 3 4    56789
             123456789\
             123456789
             123456789\
             123456789
             123456 \t  \n789\
             12345678\t 9\
             12345 6 7 89\
             12     345678 9";

    let grid = Grid::from_str(&chars).unwrap();

    assert_cycle_pattern(&grid);
}

#[test]
fn grid_from_str_invalid_char() {
    let chars = ".23r56789\
             123456789\
             123456789\
             123456789\
             123456789\
             123456789\
             123456789\
             123456789\
             123456789";

    let grid = Grid::from_str(&chars);

    assert_eq!(grid, Err(GridError::InvalidCharacter('r')));
}

#[test]
fn grid_from_digits_invalid_digit() {
    let mut digits = vec![0u32; 81];
    digits[5] = 10;
    digits[40] = 12;

    let grid = Grid::from_digits(&digits);

    assert_eq!(grid, Err(GridError::InvalidDigit(10)));
}

#[test]
fn grid_from_str_too_long() {
    let mut chars = String::new();
    for _ in 0..82 {
        chars.push('.');
    }

    let grid = Grid::from_str(&chars);

    assert_eq!(
        grid,
        Err(GridError::IncorrectSize {
            expected: 81,
            actual: 82
        })
    );
}

#[test]
fn grid_set_cell_then_read() {
    let grid_digits = vec![0u32; 81];
    let mut grid = Grid::from_digits(&grid_digits).unwrap();

    grid.set_cell(4, 7, Cell::Known(6));

    assert_eq!(grid.cell(4, 7), Cell::Known(6));
    assert_eq!(grid.cell(4, 6), Cell::Unknown);
    assert_eq!(grid.cell(5, 7), Cell::Unknown);
}

#[test]
fn grid_render_layout() {
    let digits: Vec<u32> = (0..81u32).map(|k| k % 9 + 1).collect();
    let grid = Grid::from_digits(&digits).unwrap();

    let rendered = grid.render();
    let row = "1 2 3 | 4 5 6 | 7 8 9";
    let dashes = "---------------------";
    let expected = vec![
        row, row, row, dashes, row, row, row, dashes, row, row, row,
    ]
    .join("\n");

    assert_eq!(rendered, expected);
}

#[test]
fn grid_render_unknown_as_dot() {
    let mut digits = vec![0u32; 81];
    digits[1] = 5;
    let grid = Grid::from_digits(&digits).unwrap();

    let rendered = grid.render();

    assert!(rendered.starts_with(". 5 . | "));
}

#[test]
fn grid_render_round_trip() {
    let digits: Vec<u32> = (0..81u32).map(|k| if k == 0 { 0 } else { k % 9 + 1 }).collect();
    let grid = Grid::from_digits(&digits).unwrap();

    let rendered = grid.render();
    let blanked: String = rendered
        .chars()
        .map(|c| if c == '|' || c == '-' { ' ' } else { c })
        .collect();
    let reparsed = Grid::from_str(&blanked).unwrap();

    assert_eq!(reparsed, grid);
}
