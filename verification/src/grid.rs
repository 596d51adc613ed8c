//! The grid data model: cells, construction from digits or text, indexed
//! access, and textual rendering.

use vstd::prelude::*;

verus! {

/// One position of the grid: either an unknown cell or a known digit.
#[derive(Copy, Clone, Debug, PartialEq, Eq, Structural)]
pub enum Cell {
    Unknown,
    Known(u32),
}

/// A construction failure: wrong number of cells, a numeric value outside
/// [0, 9], or a text character that is neither whitespace, a digit, nor `.`.
#[derive(Debug, PartialEq, Eq, Structural)]
pub enum GridError {
    IncorrectSize { expected: usize, actual: usize },
    InvalidDigit(u32),
    InvalidCharacter(char),
}

/// A 9x9 grid of cells, stored row-major: cell (i, j) sits at index i*9 + j.
#[derive(Clone, Debug)]
pub struct Grid {
    cells: Vec<Cell>,
}

impl View for Grid {
    type V = Seq<Cell>;

    closed spec fn view(&self) -> Seq<Cell> {
        self.cells@
    }
}

/// A cell is well formed when a known digit lies in [1, 9].
pub open spec fn cell_ok(c: Cell) -> bool {
    match c {
        Cell::Unknown => true,
        Cell::Known(d) => 1 <= d <= 9,
    }
}

/// The cell of `g` at row `i`, column `j`, by the row-major addressing.
pub open spec fn cell_at(g: Seq<Cell>, i: int, j: int) -> Cell {
    g[i * 9 + j]
}

/// The digit of a known cell; 0 for an unknown one.
pub open spec fn digit_of(c: Cell) -> u32 {
    match c {
        Cell::Unknown => 0,
        Cell::Known(d) => d,
    }
}

/// The cell a single input digit denotes: 0 is unknown, 1 to 9 are known.
pub open spec fn cell_of_digit(d: u32) -> Cell {
    if d == 0 {
        Cell::Unknown
    } else {
        Cell::Known(d)
    }
}

/// The cells that a digit sequence denotes, when every digit lies in [0, 9]:
/// stops at the first digit out of range and reports it.
pub open spec fn cells_of_digits(ds: Seq<u32>) -> Result<Seq<Cell>, GridError>
    decreases ds.len(),
{
    if ds.len() == 0 {
        Ok(Seq::empty())
    } else if ds[0] > 9 {
        Err(GridError::InvalidDigit(ds[0]))
    } else {
        match cells_of_digits(ds.drop_first()) {
            Ok(cs) => Ok(seq![cell_of_digit(ds[0])] + cs),
            Err(e) => Err(e),
        }
    }
}

/// What `Grid::from_digits` returns, as a function of the input digits.
pub open spec fn from_digits_spec(ds: Seq<u32>) -> Result<Seq<Cell>, GridError> {
    if ds.len() != 81 {
        Err(GridError::IncorrectSize { expected: 81, actual: ds.len() as usize })
    } else {
        cells_of_digits(ds)
    }
}

/// Every digit of the sequence lies in [0, 9].
pub open spec fn all_digits_ok(ds: Seq<u32>) -> bool {
    forall|k: int| 0 <= k < ds.len() ==> ds[k] <= 9
}

/// Digit-to-cell conversion succeeds exactly when every digit is in range,
/// and then maps each digit to its cell, preserving order.
pub proof fn lemma_cells_of_digits_ok(ds: Seq<u32>)
    ensures
        cells_of_digits(ds) is Ok <==> all_digits_ok(ds),
        cells_of_digits(ds) is Ok ==> {
            let cs = cells_of_digits(ds)->Ok_0;
            &&& cs.len() == ds.len()
            &&& forall|k: int| 0 <= k < ds.len() ==> cs[k] == cell_of_digit(ds[k])
        },
    decreases ds.len(),
{
    if ds.len() != 0 {
        lemma_cells_of_digits_ok(ds.drop_first());
        if all_digits_ok(ds) {
            assert(all_digits_ok(ds.drop_first())) by {
                assert(forall|k: int|
                    0 <= k < ds.drop_first().len() ==> ds.drop_first()[k] == ds[k + 1]);
            }
        }
        if ds[0] <= 9 && all_digits_ok(ds.drop_first()) {
            assert(ds[0] <= 9 && all_digits_ok(ds.drop_first()) ==> all_digits_ok(ds)) by {
                assert(forall|k: int| 1 <= k < ds.len() ==> ds[k] == ds.drop_first()[k - 1]);
            }
        }
    }
}

/// An out-of-range digit, first among the digits, pins the construction error.
pub proof fn lemma_first_bad_digit(ds: Seq<u32>, k: int)
    requires
        0 <= k < ds.len(),
        ds[k] > 9,
        forall|m: int| 0 <= m < k ==> ds[m] <= 9,
    ensures
        cells_of_digits(ds) == Err::<Seq<Cell>, GridError>(GridError::InvalidDigit(ds[k])),
    decreases k,
{
    if k > 0 {
        lemma_first_bad_digit(ds.drop_first(), k - 1);
    }
}

/// A whitespace character: one with the Unicode White_Space property,
/// which covers tab, newline, carriage return, and space among others.
pub open spec fn is_space(c: char) -> bool {
    let u = c as u32;
    ||| u == 0x09
    ||| u == 0x0A
    ||| u == 0x0B
    ||| u == 0x0C
    ||| u == 0x0D
    ||| u == 0x20
    ||| u == 0x85
    ||| u == 0xA0
    ||| u == 0x1680
    ||| (0x2000 <= u <= 0x200A)
    ||| u == 0x2028
    ||| u == 0x2029
    ||| u == 0x202F
    ||| u == 0x205F
    ||| u == 0x3000
}

/// An ASCII digit character, '0' through '9'.
pub open spec fn is_digit_char(c: char) -> bool {
    0x30 <= c as u32 <= 0x39
}

/// The numeric value of an ASCII digit character.
pub open spec fn digit_val(c: char) -> u32 {
    (c as u32 - 0x30) as u32
}

/// One pass over the characters, digits gathered so far in `acc`:
/// whitespace is skipped, a digit contributes its value, `.` contributes 0,
/// and any other character stops the scan and is reported.
pub open spec fn scan_from(s: Seq<char>, acc: Seq<u32>) -> Result<Seq<u32>, char>
    decreases s.len(),
{
    if s.len() == 0 {
        Ok(acc)
    } else if is_space(s[0]) {
        scan_from(s.drop_first(), acc)
    } else if is_digit_char(s[0]) {
        scan_from(s.drop_first(), acc.push(digit_val(s[0])))
    } else if s[0] == '.' {
        scan_from(s.drop_first(), acc.push(0))
    } else {
        Err(s[0])
    }
}

/// The digit sequence that a text denotes, or its first unacceptable
/// character.
pub open spec fn scan_digits(s: Seq<char>) -> Result<Seq<u32>, char> {
    scan_from(s, Seq::empty())
}

/// What `Grid::from_str` returns, as a function of the input characters.
pub open spec fn from_text_spec(s: Seq<char>) -> Result<Seq<Cell>, GridError> {
    match scan_digits(s) {
        Ok(ds) => from_digits_spec(ds),
        Err(c) => Err(GridError::InvalidCharacter(c)),
    }
}

/// Scanning a concatenation scans the first part, then goes on with the
/// second from the digits gathered; an error in the first part is final.
pub proof fn lemma_scan_append(a: Seq<char>, b: Seq<char>, acc: Seq<u32>)
    ensures
        match scan_from(a, acc) {
            Ok(acc2) => scan_from(a + b, acc) == scan_from(b, acc2),
            Err(c) => scan_from(a + b, acc) == Err::<Seq<u32>, char>(c),
        },
    decreases a.len(),
{
    if a.len() == 0 {
        assert(a + b =~= b);
    } else {
        let c = a[0];
        assert((a + b)[0] == c);
        assert((a + b).drop_first() =~= a.drop_first() + b);
        if is_space(c) {
            lemma_scan_append(a.drop_first(), b, acc);
        } else if is_digit_char(c) {
            lemma_scan_append(a.drop_first(), b, acc.push(digit_val(c)));
        } else if c == '.' {
            lemma_scan_append(a.drop_first(), b, acc.push(0));
        }
    }
}

/// Whitespace inserted anywhere in a text leaves the scanned digits, or the
/// reported character, exactly as they were.
pub proof fn lemma_whitespace_skipped(s1: Seq<char>, c: char, s2: Seq<char>)
    requires
        is_space(c),
    ensures
        scan_digits(s1 + seq![c] + s2) == scan_digits(s1 + s2),
{
    lemma_scan_append(s1, seq![c] + s2, Seq::empty());
    lemma_scan_append(s1, s2, Seq::empty());
    assert(s1 + seq![c] + s2 =~= s1 + (seq![c] + s2));
    match scan_from(s1, Seq::empty()) {
        Ok(acc) => {
            assert((seq![c] + s2)[0] == c);
            assert((seq![c] + s2).drop_first() =~= s2);
        },
        Err(_) => {},
    }
}

/// The first character that is neither whitespace, a digit, nor `.` is the
/// one the scan reports.
pub proof fn lemma_first_bad_char(s: Seq<char>, k: int)
    requires
        0 <= k < s.len(),
        !is_space(s[k]),
        !is_digit_char(s[k]),
        s[k] != '.',
        forall|m: int| 0 <= m < k ==> is_space(#[trigger] s[m]) || is_digit_char(s[m]) || s[m]
            == '.',
    ensures
        scan_digits(s) == Err::<Seq<u32>, char>(s[k]),
{
    lemma_first_bad_char_from(s, k, Seq::empty());
}

proof fn lemma_first_bad_char_from(s: Seq<char>, k: int, acc: Seq<u32>)
    requires
        0 <= k < s.len(),
        !is_space(s[k]),
        !is_digit_char(s[k]),
        s[k] != '.',
        forall|m: int| 0 <= m < k ==> is_space(#[trigger] s[m]) || is_digit_char(s[m]) || s[m]
            == '.',
    ensures
        scan_from(s, acc) == Err::<Seq<u32>, char>(s[k]),
    decreases k,
{
    if k > 0 {
        let c = s[0];
        if is_space(c) {
            lemma_first_bad_char_from(s.drop_first(), k - 1, acc);
        } else if is_digit_char(c) {
            lemma_first_bad_char_from(s.drop_first(), k - 1, acc.push(digit_val(c)));
        } else {
            lemma_first_bad_char_from(s.drop_first(), k - 1, acc.push(0));
        }
    }
}

/// The digits that a grid's cells denote, row-major: a known cell its
/// digit, an unknown one 0.
pub open spec fn digits_of(g: Seq<Cell>) -> Seq<u32> {
    Seq::new(g.len(), |k: int| digit_of(g[k]))
}

/// Feeding a fully-known grid's own digits back to construction reproduces
/// exactly that grid.
pub proof fn lemma_digits_round_trip(g: Seq<Cell>)
    requires
        g.len() == 81,
        forall|k: int| 0 <= k < 81 ==> cell_ok(#[trigger] g[k]),
        forall|k: int| 0 <= k < 81 ==> #[trigger] g[k] is Known,
    ensures
        from_digits_spec(digits_of(g)) == Ok::<Seq<Cell>, GridError>(g),
{
    let ds = digits_of(g);
    lemma_cells_of_digits_ok(ds);
    assert(all_digits_ok(ds));
    let cs = cells_of_digits(ds)->Ok_0;
    assert(cs =~= g);
}

/// The character that renders a digit.
pub open spec fn digit_char(d: u32) -> char {
    if d == 1 {
        '1'
    } else if d == 2 {
        '2'
    } else if d == 3 {
        '3'
    } else if d == 4 {
        '4'
    } else if d == 5 {
        '5'
    } else if d == 6 {
        '6'
    } else if d == 7 {
        '7'
    } else if d == 8 {
        '8'
    } else if d == 9 {
        '9'
    } else {
        '0'
    }
}

/// The character that renders a cell: its digit, or `.` when unknown.
pub open spec fn cell_char(c: Cell) -> char {
    match c {
        Cell::Unknown => '.',
        Cell::Known(d) => digit_char(d),
    }
}

/// What follows the cell in column `j` of a rendered row: a space, with a
/// `| ` group separator after the third and sixth column, nothing at the end.
pub open spec fn col_sep(j: int) -> Seq<char> {
    if j < 8 {
        if (j + 1) % 3 == 0 {
            seq![' ', '|', ' ']
        } else {
            seq![' ']
        }
    } else {
        Seq::empty()
    }
}

/// The horizontal separator: a line of 21 dashes.
pub open spec fn dash_line() -> Seq<char> {
    seq![
        '-', '-', '-', '-', '-', '-', '-', '-', '-', '-', '-', '-', '-', '-', '-', '-', '-', '-',
        '-', '-', '-',
    ]
}

/// What follows row `i` in the rendering: a newline, with a dash line after
/// the third and sixth row, nothing after the last.
pub open spec fn row_sep(i: int) -> Seq<char> {
    if i < 8 {
        if (i + 1) % 3 == 0 {
            seq!['\n'] + dash_line() + seq!['\n']
        } else {
            seq!['\n']
        }
    } else {
        Seq::empty()
    }
}

/// The rendering of row `i` from column `j` on.
pub open spec fn render_row_from(g: Seq<Cell>, i: int, j: int) -> Seq<char>
    decreases 9 - j,
{
    if j < 0 || j >= 9 {
        Seq::empty()
    } else {
        seq![cell_char(cell_at(g, i, j))] + col_sep(j) + render_row_from(g, i, j + 1)
    }
}

/// The rendering of the grid from row `i` on.
pub open spec fn render_rows_from(g: Seq<Cell>, i: int) -> Seq<char>
    decreases 9 - i,
{
    if i < 0 || i >= 9 {
        Seq::empty()
    } else {
        render_row_from(g, i, 0) + row_sep(i) + render_rows_from(g, i + 1)
    }
}

/// The full 9x9 rendering: digits and `.`, space-separated, with `| ` after
/// the third and sixth columns and a dash line after the third and sixth
/// rows.
pub open spec fn render_spec(g: Seq<Cell>) -> Seq<char> {
    render_rows_from(g, 0)
}

/// The rendering with its group marks `|` and `-` read as blanks, the way a
/// reader skips them when typing a grid back in.
pub open spec fn blank_marks(s: Seq<char>) -> Seq<char> {
    s.map(|k: int, c: char| if c == '|' || c == '-' { ' ' } else { c })
}

/// The digits of row `i` from column `j` on, row-major.
pub open spec fn row_digits(g: Seq<Cell>, i: int, j: int) -> Seq<u32>
    decreases 9 - j,
{
    if j < 0 || j >= 9 {
        Seq::empty()
    } else {
        seq![digit_of(cell_at(g, i, j))] + row_digits(g, i, j + 1)
    }
}

/// The digits of the grid from row `i` on, row-major.
pub open spec fn rows_digits(g: Seq<Cell>, i: int) -> Seq<u32>
    decreases 9 - i,
{
    if i < 0 || i >= 9 {
        Seq::empty()
    } else {
        row_digits(g, i, 0) + rows_digits(g, i + 1)
    }
}

proof fn lemma_blank_marks_append(a: Seq<char>, b: Seq<char>)
    ensures
        blank_marks(a + b) == blank_marks(a) + blank_marks(b),
{
    assert(blank_marks(a + b) =~= blank_marks(a) + blank_marks(b));
}

/// A run of whitespace ahead of the scan changes nothing.
proof fn lemma_scan_spaces(sp: Seq<char>, rest: Seq<char>, acc: Seq<u32>)
    requires
        forall|k: int| 0 <= k < sp.len() ==> is_space(#[trigger] sp[k]),
    ensures
        scan_from(sp + rest, acc) == scan_from(rest, acc),
    decreases sp.len(),
{
    if sp.len() == 0 {
        assert(sp + rest =~= rest);
    } else {
        assert((sp + rest)[0] == sp[0]);
        assert((sp + rest).drop_first() =~= sp.drop_first() + rest);
        lemma_scan_spaces(sp.drop_first(), rest, acc);
    }
}

/// Scanning the blanked rendering of row `i` from column `j` gathers exactly
/// that row's digits, then goes on with whatever follows.
proof fn lemma_scan_blanked_row(g: Seq<Cell>, i: int, j: int, rest: Seq<char>, acc: Seq<u32>)
    requires
        g.len() == 81,
        0 <= i < 9,
        0 <= j <= 9,
        forall|k: int| 0 <= k < 81 ==> cell_ok(#[trigger] g[k]),
        forall|k: int| 0 <= k < 81 ==> #[trigger] g[k] is Known,
    ensures
        scan_from(blank_marks(render_row_from(g, i, j)) + rest, acc) == scan_from(
            rest,
            acc + row_digits(g, i, j),
        ),
    decreases 9 - j,
{
    if j >= 9 {
        assert(blank_marks(render_row_from(g, i, j)) + rest =~= rest);
        assert(acc + row_digits(g, i, j) =~= acc);
    } else {
        assert(0 <= i * 9 + j < 81);
        assert(g[i * 9 + j] is Known && cell_ok(g[i * 9 + j]));
        let c = cell_at(g, i, j);
        let d = digit_of(c);
        let dc = cell_char(c);
        assert(1 <= d <= 9);
        assert(is_digit_char(dc) && digit_val(dc) == d && !is_space(dc));

        let restw = blank_marks(render_row_from(g, i, j + 1)) + rest;
        let tail = blank_marks(col_sep(j)) + restw;
        lemma_blank_marks_append(seq![dc] + col_sep(j), render_row_from(g, i, j + 1));
        lemma_blank_marks_append(seq![dc], col_sep(j));
        assert(blank_marks(seq![dc]) =~= seq![dc]);
        assert(blank_marks(render_row_from(g, i, j)) + rest =~= seq![dc] + tail);

        assert((seq![dc] + tail)[0] == dc);
        assert((seq![dc] + tail).drop_first() =~= tail);
        assert(scan_from(seq![dc] + tail, acc) == scan_from(tail, acc.push(d)));

        assert(forall|k: int|
            0 <= k < blank_marks(col_sep(j)).len() ==> is_space(
                #[trigger] blank_marks(col_sep(j))[k],
            ));
        lemma_scan_spaces(blank_marks(col_sep(j)), restw, acc.push(d));
        lemma_scan_blanked_row(g, i, j + 1, rest, acc.push(d));
        assert(acc.push(d) + row_digits(g, i, j + 1) =~= acc + row_digits(g, i, j));
    }
}

/// Scanning the blanked rendering from row `i` on gathers exactly the
/// remaining rows' digits.
proof fn lemma_scan_blanked_rows(g: Seq<Cell>, i: int, rest: Seq<char>, acc: Seq<u32>)
    requires
        g.len() == 81,
        0 <= i <= 9,
        forall|k: int| 0 <= k < 81 ==> cell_ok(#[trigger] g[k]),
        forall|k: int| 0 <= k < 81 ==> #[trigger] g[k] is Known,
    ensures
        scan_from(blank_marks(render_rows_from(g, i)) + rest, acc) == scan_from(
            rest,
            acc + rows_digits(g, i),
        ),
    decreases 9 - i,
{
    if i >= 9 {
        assert(blank_marks(render_rows_from(g, i)) + rest =~= rest);
        assert(acc + rows_digits(g, i) =~= acc);
    } else {
        let restw = blank_marks(render_rows_from(g, i + 1)) + rest;
        lemma_blank_marks_append(render_row_from(g, i, 0) + row_sep(i), render_rows_from(g, i + 1));
        lemma_blank_marks_append(render_row_from(g, i, 0), row_sep(i));
        assert(blank_marks(render_rows_from(g, i)) + rest =~= blank_marks(
            render_row_from(g, i, 0),
        ) + (blank_marks(row_sep(i)) + restw));

        lemma_scan_blanked_row(g, i, 0, blank_marks(row_sep(i)) + restw, acc);
        assert(forall|k: int|
            0 <= k < blank_marks(row_sep(i)).len() ==> is_space(
                #[trigger] blank_marks(row_sep(i))[k],
            ));
        lemma_scan_spaces(blank_marks(row_sep(i)), restw, acc + row_digits(g, i, 0));
        lemma_scan_blanked_rows(g, i + 1, rest, acc + row_digits(g, i, 0));
        assert((acc + row_digits(g, i, 0)) + rows_digits(g, i + 1) =~= acc + rows_digits(g, i));
    }
}

proof fn lemma_row_digits_index(g: Seq<Cell>, i: int, j: int)
    requires
        0 <= j <= 9,
    ensures
        row_digits(g, i, j).len() == 9 - j,
        forall|t: int| 0 <= t < 9 - j ==> #[trigger] row_digits(g, i, j)[t] == digit_of(
            cell_at(g, i, j + t),
        ),
    decreases 9 - j,
{
    if j < 9 {
        lemma_row_digits_index(g, i, j + 1);
    }
}

proof fn lemma_rows_digits_index(g: Seq<Cell>, i: int)
    requires
        0 <= i <= 9,
    ensures
        rows_digits(g, i).len() == (9 - i) * 9,
        forall|t: int| 0 <= t < (9 - i) * 9 ==> #[trigger] rows_digits(g, i)[t] == digit_of(
            g[i * 9 + t],
        ),
    decreases 9 - i,
{
    if i < 9 {
        lemma_row_digits_index(g, i, 0);
        lemma_rows_digits_index(g, i + 1);
        assert forall|t: int| 0 <= t < (9 - i) * 9 implies #[trigger] rows_digits(g, i)[t]
            == digit_of(g[i * 9 + t]) by {
            if t < 9 {
                assert(rows_digits(g, i)[t] == row_digits(g, i, 0)[t]);
                assert(row_digits(g, i, 0)[t] == digit_of(cell_at(g, i, t)));
            } else {
                assert(rows_digits(g, i)[t] == rows_digits(g, i + 1)[t - 9]);
                assert(rows_digits(g, i + 1)[t - 9] == digit_of(g[(i + 1) * 9 + (t - 9)]));
                assert((i + 1) * 9 + (t - 9) == i * 9 + t);
            }
        }
    }
}

/// Rendering a fully-known grid and reading it back, with the group marks
/// `|` and `-` taken as blanks, reproduces exactly that grid.
pub proof fn lemma_render_round_trip(g: Seq<Cell>)
    requires
        g.len() == 81,
        forall|k: int| 0 <= k < 81 ==> cell_ok(#[trigger] g[k]),
        forall|k: int| 0 <= k < 81 ==> #[trigger] g[k] is Known,
    ensures
        from_text_spec(blank_marks(render_spec(g))) == Ok::<Seq<Cell>, GridError>(g),
{
    lemma_scan_blanked_rows(g, 0, Seq::empty(), Seq::empty());
    assert(blank_marks(render_spec(g)) + Seq::<char>::empty() =~= blank_marks(render_spec(g)));
    assert(Seq::<u32>::empty() + rows_digits(g, 0) =~= rows_digits(g, 0));
    lemma_rows_digits_index(g, 0);
    assert(rows_digits(g, 0) =~= digits_of(g));
    lemma_digits_round_trip(g);
}

/// Appends the one-character rendering of a cell.
fn push_cell_char(out: &mut String, c: Cell)
    requires
        cell_ok(c),
    ensures
        final(out)@ == old(out)@ + seq![cell_char(c)],
{
    match c {
        Cell::Unknown => {
            out.append(".");
            proof {
                reveal_strlit(".");
                assert(out@ =~= old(out)@ + seq![cell_char(c)]);
            }
        },
        Cell::Known(d) => {
            if d == 1 {
                out.append("1");
                proof {
                    reveal_strlit("1");
                }
            } else if d == 2 {
                out.append("2");
                proof {
                    reveal_strlit("2");
                }
            } else if d == 3 {
                out.append("3");
                proof {
                    reveal_strlit("3");
                }
            } else if d == 4 {
                out.append("4");
                proof {
                    reveal_strlit("4");
                }
            } else if d == 5 {
                out.append("5");
                proof {
                    reveal_strlit("5");
                }
            } else if d == 6 {
                out.append("6");
                proof {
                    reveal_strlit("6");
                }
            } else if d == 7 {
                out.append("7");
                proof {
                    reveal_strlit("7");
                }
            } else if d == 8 {
                out.append("8");
                proof {
                    reveal_strlit("8");
                }
            } else {
                out.append("9");
                proof {
                    reveal_strlit("9");
                }
            }
            proof {
                assert(out@ =~= old(out)@ + seq![cell_char(c)]);
            }
        },
    }
}

/// Whether `c` has the Unicode White_Space property.
fn is_space_char(c: char) -> (r: bool)
    ensures
        r == is_space(c),
{
    let u = c as u32;
    u == 0x09 || u == 0x0A || u == 0x0B || u == 0x0C || u == 0x0D || u == 0x20 || u == 0x85 || u
        == 0xA0 || u == 0x1680 || (0x2000 <= u && u <= 0x200A) || u == 0x2028 || u == 0x2029 || u
        == 0x202F || u == 0x205F || u == 0x3000
}

impl Grid {
    /// The grid invariant: exactly 81 cells, each well formed.
    pub open spec fn wf(&self) -> bool {
        &&& self@.len() == 81
        &&& forall|k: int| 0 <= k < 81 ==> cell_ok(#[trigger] self@[k])
    }

    /// Builds a grid from exactly 81 digits in [0, 9], where 0 denotes an
    /// unknown cell; rejects any other length or value, naming the first
    /// out-of-range digit.
    pub fn from_digits(digits: &[u32]) -> (r: Result<Grid, GridError>)
        ensures
            match r {
                Ok(g) => {
                    &&& from_digits_spec(digits@) == Ok::<Seq<Cell>, GridError>(g@)
                    &&& g.wf()
                },
                Err(e) => from_digits_spec(digits@) == Err::<Seq<Cell>, GridError>(e),
            },
    {
        if digits.len() != 81 {
            return Err(GridError::IncorrectSize { expected: 81, actual: digits.len() });
        }

        let mut cells: Vec<Cell> = Vec::with_capacity(81);
        let mut k: usize = 0;
        while k < 81
            invariant
                k <= 81,
                digits@.len() == 81,
                cells@.len() == k,
                forall|m: int| 0 <= m < k ==> digits@[m] <= 9,
                forall|m: int| 0 <= m < k ==> cells@[m] == cell_of_digit(digits@[m]),
            decreases 81 - k,
        {
            let d = digits[k];
            if d > 9 {
                proof {
                    lemma_first_bad_digit(digits@, k as int);
                }
                return Err(GridError::InvalidDigit(d));
            }
            if d == 0 {
                cells.push(Cell::Unknown);
            } else {
                cells.push(Cell::Known(d));
            }
            k = k + 1;
        }

        proof {
            lemma_cells_of_digits_ok(digits@);
            assert(cells_of_digits(digits@)->Ok_0 =~= cells@);
        }
        Ok(Grid { cells })
    }

    /// Builds a grid from text: whitespace is skipped, `.` denotes an
    /// unknown cell, an ASCII digit denotes its value (0 again unknown), and
    /// any other character is rejected at once. The digits gathered then go
    /// through the same validation as `from_digits`.
    #[verifier::loop_isolation(false)]
    pub fn from_str(s: &str) -> (r: Result<Grid, GridError>)
        ensures
            match r {
                Ok(g) => {
                    &&& from_text_spec(s@) == Ok::<Seq<Cell>, GridError>(g@)
                    &&& g.wf()
                },
                Err(e) => from_text_spec(s@) == Err::<Seq<Cell>, GridError>(e),
            },
    {
        let n = s.unicode_len();
        let mut digits: Vec<u32> = Vec::new();
        let mut k: usize = 0;
        proof {
            assert(s@.skip(0) =~= s@);
        }
        while k < n
            invariant
                k <= n,
                scan_digits(s@) == scan_from(s@.skip(k as int), digits@),
            decreases n - k,
        {
            let c = s.get_char(k);
            proof {
                assert(s@.skip(k as int)[0] == c);
                assert(s@.skip(k as int).drop_first() =~= s@.skip(k as int + 1));
            }
            if is_space_char(c) {
                // skipped
            } else if '0' <= c && c <= '9' {
                let d = c as u32 - 0x30;
                assert(d == digit_val(c));
                digits.push(d);
            } else if c == '.' {
                digits.push(0);
            } else {
                return Err(GridError::InvalidCharacter(c));
            }
            k = k + 1;
        }
        proof {
            assert(s@.skip(n as int) =~= Seq::<char>::empty());
        }
        Self::from_digits(digits.as_slice())
    }

    /// Renders the grid for display: nine rows of digits, `.` for unknown
    /// cells, a space between neighbours, `| ` after the third and sixth
    /// column, and a line of 21 dashes after the third and sixth row.
    #[verifier::loop_isolation(false)]
    pub fn render(&self) -> (r: String)
        requires
            self.wf(),
        ensures
            r@ == render_spec(self@),
    {
        let ghost g = self@;
        let mut out = String::new();
        for i in 0..9usize
            invariant
                out@ + render_rows_from(g, i as int) == render_spec(g),
        {
            proof {
                assert(out@ + (render_row_from(g, i as int, 0) + row_sep(i as int)
                    + render_rows_from(g, i as int + 1)) =~= (out@ + render_row_from(
                    g,
                    i as int,
                    0,
                )) + (row_sep(i as int) + render_rows_from(g, i as int + 1)));
            }
            for j in 0..9usize
                invariant
                    (out@ + render_row_from(g, i as int, j as int)) + (row_sep(i as int)
                        + render_rows_from(g, i as int + 1)) == render_spec(g),
            {
                let ghost before = out@;
                push_cell_char(&mut out, self.cell(i, j));
                if j < 8 {
                    out.append(" ");
                    proof {
                        reveal_strlit(" ");
                    }
                    if (j + 1) % 3 == 0 {
                        out.append("| ");
                        proof {
                            reveal_strlit("| ");
                        }
                    }
                }
                proof {
                    assert(out@ =~= before + (seq![cell_char(cell_at(g, i as int, j as int))]
                        + col_sep(j as int)));
                    assert(before + render_row_from(g, i as int, j as int) =~= out@
                        + render_row_from(g, i as int, j as int + 1));
                    assert((out@ + render_row_from(g, i as int, j as int + 1)) + (row_sep(i as int)
                        + render_rows_from(g, i as int + 1)) == render_spec(g));
                }
            }
            let ghost before = out@;
            if i < 8 {
                out.append("\n");
                proof {
                    reveal_strlit("\n");
                }
                if (i + 1) % 3 == 0 {
                    out.append("---------------------");
                    out.append("\n");
                    proof {
                        reveal_strlit("---------------------");
                        reveal_strlit("\n");
                    }
                }
            }
            proof {
                assert(render_row_from(g, i as int, 9) =~= Seq::<char>::empty());
                assert(out@ =~= before + row_sep(i as int));
                assert(out@ + render_rows_from(g, i as int + 1) =~= (before + render_row_from(
                    g,
                    i as int,
                    9,
                )) + (row_sep(i as int) + render_rows_from(g, i as int + 1)));
            }
        }
        proof {
            assert(render_rows_from(g, 9) =~= Seq::<char>::empty());
            assert(out@ =~= out@ + render_rows_from(g, 9));
        }
        out
    }

    /// Reads the cell at row `i`, column `j`.
    pub fn cell(&self, i: usize, j: usize) -> (c: Cell)
        requires
            self.wf(),
            i < 9,
            j < 9,
        ensures
            c == cell_at(self@, i as int, j as int),
    {
        self.cells[i * 9 + j]
    }

    /// Writes the cell at row `i`, column `j`, leaving every other cell as it
    /// was.
    pub fn set_cell(&mut self, i: usize, j: usize, cell: Cell)
        requires
            old(self).wf(),
            i < 9,
            j < 9,
        ensures
            final(self)@ == old(self)@.update(i as int * 9 + j as int, cell),
            cell_ok(cell) ==> final(self).wf(),
    {
        self.cells[i * 9 + j] = cell;
    }
}

impl PartialEq for Grid {
    /// Two grids are equal when they hold the same cells.
    fn eq(&self, other: &Grid) -> (r: bool) {
        if self.cells.len() != other.cells.len() {
            return false;
        }
        let mut k: usize = 0;
        while k < self.cells.len()
            invariant
                k <= self.cells@.len(),
                self.cells@.len() == other.cells@.len(),
                forall|m: int| 0 <= m < k ==> self.cells@[m] == other.cells@[m],
            decreases self.cells@.len() - k,
        {
            if self.cells[k] != other.cells[k] {
                return false;
            }
            k = k + 1;
        }
        proof {
            assert(self@ =~= other@);
        }
        true
    }
}

impl vstd::std_specs::cmp::PartialEqSpecImpl for Grid {
    open spec fn obeys_eq_spec() -> bool {
        true
    }

    open spec fn eq_spec(&self, other: &Grid) -> bool {
        self@ == other@
    }
}

} // verus!
