//! Validation of a completed grid: every row, column, and 3x3 block must
//! hold nine distinct known digits.

use vstd::prelude::*;

use crate::grid::{cell_at, cell_of_digit, from_digits_spec, lemma_cells_of_digits_ok, Cell, Grid};

verus! {

/// The digit of `ds` at row `i`, column `j`, by the row-major addressing.
pub open spec fn digit_at(ds: Seq<u32>, i: int, j: int) -> u32 {
    ds[i * 9 + j]
}

/// Row `i` holds nine known cells, no two alike.
pub open spec fn row_ok(g: Seq<Cell>, i: int) -> bool {
    &&& forall|j: int| 0 <= j < 9 ==> cell_at(g, i, j) is Known
    &&& forall|j1: int, j2: int|
        0 <= j1 < 9 && 0 <= j2 < 9 && j1 != j2 ==> cell_at(g, i, j1) != cell_at(g, i, j2)
}

/// Column `j` holds nine known cells, no two alike.
pub open spec fn col_ok(g: Seq<Cell>, j: int) -> bool {
    &&& forall|i: int| 0 <= i < 9 ==> cell_at(g, i, j) is Known
    &&& forall|i1: int, i2: int|
        0 <= i1 < 9 && 0 <= i2 < 9 && i1 != i2 ==> cell_at(g, i1, j) != cell_at(g, i2, j)
}

/// Cell (k, l) lies in the 3x3 block with block coordinates (bi, bj).
pub open spec fn in_block(bi: int, bj: int, k: int, l: int) -> bool {
    &&& 3 * bi <= k < 3 * bi + 3
    &&& 3 * bj <= l < 3 * bj + 3
}

/// Block (bi, bj) holds nine known cells, no two alike.
pub open spec fn block_ok(g: Seq<Cell>, bi: int, bj: int) -> bool {
    &&& forall|k: int, l: int| in_block(bi, bj, k, l) ==> cell_at(g, k, l) is Known
    &&& forall|k1: int, l1: int, k2: int, l2: int|
        in_block(bi, bj, k1, l1) && in_block(bi, bj, k2, l2) && !(k1 == k2 && l1 == l2)
            ==> cell_at(g, k1, l1) != cell_at(g, k2, l2)
}

/// A complete, legal assignment: every row, column, and block passes.
pub open spec fn grid_valid(g: Seq<Cell>) -> bool {
    &&& forall|i: int| 0 <= i < 9 ==> row_ok(g, i)
    &&& forall|j: int| 0 <= j < 9 ==> col_ok(g, j)
    &&& forall|bi: int, bj: int| 0 <= bi < 3 && 0 <= bj < 3 ==> block_ok(g, bi, bj)
}

/// Eighty-one digits in [1, 9] with no repeat in any row, column, or block
/// construct a grid that validates: `check_grid` returns true on it.
pub proof fn lemma_valid_digits_give_valid_grid(ds: Seq<u32>)
    requires
        ds.len() == 81,
        forall|k: int| 0 <= k < 81 ==> 1 <= #[trigger] ds[k] <= 9,
        forall|i: int, j1: int, j2: int|
            0 <= i < 9 && 0 <= j1 < 9 && 0 <= j2 < 9 && j1 != j2
                ==> digit_at(ds, i, j1) != digit_at(ds, i, j2),
        forall|j: int, i1: int, i2: int|
            0 <= j < 9 && 0 <= i1 < 9 && 0 <= i2 < 9 && i1 != i2
                ==> digit_at(ds, i1, j) != digit_at(ds, i2, j),
        forall|bi: int, bj: int, k1: int, l1: int, k2: int, l2: int|
            0 <= bi < 3 && 0 <= bj < 3 && in_block(bi, bj, k1, l1) && in_block(bi, bj, k2, l2)
                && !(k1 == k2 && l1 == l2) ==> digit_at(ds, k1, l1) != digit_at(ds, k2, l2),
    ensures
        from_digits_spec(ds) is Ok,
        grid_valid(from_digits_spec(ds)->Ok_0),
{
    lemma_cells_of_digits_ok(ds);
    let cs = from_digits_spec(ds)->Ok_0;
    assert forall|i: int, j: int| 0 <= i < 9 && 0 <= j < 9 implies cell_at(cs, i, j)
        == Cell::Known(digit_at(ds, i, j)) by {
        assert(0 <= i * 9 + j < 81);
        assert(cs[i * 9 + j] == cell_of_digit(ds[i * 9 + j]));
        assert(1 <= ds[i * 9 + j] <= 9);
    }
    assert forall|i: int| 0 <= i < 9 implies row_ok(cs, i) by {
        assert(forall|j: int| 0 <= j < 9 ==> cell_at(cs, i, j) is Known);
        assert(forall|j1: int, j2: int|
            0 <= j1 < 9 && 0 <= j2 < 9 && j1 != j2 ==> cell_at(cs, i, j1) != cell_at(cs, i, j2));
    }
    assert forall|j: int| 0 <= j < 9 implies col_ok(cs, j) by {
        assert(forall|i: int| 0 <= i < 9 ==> cell_at(cs, i, j) is Known);
        assert(forall|i1: int, i2: int|
            0 <= i1 < 9 && 0 <= i2 < 9 && i1 != i2 ==> cell_at(cs, i1, j) != cell_at(cs, i2, j));
    }
    assert forall|bi: int, bj: int| 0 <= bi < 3 && 0 <= bj < 3 implies block_ok(cs, bi, bj) by {
        assert(forall|k: int, l: int|
            in_block(bi, bj, k, l) ==> 0 <= k < 9 && 0 <= l < 9 && cell_at(cs, k, l) is Known);
        assert(forall|k1: int, l1: int, k2: int, l2: int|
            in_block(bi, bj, k1, l1) && in_block(bi, bj, k2, l2) && !(k1 == k2 && l1 == l2)
                ==> cell_at(cs, k1, l1) != cell_at(cs, k2, l2));
    }
}

/// A grid with any unknown cell never validates.
pub proof fn lemma_unknown_cell_invalid(g: Seq<Cell>, k: int)
    requires
        g.len() == 81,
        0 <= k < 81,
        g[k] is Unknown,
    ensures
        !grid_valid(g),
{
    let i = k / 9;
    let j = k % 9;
    assert(0 <= i < 9);
    assert(0 <= j < 9);
    assert(i * 9 + j == k);
    if grid_valid(g) {
        assert(row_ok(g, i));
        assert(cell_at(g, i, j) is Known);
    }
}

/// A repeated known cell within one row makes the whole grid invalid, no
/// matter what the rest of the grid holds.
pub proof fn lemma_row_duplicate_invalid(g: Seq<Cell>, i: int, j1: int, j2: int)
    requires
        g.len() == 81,
        0 <= i < 9,
        0 <= j1 < 9,
        0 <= j2 < 9,
        j1 != j2,
        cell_at(g, i, j1) is Known,
        cell_at(g, i, j1) == cell_at(g, i, j2),
    ensures
        !grid_valid(g),
{
    if grid_valid(g) {
        assert(row_ok(g, i));
        assert(cell_at(g, i, j1) != cell_at(g, i, j2));
    }
}

/// A repeated known cell within one column makes the whole grid invalid, no
/// matter what the rest of the grid holds.
pub proof fn lemma_column_duplicate_invalid(g: Seq<Cell>, j: int, i1: int, i2: int)
    requires
        g.len() == 81,
        0 <= j < 9,
        0 <= i1 < 9,
        0 <= i2 < 9,
        i1 != i2,
        cell_at(g, i1, j) is Known,
        cell_at(g, i1, j) == cell_at(g, i2, j),
    ensures
        !grid_valid(g),
{
    if grid_valid(g) {
        assert(col_ok(g, j));
        assert(cell_at(g, i1, j) != cell_at(g, i2, j));
    }
}

/// A repeated known cell within one block makes the whole grid invalid, no
/// matter what the rest of the grid holds.
pub proof fn lemma_block_duplicate_invalid(
    g: Seq<Cell>,
    bi: int,
    bj: int,
    k1: int,
    l1: int,
    k2: int,
    l2: int,
)
    requires
        g.len() == 81,
        0 <= bi < 3,
        0 <= bj < 3,
        in_block(bi, bj, k1, l1),
        in_block(bi, bj, k2, l2),
        !(k1 == k2 && l1 == l2),
        cell_at(g, k1, l1) is Known,
        cell_at(g, k1, l1) == cell_at(g, k2, l2),
    ensures
        !grid_valid(g),
{
    if grid_valid(g) {
        assert(block_ok(g, bi, bj));
        assert(cell_at(g, k1, l1) != cell_at(g, k2, l2));
    }
}

/// Whether the grid is a complete, legal assignment: nine distinct known
/// digits in every row, every column, and every 3x3 block. Any unknown cell,
/// or any duplicate, fails.
#[must_use]
pub fn check_grid(grid: &Grid) -> (r: bool)
    requires
        grid.wf(),
    ensures
        r == grid_valid(grid@),
{
    check_rows(grid) && check_columns(grid) && check_blocks(grid)
}

/// Whether every row holds nine distinct known cells.
#[verifier::loop_isolation(false)]
pub fn check_rows(grid: &Grid) -> (r: bool)
    requires
        grid.wf(),
    ensures
        r == forall|i: int| 0 <= i < 9 ==> row_ok(grid@, i),
{
    for i in 0..9usize
        invariant
            forall|m: int| 0 <= m < i ==> row_ok(grid@, m),
    {
        for j in 0..9usize
            invariant
                forall|n: int| 0 <= n < j ==> cell_at(grid@, i as int, n) is Known,
                forall|n1: int, n2: int|
                    0 <= n1 < j && 0 <= n2 < j && n1 != n2
                        ==> cell_at(grid@, i as int, n1) != cell_at(grid@, i as int, n2),
        {
            let c = grid.cell(i, j);
            if matches!(c, Cell::Unknown) {
                assert(!row_ok(grid@, i as int));
                return false;
            }
            for jp in 0..j
                invariant
                    c == cell_at(grid@, i as int, j as int),
                    forall|n: int| 0 <= n < jp ==> cell_at(grid@, i as int, n) != c,
            {
                if grid.cell(i, jp) == c {
                    assert(!row_ok(grid@, i as int));
                    return false;
                }
            }
        }
    }
    true
}

/// Whether every column holds nine distinct known cells.
#[verifier::loop_isolation(false)]
pub fn check_columns(grid: &Grid) -> (r: bool)
    requires
        grid.wf(),
    ensures
        r == forall|j: int| 0 <= j < 9 ==> col_ok(grid@, j),
{
    for j in 0..9usize
        invariant
            forall|m: int| 0 <= m < j ==> col_ok(grid@, m),
    {
        for i in 0..9usize
            invariant
                forall|n: int| 0 <= n < i ==> cell_at(grid@, n, j as int) is Known,
                forall|n1: int, n2: int|
                    0 <= n1 < i && 0 <= n2 < i && n1 != n2
                        ==> cell_at(grid@, n1, j as int) != cell_at(grid@, n2, j as int),
        {
            let c = grid.cell(i, j);
            if matches!(c, Cell::Unknown) {
                assert(!col_ok(grid@, j as int));
                return false;
            }
            for ip in 0..i
                invariant
                    c == cell_at(grid@, i as int, j as int),
                    forall|n: int| 0 <= n < ip ==> cell_at(grid@, n, j as int) != c,
            {
                if grid.cell(ip, j) == c {
                    assert(!col_ok(grid@, j as int));
                    return false;
                }
            }
        }
    }
    true
}

/// Whether every 3x3 block holds nine distinct known cells.
#[verifier::loop_isolation(false)]
pub fn check_blocks(grid: &Grid) -> (r: bool)
    requires
        grid.wf(),
    ensures
        r == forall|bi: int, bj: int| 0 <= bi < 3 && 0 <= bj < 3 ==> block_ok(grid@, bi, bj),
{
    for bi in 0..3usize
        invariant
            forall|m: int, n: int| 0 <= m < bi && 0 <= n < 3 ==> block_ok(grid@, m, n),
    {
        for bj in 0..3usize
            invariant
                forall|m: int, n: int| 0 <= m < bi && 0 <= n < 3 ==> block_ok(grid@, m, n),
                forall|n: int| 0 <= n < bj ==> block_ok(grid@, bi as int, n),
        {
            if !check_block(grid, bi, bj) {
                return false;
            }
        }
    }
    true
}

/// Whether the single block (bi, bj) holds nine distinct known cells. Each
/// known cell is compared against every other cell of the block.
#[verifier::loop_isolation(false)]
pub fn check_block(grid: &Grid, bi: usize, bj: usize) -> (r: bool)
    requires
        grid.wf(),
        bi < 3,
        bj < 3,
    ensures
        r == block_ok(grid@, bi as int, bj as int),
{
    let kend = bi * 3 + 3;
    let lend = bj * 3 + 3;
    for k in (bi * 3)..kend
        invariant
            kend == bi * 3 + 3,
            lend == bj * 3 + 3,
            forall|m: int, n: int|
                in_block(bi as int, bj as int, m, n) && m < k ==> cell_at(grid@, m, n) is Known,
            forall|m1: int, n1: int, m2: int, n2: int|
                in_block(bi as int, bj as int, m1, n1) && in_block(bi as int, bj as int, m2, n2)
                    && m1 < k && !(m1 == m2 && n1 == n2)
                    ==> cell_at(grid@, m1, n1) != cell_at(grid@, m2, n2),
    {
        for l in (bj * 3)..lend
            invariant
                bi * 3 <= k < kend,
                forall|m: int, n: int|
                    in_block(bi as int, bj as int, m, n) && (m < k || (m == k && n < l))
                        ==> cell_at(grid@, m, n) is Known,
                forall|m1: int, n1: int, m2: int, n2: int|
                    in_block(bi as int, bj as int, m1, n1)
                        && in_block(bi as int, bj as int, m2, n2)
                        && (m1 < k || (m1 == k && n1 < l)) && !(m1 == m2 && n1 == n2)
                        ==> cell_at(grid@, m1, n1) != cell_at(grid@, m2, n2),
        {
            let c = grid.cell(k, l);
            if matches!(c, Cell::Unknown) {
                assert(in_block(bi as int, bj as int, k as int, l as int));
                assert(!block_ok(grid@, bi as int, bj as int));
                return false;
            }
            for kp in (bi * 3)..kend
                invariant
                    bj * 3 <= l < lend,
                    c == cell_at(grid@, k as int, l as int),
                    c is Known,
                    forall|m: int, n: int|
                        in_block(bi as int, bj as int, m, n) && m < kp && !(m == k && n == l)
                            ==> cell_at(grid@, m, n) != c,
            {
                for lp in (bj * 3)..lend
                    invariant
                        bi * 3 <= kp < kend,
                        forall|m: int, n: int|
                            in_block(bi as int, bj as int, m, n)
                                && (m < kp || (m == kp && n < lp)) && !(m == k && n == l)
                                ==> cell_at(grid@, m, n) != c,
                {
                    if !(kp == k && lp == l) {
                        if grid.cell(kp, lp) == c {
                            assert(in_block(bi as int, bj as int, k as int, l as int));
                            assert(in_block(bi as int, bj as int, kp as int, lp as int));
                            assert(!block_ok(grid@, bi as int, bj as int));
                            return false;
                        }
                    }
                }
            }
        }
    }
    true
}

} // verus!
