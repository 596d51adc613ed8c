//! Backtracking search: fills every unknown cell with a digit that keeps all
//! rows, columns, and blocks free of duplicates, undoing each speculative
//! assignment that leads nowhere.

use vstd::prelude::*;

use crate::check::{check_grid, grid_valid, in_block};
use crate::grid::{cell_at, cell_ok, digit_of, Cell, Grid};

verus! {

/// Digit `x` appears as a known cell somewhere in row `i`.
pub open spec fn row_has(g: Seq<Cell>, i: int, x: u32) -> bool {
    exists|j: int| 0 <= j < 9 && cell_at(g, i, j) == Cell::Known(x)
}

/// Digit `x` appears as a known cell somewhere in column `j`.
pub open spec fn col_has(g: Seq<Cell>, j: int, x: u32) -> bool {
    exists|i: int| 0 <= i < 9 && cell_at(g, i, j) == Cell::Known(x)
}

/// Digit `x` appears as a known cell somewhere in block (bi, bj).
pub open spec fn block_has(g: Seq<Cell>, bi: int, bj: int, x: u32) -> bool {
    exists|k: int, l: int| in_block(bi, bj, k, l) && cell_at(g, k, l) == Cell::Known(x)
}

/// Digit `x` may be placed at (i, j): it appears nowhere in row `i`, column
/// `j`, or the block containing (i, j).
pub open spec fn safe_at(g: Seq<Cell>, i: int, j: int, x: u32) -> bool {
    &&& !row_has(g, i, x)
    &&& !col_has(g, j, x)
    &&& !block_has(g, i / 3, j / 3, x)
}

/// Every cell known in `g1` holds the same value in `g2`.
pub open spec fn extends(g1: Seq<Cell>, g2: Seq<Cell>) -> bool {
    &&& g2.len() == g1.len()
    &&& forall|k: int| 0 <= k < g1.len() && g1[k] is Known ==> g2[k] == #[trigger] g1[k]
}

/// `s` is a solution of `g`: a well-formed, complete, legal assignment that
/// leaves every known cell of `g` as it was.
pub open spec fn solves(g: Seq<Cell>, s: Seq<Cell>) -> bool {
    &&& s.len() == 81
    &&& forall|k: int| 0 <= k < 81 ==> cell_ok(#[trigger] s[k])
    &&& grid_valid(s)
    &&& extends(g, s)
}

/// The number of unknown cells, the solver's termination measure.
pub open spec fn count_unknown(g: Seq<Cell>) -> nat
    decreases g.len(),
{
    if g.len() == 0 {
        0
    } else {
        (if g[0] is Unknown {
            1nat
        } else {
            0nat
        }) + count_unknown(g.drop_first())
    }
}

/// Filling an unknown cell with a known one lowers the unknown count.
proof fn lemma_count_unknown_update(g: Seq<Cell>, k: int, c: Cell)
    requires
        0 <= k < g.len(),
        g[k] is Unknown,
        c is Known,
    ensures
        count_unknown(g.update(k, c)) < count_unknown(g),
    decreases g.len(),
{
    if k == 0 {
        assert(g.update(0, c).drop_first() =~= g.drop_first());
    } else {
        lemma_count_unknown_update(g.drop_first(), k - 1, c);
        assert(g.update(k, c).drop_first() =~= g.drop_first().update(k - 1, c));
    }
}

/// Digit `x` appears as a known cell in row `i`.
#[verifier::loop_isolation(false)]
pub fn value_in_row(grid: &Grid, i: usize, x: u32) -> (r: bool)
    requires
        grid.wf(),
        i < 9,
    ensures
        r == row_has(grid@, i as int, x),
{
    for j in 0..9usize
        invariant
            forall|n: int| 0 <= n < j ==> cell_at(grid@, i as int, n) != Cell::Known(x),
    {
        if grid.cell(i, j) == Cell::Known(x) {
            return true;
        }
    }
    false
}

/// Digit `x` appears as a known cell in column `j`.
#[verifier::loop_isolation(false)]
pub fn value_in_column(grid: &Grid, j: usize, x: u32) -> (r: bool)
    requires
        grid.wf(),
        j < 9,
    ensures
        r == col_has(grid@, j as int, x),
{
    for i in 0..9usize
        invariant
            forall|n: int| 0 <= n < i ==> cell_at(grid@, n, j as int) != Cell::Known(x),
    {
        if grid.cell(i, j) == Cell::Known(x) {
            return true;
        }
    }
    false
}

/// Digit `x` appears as a known cell in block (bi, bj).
#[verifier::loop_isolation(false)]
pub fn value_in_block(grid: &Grid, bi: usize, bj: usize, x: u32) -> (r: bool)
    requires
        grid.wf(),
        bi < 3,
        bj < 3,
    ensures
        r == block_has(grid@, bi as int, bj as int, x),
{
    let kend = bi * 3 + 3;
    let lend = bj * 3 + 3;
    for k in (bi * 3)..kend
        invariant
            kend == bi * 3 + 3,
            lend == bj * 3 + 3,
            forall|m: int, n: int|
                in_block(bi as int, bj as int, m, n) && m < k
                    ==> cell_at(grid@, m, n) != Cell::Known(x),
    {
        for l in (bj * 3)..lend
            invariant
                bi * 3 <= k < kend,
                forall|m: int, n: int|
                    in_block(bi as int, bj as int, m, n) && (m < k || (m == k && n < l))
                        ==> cell_at(grid@, m, n) != Cell::Known(x),
        {
            if grid.cell(k, l) == Cell::Known(x) {
                return true;
            }
        }
    }
    false
}

/// Digit `x` may be placed at (i, j) without clashing with any known cell in
/// the same row, column, or block.
pub fn is_safe(grid: &Grid, i: usize, j: usize, x: u32) -> (r: bool)
    requires
        grid.wf(),
        i < 9,
        j < 9,
    ensures
        r == safe_at(grid@, i as int, j as int, x),
{
    !value_in_row(grid, i, x) && !value_in_column(grid, j, x) && !value_in_block(
        grid,
        i / 3,
        j / 3,
        x,
    )
}

/// The first unknown cell in row-major order, if any.
#[verifier::loop_isolation(false)]
pub fn get_unassigned_cell(grid: &Grid) -> (r: Option<(usize, usize)>)
    requires
        grid.wf(),
    ensures
        match r {
            Some((i, j)) => {
                &&& i < 9
                &&& j < 9
                &&& cell_at(grid@, i as int, j as int) is Unknown
                &&& forall|k: int| 0 <= k < i * 9 + j ==> grid@[k] is Known
            },
            None => forall|k: int| 0 <= k < 81 ==> grid@[k] is Known,
        },
{
    for i in 0..9usize
        invariant
            forall|k: int| 0 <= k < i * 9 ==> grid@[k] is Known,
    {
        for j in 0..9usize
            invariant
                forall|k: int| 0 <= k < i * 9 + j ==> grid@[k] is Known,
        {
            if matches!(grid.cell(i, j), Cell::Unknown) {
                return Some((i, j));
            }
        }
    }
    None
}

/// A solution of the grid with `x` placed at its unknown cell `idx` is
/// exactly a solution of the grid itself that holds `x` there.
proof fn lemma_solves_update(g: Seq<Cell>, idx: int, x: u32, s: Seq<Cell>)
    requires
        g.len() == 81,
        0 <= idx < 81,
        g[idx] is Unknown,
    ensures
        solves(g.update(idx, Cell::Known(x)), s) <==> (solves(g, s) && s[idx] == Cell::Known(x)),
{
    let gu = g.update(idx, Cell::Known(x));
    if solves(gu, s) {
        assert(s[idx] == Cell::Known(x)) by {
            assert(gu[idx] == Cell::Known(x));
        }
        assert(extends(g, s)) by {
            assert(forall|k: int|
                0 <= k < 81 && g[k] is Known ==> s[k] == #[trigger] g[k]) by {
                assert(forall|k: int|
                    0 <= k < 81 && g[k] is Known ==> gu[k] == #[trigger] g[k]);
            }
        }
    }
    if solves(g, s) && s[idx] == Cell::Known(x) {
        assert(extends(gu, s)) by {
            assert(forall|k: int|
                0 <= k < 81 && gu[k] is Known ==> s[k] == #[trigger] gu[k]) by {
                assert(forall|k: int| 0 <= k < 81 && k != idx ==> gu[k] == g[k]);
            }
        }
    }
}

/// No solution of `g` may hold an unsafe digit at an unknown cell: the clash
/// it has with some known cell of `g` survives into the solution.
proof fn lemma_unsafe_digit_excluded(g: Seq<Cell>, i: int, j: int, x: u32, s: Seq<Cell>)
    requires
        g.len() == 81,
        0 <= i < 9,
        0 <= j < 9,
        cell_at(g, i, j) is Unknown,
        !safe_at(g, i, j, x),
        solves(g, s),
    ensures
        cell_at(s, i, j) != Cell::Known(x),
{
    if cell_at(s, i, j) == Cell::Known(x) {
        if row_has(g, i, x) {
            let jw = choose|jw: int| 0 <= jw < 9 && cell_at(g, i, jw) == Cell::Known(x);
            assert(cell_at(s, i, jw) == Cell::Known(x));
            assert(jw != j);
            assert(crate::check::row_ok(s, i));
            assert(cell_at(s, i, jw) != cell_at(s, i, j));
        } else if col_has(g, j, x) {
            let iw = choose|iw: int| 0 <= iw < 9 && cell_at(g, iw, j) == Cell::Known(x);
            assert(cell_at(s, iw, j) == Cell::Known(x));
            assert(iw != i);
            assert(crate::check::col_ok(s, j));
            assert(cell_at(s, iw, j) != cell_at(s, i, j));
        } else {
            let (kw, lw) = choose|kw: int, lw: int|
                in_block(i / 3, j / 3, kw, lw) && cell_at(g, kw, lw) == Cell::Known(x);
            assert(cell_at(s, kw, lw) == Cell::Known(x));
            assert(in_block(i / 3, j / 3, i, j));
            assert(!(kw == i && lw == j));
            assert(crate::check::block_ok(s, i / 3, j / 3));
            assert(cell_at(s, kw, lw) != cell_at(s, i, j));
        }
    }
}

/// Searches for a completion of the grid. Returns whether one exists: on
/// success the grid holds such a completion, extending every cell that was
/// already known; on failure the grid is exactly as it was.
#[verifier::loop_isolation(false)]
pub fn solve(grid: &mut Grid) -> (r: bool)
    requires
        old(grid).wf(),
    ensures
        final(grid).wf(),
        r == exists|s: Seq<Cell>| solves(old(grid)@, s),
        r ==> solves(old(grid)@, final(grid)@),
        !r ==> final(grid)@ == old(grid)@,
    decreases count_unknown(old(grid)@),
{
    let unassigned = get_unassigned_cell(grid);
    let (i, j) = match unassigned {
        Some(cell) => cell,
        None => {
            let ok = check_grid(grid);
            proof {
                if ok {
                    assert(solves(grid@, grid@));
                } else {
                    assert forall|s: Seq<Cell>| !solves(grid@, s) by {
                        if solves(grid@, s) {
                            assert(s =~= grid@);
                        }
                    }
                }
            }
            return ok;
        },
    };

    let ghost g0 = grid@;
    let ghost idx = i as int * 9 + j as int;

    proof {
        assert forall|s: Seq<Cell>| solves(g0, s) implies digit_of(#[trigger] s[idx]) >= 1 by {
            assert(crate::check::row_ok(s, i as int));
            assert(cell_at(s, i as int, j as int) is Known);
            assert(cell_ok(s[idx]));
        }
    }

    let mut x: u32 = 1;
    while x <= 9
        invariant
            1 <= x <= 10,
            grid@ == g0,
            forall|s: Seq<Cell>| solves(g0, s) ==> digit_of(#[trigger] s[idx]) >= x,
        decreases 10 - x,
    {
        if is_safe(grid, i, j, x) {
            grid.set_cell(i, j, Cell::Known(x));
            proof {
                lemma_count_unknown_update(g0, idx, Cell::Known(x));
            }
            if solve(grid) {
                proof {
                    let s = grid@;
                    lemma_solves_update(g0, idx, x, s);
                    assert(solves(g0, s));
                }
                return true;
            }
            grid.set_cell(i, j, Cell::Unknown);
            proof {
                assert(grid@ =~= g0);
                assert forall|s: Seq<Cell>| solves(g0, s) implies digit_of(#[trigger] s[idx])
                    != x by {
                    if s[idx] == Cell::Known(x) {
                        lemma_solves_update(g0, idx, x, s);
                    }
                    assert(s[idx] is Known);
                }
            }
        } else {
            proof {
                assert forall|s: Seq<Cell>| solves(g0, s) implies digit_of(#[trigger] s[idx])
                    != x by {
                    lemma_unsafe_digit_excluded(g0, i as int, j as int, x, s);
                    assert(s[idx] is Known);
                }
            }
        }
        x = x + 1;
    }

    proof {
        assert forall|s: Seq<Cell>| !solves(g0, s) by {
            if solves(g0, s) {
                assert(crate::check::row_ok(s, i as int));
                assert(cell_at(s, i as int, j as int) is Known);
                assert(cell_ok(s[idx]));
                assert(digit_of(s[idx]) >= 10);
            }
        }
    }
    false
}

} // verus!
