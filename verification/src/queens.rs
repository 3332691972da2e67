//! The queens problem as a diagram: `n` queens on a board of `n` by `n`
//! squares, none attacking another.
//!
//! The square in row `i` and column `j` is the variable `i * n + j`, true
//! when a queen stands on it.

use crate::raw::{Bdd, Context};
use vstd::prelude::*;

verus! {

/// The number of the square in row `i` and column `j` of a board of size `n`.
pub open spec fn cell(i: int, j: int, n: int) -> int {
    i * n + j
}

/// The variables of a board of size `n`.
pub open spec fn cells(n: int) -> Set<u16> {
    Set::new(|v: u16| v < n * n)
}

/// A queen stands on the square in row `row` and column `col`.
pub open spec fn queen_at(truths: Set<u16>, row: int, col: int, n: int) -> bool {
    truths.contains(cell(row, col, n) as u16)
}

/// Row `row` agrees with a queen in row `i` and column `j`: in the queen's
/// own row she stands alone, and in any other row the squares in her
/// column and on her two diagonals are empty.
pub open spec fn row_allows(truths: Set<u16>, i: int, j: int, n: int, row: int) -> bool {
    if row == i {
        columns_from(truths, i, j, n, 0)
    } else {
        let d = if i > row {
            i - row
        } else {
            row - i
        };
        &&& j + d < n ==> !queen_at(truths, row, j + d, n)
        &&& !queen_at(truths, row, j, n)
        &&& d <= j ==> !queen_at(truths, row, j - d, n)
    }
}

/// From column `from` on, row `i` holds a queen in column `j` and nowhere
/// else.
pub open spec fn columns_from(truths: Set<u16>, i: int, j: int, n: int, from: int) -> bool {
    forall|col: int| from <= col < n ==> (#[trigger] queen_at(truths, i, col, n) <==> col == j)
}

/// The rows from `from` on agree with a queen in row `i` and column `j`.
pub open spec fn rows_from(truths: Set<u16>, i: int, j: int, n: int, from: int) -> bool {
    forall|row: int| from <= row < n ==> #[trigger] row_allows(truths, i, j, n, row)
}

/// A queen stands in row `i` and column `j`, alone in her row, and no queen
/// stands where she could take it.
pub open spec fn placed(truths: Set<u16>, i: int, j: int, n: int) -> bool {
    rows_from(truths, i, j, n, 0)
}

/// Row `i` holds a queen, in one of the columns before `before`, that is
/// placed as `placed` says.
pub open spec fn row_filled(truths: Set<u16>, i: int, n: int, before: int) -> bool {
    exists|j: int| 0 <= j < before && #[trigger] placed(truths, i, j, n)
}

/// Each of the rows before `before` holds a queen that no other attacks.
pub open spec fn rows_filled(truths: Set<u16>, n: int, before: int) -> bool {
    forall|i: int| 0 <= i < before ==> #[trigger] row_filled(truths, i, n, n)
}

/// The board holds `n` queens, one in each row, none attacking another.
pub open spec fn solved(truths: Set<u16>, n: int) -> bool {
    rows_filled(truths, n, n)
}

/// The queens on the squares in row `r1`, column `c1` and in row `r2`,
/// column `c2` stand in one row, one column or on one diagonal.
pub open spec fn attack(r1: int, c1: int, r2: int, c2: int) -> bool {
    r1 == r2 || c1 == c2 || r1 - r2 == c1 - c2 || r1 - r2 == c2 - c1
}

/// Row `row` of the board holds a queen.
pub open spec fn occupied(truths: Set<u16>, row: int, n: int) -> bool {
    exists|col: int| 0 <= col < n && #[trigger] queen_at(truths, row, col, n)
}

/// Every row of the board holds a queen, and no two queens on the board
/// attack each other.
pub open spec fn peaceful(truths: Set<u16>, n: int) -> bool {
    &&& forall|row: int| 0 <= row < n ==> #[trigger] occupied(truths, row, n)
    &&& forall|r1: int, c1: int, r2: int, c2: int|
        0 <= r1 < n && 0 <= c1 < n && 0 <= r2 < n && 0 <= c2 < n && #[trigger] queen_at(truths, r1, c1, n)
            && #[trigger] queen_at(truths, r2, c2, n) && (r1 != r2 || c1 != c2) ==> !attack(r1, c1, r2, c2)
}

/// What the diagram of the boards says is the queens problem as it is
/// known: a queen in every row, and no two that attack each other.
pub proof fn lemma_solved_is_peaceful(truths: Set<u16>, n: int)
    ensures
        solved(truths, n) <==> peaceful(truths, n),
{
    if solved(truths, n) {
        assert forall|row: int| 0 <= row < n implies #[trigger] occupied(truths, row, n) by {
            assert(row_filled(truths, row, n, n));
            let col = choose|col: int| 0 <= col < n && #[trigger] placed(truths, row, col, n);
            assert(row_allows(truths, row, col, n, row));
            assert(queen_at(truths, row, col, n));
        }
        assert forall|r1: int, c1: int, r2: int, c2: int|
            0 <= r1 < n && 0 <= c1 < n && 0 <= r2 < n && 0 <= c2 < n && #[trigger] queen_at(
                truths,
                r1,
                c1,
                n,
            ) && #[trigger] queen_at(truths, r2, c2, n) && (r1 != r2 || c1 != c2) implies !attack(
            r1,
            c1,
            r2,
            c2,
        ) by {
            assert(row_filled(truths, r1, n, n));
            let j = choose|j: int| 0 <= j < n && #[trigger] placed(truths, r1, j, n);
            assert(row_allows(truths, r1, j, n, r1));
            assert(row_allows(truths, r1, j, n, r2));
        }
    }
    if peaceful(truths, n) {
        assert forall|i: int| 0 <= i < n implies #[trigger] row_filled(truths, i, n, n) by {
            assert(occupied(truths, i, n));
            let j = choose|j: int| 0 <= j < n && #[trigger] queen_at(truths, i, j, n);
            assert forall|row: int| 0 <= row < n implies #[trigger] row_allows(truths, i, j, n, row) by {
                if row == i {
                    assert forall|col: int| 0 <= col < n implies (#[trigger] queen_at(truths, i, col, n)
                        <==> col == j) by {
                        if queen_at(truths, i, col, n) && col != j {
                            assert(attack(i, col, i, j));
                        }
                    }
                } else {
                    let d = if i > row {
                        i - row
                    } else {
                        row - i
                    };
                    if j + d < n && queen_at(truths, row, j + d, n) {
                        assert(attack(row, j + d, i, j));
                    }
                    if queen_at(truths, row, j, n) {
                        assert(attack(row, j, i, j));
                    }
                    if d <= j && queen_at(truths, row, j - d, n) {
                        assert(attack(row, j - d, i, j));
                    }
                }
            }
            assert(placed(truths, i, j, n));
        }
    }
}

proof fn lemma_cell_bound(i: int, j: int, n: int)
    requires
        0 <= i <= 127,
        0 <= j <= 127,
        0 <= n <= 127,
    ensures
        0 <= i * n <= 127 * 127,
        i < n && j < n ==> cell(i, j, n) < n * n,
{
    assert(0 <= i * n <= 127 * 127) by (nonlinear_arith)
        requires
            0 <= i <= 127,
            0 <= n <= 127,
    ;
    if i < n && j < n {
        assert(i * n + n <= n * n) by (nonlinear_arith)
            requires
                0 <= i < n,
        ;
    }
}

/// The variable of the square in row `i` and column `j` of a board of size
/// `n`.
pub fn pos(i: i8, j: i8, n: i8) -> (p: u16)
    requires
        0 <= i,
        0 <= j,
        0 <= n,
    ensures
        p == cell(i as int, j as int, n as int),
        i < n && j < n ==> cells(n as int).contains(p),
{
    proof {
        lemma_cell_bound(i as int, j as int, n as int);
    }
    i as u16 * n as u16 + j as u16
}

/// The diagram of the square in row `row` and column `col` being empty when
/// `empty`, and holding a queen otherwise, joined to `out`.
fn and_square<'a>(
    ctx: &mut Context<'a, u16>,
    out: Bdd<'a, u16>,
    row: i8,
    col: i8,
    n: i8,
    empty: bool,
) -> (r: Bdd<'a, u16>)
    requires
        old(ctx).wf(),
        old(ctx).owns(out),
        0 <= row < n,
        0 <= col < n,
        out@.vars().subset_of(cells(n as int)),
    ensures
        final(ctx).wf(),
        final(ctx).extends(old(ctx)),
        final(ctx).owns(r),
        r.wf(),
        r@.vars().subset_of(cells(n as int)),
        forall|truths: Set<u16>| #[trigger]
            r@.eval(truths) == (out@.eval(truths) && (queen_at(truths, row as int, col as int, n as int)
                != empty)),
{
    let x = ctx.var(pos(row, col, n));
    if empty {
        let nx = ctx.not(x);
        ctx.and(out, nx)
    } else {
        ctx.and(out, x)
    }
}

/// The diagram of a queen in row `i` and column `j` of a board of size `n`
/// that stands alone in her row and has no queen in her column or on her
/// diagonals.
pub fn queens_s<'a>(ctx: &mut Context<'a, u16>, i: i8, j: i8, n: i8) -> (out: Bdd<'a, u16>)
    requires
        old(ctx).wf(),
        0 <= i < n,
        0 <= j < n,
    ensures
        final(ctx).wf(),
        final(ctx).extends(old(ctx)),
        final(ctx).owns(out),
        out.wf(),
        out@.vars().subset_of(cells(n as int)),
        forall|truths: Set<u16>| #[trigger] out@.eval(truths) == placed(truths, i as int, j as int, n as int),
{
    let ghost before = *ctx;
    let mut out = ctx.true_();
    let mut row = n;
    while row > 0
        invariant
            0 <= row <= n,
            0 <= i < n,
            0 <= j < n,
            ctx.wf(),
            ctx.extends(&before),
            ctx.owns(out),
            out.wf(),
            out@.vars().subset_of(cells(n as int)),
            forall|truths: Set<u16>| #[trigger]
                out@.eval(truths) == rows_from(truths, i as int, j as int, n as int, row as int),
        decreases row,
    {
        row -= 1;
        let ghost above = out;
        if i == row {
            let mut column = n;
            while column > 0
                invariant
                    0 <= column <= n,
                    0 <= row < n,
                    i == row,
                    0 <= j < n,
                    ctx.wf(),
                    ctx.extends(&before),
                    ctx.owns(out),
                    out.wf(),
                    out@.vars().subset_of(cells(n as int)),
                    forall|truths: Set<u16>| #[trigger]
                        out@.eval(truths) == (above@.eval(truths) && columns_from(
                            truths,
                            i as int,
                            j as int,
                            n as int,
                            column as int,
                        )),
                decreases column,
            {
                column -= 1;
                out = and_square(ctx, out, row, column, n, j != column);
            }
        } else {
            let row_diff = if i > row {
                i - row
            } else {
                row - i
            };
            if row_diff < n - j {
                out = and_square(ctx, out, row, j + row_diff, n, true);
            }
            out = and_square(ctx, out, row, j, n, true);
            if row_diff <= j {
                out = and_square(ctx, out, row, j - row_diff, n, true);
            }
        }
        proof {
            assert forall|truths: Set<u16>| #[trigger]
                out@.eval(truths) == rows_from(truths, i as int, j as int, n as int, row as int) by {
                assert(out@.eval(truths) == (above@.eval(truths) && row_allows(
                    truths,
                    i as int,
                    j as int,
                    n as int,
                    row as int,
                )));
            }
        }
    }
    out
}

/// The diagram of row `row` of a board of size `n` holding a queen that no
/// other attacks.
pub fn queens_r<'a>(ctx: &mut Context<'a, u16>, row: i8, n: i8) -> (out: Bdd<'a, u16>)
    requires
        old(ctx).wf(),
        0 < n ==> 0 <= row < n,
    ensures
        final(ctx).wf(),
        final(ctx).extends(old(ctx)),
        final(ctx).owns(out),
        out.wf(),
        out@.vars().subset_of(cells(n as int)),
        forall|truths: Set<u16>| #[trigger] out@.eval(truths) == row_filled(truths, row as int, n as int, n as int),
{
    let ghost before = *ctx;
    let mut out = ctx.false_();
    let mut j: i8 = 0;
    while j < n
        invariant
            0 <= j,
            j <= n || j == 0,
            0 < n ==> 0 <= row < n,
            ctx.wf(),
            ctx.extends(&before),
            ctx.owns(out),
            out.wf(),
            out@.vars().subset_of(cells(n as int)),
            forall|truths: Set<u16>| #[trigger]
                out@.eval(truths) == row_filled(truths, row as int, n as int, j as int),
        decreases n - j,
    {
        let s = queens_s(ctx, row, j, n);
        out = ctx.or(out, s);
        j += 1;
    }
    out
}

/// The diagram of the boards of size `n` that hold a queen in every row,
/// none attacking another: true exactly of the solutions of the queens
/// problem.
pub fn queens_b<'a>(ctx: &mut Context<'a, u16>, n: i8) -> (out: Bdd<'a, u16>)
    requires
        old(ctx).wf(),
    ensures
        final(ctx).wf(),
        final(ctx).extends(old(ctx)),
        final(ctx).owns(out),
        out.wf(),
        out@.vars().subset_of(cells(n as int)),
        forall|truths: Set<u16>| #[trigger] out@.eval(truths) == solved(truths, n as int),
        forall|truths: Set<u16>| #[trigger] out@.eval(truths) == peaceful(truths, n as int),
{
    let ghost before = *ctx;
    let mut out = ctx.true_();
    let mut i: i8 = 0;
    while i < n
        invariant
            0 <= i,
            i <= n || i == 0,
            ctx.wf(),
            ctx.extends(&before),
            ctx.owns(out),
            out.wf(),
            out@.vars().subset_of(cells(n as int)),
            forall|truths: Set<u16>| #[trigger] out@.eval(truths) == rows_filled(truths, n as int, i as int),
        decreases n - i,
    {
        let r = queens_r(ctx, i, n);
        out = ctx.and(out, r);
        i += 1;
    }
    proof {
        assert forall|truths: Set<u16>| #[trigger] out@.eval(truths) == peaceful(truths, n as int) by {
            lemma_solved_is_peaceful(truths, n as int);
        }
    }
    out
}

} // verus!
