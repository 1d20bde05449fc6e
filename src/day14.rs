//! The load on the north beams once every rounded rock has rolled north.

use crate::grid::is_grid;
use crate::grid::law_dimensions;
use crate::grid::law_rectangular_accepted;
use crate::grid::ByteGridView;
use vstd::prelude::*;
use vstd::string::StringSliceAdditionalSpecFns;

verus! {

/// A rock that rolls.
pub const ROUNDED: u8 = 79;

/// A rock that stays in place.
pub const CUBE: u8 = 35;

/// The byte at row `y`, column `x` of a grid buffer with `columns` bytes per
/// row.
pub open spec fn cell_at(s: Seq<u8>, columns: nat, y: int, x: int) -> u8 {
    s[y * (columns + 1) + x]
}

/// Scanning the first `n` rows of column `x` from the north: the row where
/// the next rounded rock comes to rest, and the load of the rounded rocks
/// seen so far once they have rolled north. A rounded rock rests below the
/// nearest cube rock or resting rounded rock north of it, and a rock
/// resting in row `y` weighs `rows - y`.
pub open spec fn column_scan(s: Seq<u8>, rows: nat, columns: nat, x: int, n: int) -> (int, int)
    decreases n,
{
    if n <= 0 {
        (0, 0)
    } else {
        let (free, load) = column_scan(s, rows, columns, x, n - 1);
        let b = cell_at(s, columns, n - 1, x);
        if b == CUBE {
            (n, load)
        } else if b == ROUNDED {
            (free + 1, load + rows - free)
        } else {
            (free, load)
        }
    }
}

/// The load on the north beams of the first `m` columns once tilted north.
pub open spec fn load_of_columns(s: Seq<u8>, rows: nat, columns: nat, m: int) -> int
    decreases m,
{
    if m <= 0 {
        0
    } else {
        load_of_columns(s, rows, columns, m - 1) + column_scan(s, rows, columns, m - 1, rows as int).1
    }
}

/// A rectangular grid of two or more rows whose load stays well within an
/// `i64`.
pub open spec fn platform_ok(s: Seq<u8>) -> bool {
    exists|rows: nat, columns: nat|
        rows >= 2 && is_grid(s, rows, columns) && rows * rows * columns <= i64::MAX
}

/// The scan keeps the resting row within the rows scanned, and the load
/// within `rows` for each of them.
proof fn lemma_scan_bounds(s: Seq<u8>, rows: nat, columns: nat, x: int, n: int)
    requires
        0 <= n <= rows,
    ensures
        0 <= column_scan(s, rows, columns, x, n).0 <= n,
        0 <= column_scan(s, rows, columns, x, n).1 <= n * rows,
    decreases n,
{
    if n > 0 {
        lemma_scan_bounds(s, rows, columns, x, n - 1);
        assert((n - 1) * rows + rows == n * rows) by (nonlinear_arith);
    }
}

/// The load of the platform in `input` once every rounded rock has rolled
/// north.
pub fn part1(input: &str) -> (r: i64)
    requires
        platform_ok(input.spec_bytes()),
    ensures
        forall|rows: nat, columns: nat|
            is_grid(input.spec_bytes(), rows, columns) ==> r == load_of_columns(
                input.spec_bytes(),
                rows,
                columns,
                columns as int,
            ),
{
    let ghost s = input.spec_bytes();
    let ghost (gr, gc) = choose|rows: nat, columns: nat|
        rows >= 2 && is_grid(s, rows, columns) && rows * rows * columns <= i64::MAX;
    proof {
        law_rectangular_accepted(s, gr, gc);
    }
    let grid = match ByteGridView::parse(input) {
        Ok(g) => g,
        Err(_) => {
            return 0;
        },
    };
    proof {
        law_dimensions(grid, gr, gc);
        assert forall|rows: nat, columns: nat| is_grid(s, rows, columns) implies rows == gr
            && columns == gc by {
            law_dimensions(grid, rows, columns);
        }
    }
    let rows = grid.rows();
    let columns = grid.columns();
    let mut sum: i64 = 0;
    let mut col: usize = 0;
    while col < columns
        invariant
            grid.wf(),
            grid.rectangular(),
            grid.bytes() == s,
            rows == gr == grid.spec_rows(),
            columns == gc == grid.spec_columns(),
            gr * gr * gc <= i64::MAX,
            col <= columns,
            sum == load_of_columns(s, gr, gc, col as int),
            0 <= sum <= col * gr * gr,
        decreases columns - col,
    {
        let mut free: usize = 0;
        let mut load: i64 = 0;
        let mut row: usize = 0;
        while row < rows
            invariant
                grid.wf(),
                grid.rectangular(),
                grid.bytes() == s,
                rows == gr == grid.spec_rows(),
                columns == gc == grid.spec_columns(),
                gr * gr * gc <= i64::MAX,
                col < columns,
                row <= rows,
                (free as int, load as int) == column_scan(s, gr, gc, col as int, row as int),
                sum == load_of_columns(s, gr, gc, col as int),
                0 <= sum <= col * gr * gr,
            decreases rows - row,
        {
            proof {
                lemma_scan_bounds(s, gr, gc, col as int, row as int);
                assert(row * gr + gr <= gr * gr) by (nonlinear_arith)
                    requires
                        row < gr,
                ;
                assert(gr * gr <= gr * gr * gc) by (nonlinear_arith)
                    requires
                        gc >= 1,
                ;
                assert((col + 1) * gr * gr <= gr * gr * gc) by (nonlinear_arith)
                    requires
                        col < gc,
                ;
                assert(col * gr * gr + gr * gr == (col + 1) * gr * gr) by (nonlinear_arith);
            }
            let b = grid.get(row, col);
            proof {
                assert(b == cell_at(s, gc, row as int, col as int));
            }
            if b == CUBE {
                free = row + 1;
            } else if b == ROUNDED {
                load = load + (rows - free) as i64;
                free = free + 1;
            }
            row = row + 1;
        }
        proof {
            lemma_scan_bounds(s, gr, gc, col as int, gr as int);
            assert((col + 1) * gr * gr <= gr * gr * gc) by (nonlinear_arith)
                requires
                    col < gc,
            ;
            assert(col * gr * gr + gr * gr == (col + 1) * gr * gr) by (nonlinear_arith);
        }
        sum = sum + load;
        col = col + 1;
    }
    sum
}

} // verus!
