//! Distances between galaxies in an image whose empty rows and columns are
//! expanded.

use crate::grid::is_grid;
use crate::grid::law_dimensions;
use crate::grid::law_rectangular_accepted;
use crate::grid::ByteGridView;
use crate::grid::Position;
use vstd::arithmetic::div_mod::lemma_fundamental_div_mod_converse;
use vstd::prelude::*;
use vstd::string::StringSliceAdditionalSpecFns;

verus! {

/// The byte that marks a galaxy.
pub const GALAXY: u8 = 35;

/// The byte at row `y`, column `x` of a grid buffer `s` with `columns`
/// bytes per row.
pub open spec fn cell_at(s: Seq<u8>, columns: nat, y: int, x: int) -> u8 {
    s[y * (columns + 1) + x]
}

/// Row `y` holds a galaxy.
pub open spec fn row_has_galaxy(s: Seq<u8>, columns: nat, y: int) -> bool {
    exists|x: int| 0 <= x < columns && cell_at(s, columns, y, x) == GALAXY
}

/// Column `x` holds a galaxy.
pub open spec fn column_has_galaxy(s: Seq<u8>, rows: nat, columns: nat, x: int) -> bool {
    exists|y: int| 0 <= y < rows && cell_at(s, columns, y, x) == GALAXY
}

/// For each row, whether it holds a galaxy.
pub open spec fn row_flags(s: Seq<u8>, rows: nat, columns: nat) -> Seq<bool> {
    Seq::new(rows, |y: int| row_has_galaxy(s, columns, y))
}

/// For each column, whether it holds a galaxy.
pub open spec fn column_flags(s: Seq<u8>, rows: nat, columns: nat) -> Seq<bool> {
    Seq::new(columns, |x: int| column_has_galaxy(s, rows, columns, x))
}

/// The number of `false` flags before index `n`.
pub open spec fn empty_before(flags: Seq<bool>, n: int) -> nat
    decreases n,
{
    if n <= 0 {
        0
    } else {
        empty_before(flags, n - 1) + if flags[n - 1] {
            0nat
        } else {
            1nat
        }
    }
}

/// A coordinate once every empty line before it counts `e` times.
pub open spec fn expand(flags: Seq<bool>, v: int, e: int) -> int {
    v + empty_before(flags, v) * (e - 1)
}

/// The galaxies, as `(x, y)`, among the first `n` cells in row-major order.
pub open spec fn galaxies_in(s: Seq<u8>, columns: nat, n: int) -> Seq<(int, int)>
    decreases n,
{
    if n <= 0 || columns == 0 {
        Seq::empty()
    } else {
        let p = galaxies_in(s, columns, n - 1);
        let y = (n - 1) / columns as int;
        let x = (n - 1) % columns as int;
        if cell_at(s, columns, y, x) == GALAXY {
            p.push((x, y))
        } else {
            p
        }
    }
}

/// All galaxies of the grid, in row-major order.
pub open spec fn galaxies(s: Seq<u8>, rows: nat, columns: nat) -> Seq<(int, int)> {
    galaxies_in(s, columns, (rows * columns) as int)
}

/// The number of steps between two galaxies after expansion.
pub open spec fn distance(s: Seq<u8>, rows: nat, columns: nat, e: int, a: (int, int), b: (int, int)) -> int {
    let cf = column_flags(s, rows, columns);
    let rf = row_flags(s, rows, columns);
    let dx = expand(cf, a.0, e) - expand(cf, b.0, e);
    let dy = expand(rf, a.1, e) - expand(rf, b.1, e);
    (if dx < 0 { -dx } else { dx }) + (if dy < 0 { -dy } else { dy })
}

/// The distances from galaxy `i` to galaxies `i` up to, not including, `n`.
pub open spec fn distances_from(s: Seq<u8>, rows: nat, columns: nat, e: int, i: int, n: int) -> int
    decreases n - i,
{
    if n <= i {
        0
    } else {
        let gs = galaxies(s, rows, columns);
        distances_from(s, rows, columns, e, i, n - 1) + distance(s, rows, columns, e, gs[i], gs[n - 1])
    }
}

/// The distances over all pairs whose first galaxy comes before index `n`.
pub open spec fn distances_before(s: Seq<u8>, rows: nat, columns: nat, e: int, n: int) -> int
    decreases n,
{
    if n <= 0 {
        0
    } else {
        distances_before(s, rows, columns, e, n - 1) + distances_from(
            s,
            rows,
            columns,
            e,
            n - 1,
            galaxies(s, rows, columns).len() as int,
        )
    }
}

/// The sum of the distances between every pair of galaxies.
pub open spec fn total_distance(s: Seq<u8>, rows: nat, columns: nat, e: int) -> int {
    distances_before(s, rows, columns, e, galaxies(s, rows, columns).len() as int)
}

/// What the sums need to fit in machine integers.
pub open spec fn fits(s: Seq<u8>, rows: nat, columns: nat, e: int) -> bool {
    &&& e >= 1
    &&& (rows + columns) * e * 2 <= usize::MAX
    &&& total_distance(s, rows, columns, e) <= i64::MAX
}

/// `s` is a grid of two or more rows on which the sums fit.
pub open spec fn solvable(s: Seq<u8>, e: int) -> bool {
    exists|rows: nat, columns: nat| rows >= 2 && is_grid(s, rows, columns) && fits(s, rows, columns, e)
}

proof fn lemma_empty_before_bound(flags: Seq<bool>, n: int)
    ensures
        empty_before(flags, n) <= if n < 0 { 0 } else { n },
    decreases n,
{
    if n > 0 {
        lemma_empty_before_bound(flags, n - 1);
    }
}

/// An expanded coordinate stays within `v * e`.
proof fn lemma_expand_bound(flags: Seq<bool>, v: int, e: int)
    requires
        v >= 0,
        e >= 1,
    ensures
        v <= expand(flags, v, e) <= v * e,
{
    lemma_empty_before_bound(flags, v);
    let k = empty_before(flags, v) as int;
    assert(v + k * (e - 1) <= v * e && 0 <= k * (e - 1)) by (nonlinear_arith)
        requires
            0 <= k <= v,
            e >= 1,
    ;
}

/// Galaxy coordinates lie in the grid.
proof fn lemma_galaxies_in_range(s: Seq<u8>, columns: nat, n: int, rows: nat)
    requires
        columns >= 1,
        0 <= n <= rows * columns,
    ensures
        forall|k: int|
            0 <= k < galaxies_in(s, columns, n).len() ==> 0 <= (#[trigger] galaxies_in(s, columns, n)[k]).0
                < columns && 0 <= galaxies_in(s, columns, n)[k].1 < rows,
    decreases n,
{
    if n > 0 {
        lemma_galaxies_in_range(s, columns, n - 1, rows);
        let c = columns as int;
        let r = rows as int;
        vstd::arithmetic::div_mod::lemma_mod_pos_bound(n - 1, c);
        vstd::arithmetic::div_mod::lemma_div_pos_is_pos(n - 1, c);
        assert(r * c - 1 == (r - 1) * c + (c - 1)) by (nonlinear_arith);
        lemma_fundamental_div_mod_converse(r * c - 1, c, r - 1, c - 1);
        vstd::arithmetic::div_mod::lemma_div_is_ordered(n - 1, r * c - 1, c);
        let p = galaxies_in(s, columns, n - 1);
        let q = galaxies_in(s, columns, n);
        assert forall|k: int| 0 <= k < q.len() implies 0 <= (#[trigger] q[k]).0 < columns && 0
            <= q[k].1 < rows by {
            if k < p.len() {
                assert(q[k] == p[k]);
            }
        }
    }
}

/// Sums of distances only grow.
proof fn lemma_distances_from_grow(s: Seq<u8>, rows: nat, columns: nat, e: int, i: int, m: int, n: int)
    requires
        i <= m <= n,
    ensures
        0 <= distances_from(s, rows, columns, e, i, m) <= distances_from(s, rows, columns, e, i, n),
    decreases n - i,
{
    if n > m {
        lemma_distances_from_grow(s, rows, columns, e, i, m, n - 1);
    } else if n > i {
        lemma_distances_from_grow(s, rows, columns, e, i, n - 1, n - 1);
    }
}

proof fn lemma_distances_before_grow(s: Seq<u8>, rows: nat, columns: nat, e: int, m: int, n: int)
    requires
        0 <= m <= n,
    ensures
        0 <= distances_before(s, rows, columns, e, m) <= distances_before(s, rows, columns, e, n),
    decreases n,
{
    let len = galaxies(s, rows, columns).len() as int;
    if n > 0 {
        if n - 1 <= len {
            lemma_distances_from_grow(s, rows, columns, e, n - 1, n - 1, len);
        }
        if n > m {
            lemma_distances_before_grow(s, rows, columns, e, m, n - 1);
        } else {
            lemma_distances_before_grow(s, rows, columns, e, n - 1, n - 1);
        }
    }
}

/// Moves a coordinate pair away from the origin by `expansions` for every
/// empty column before `x` and every empty row before `y`.
pub fn normalize_coords(cols: &[bool], rows: &[bool], x: usize, y: usize, expansions: usize) -> (r: (usize, usize))
    requires
        x <= cols@.len(),
        y <= rows@.len(),
        expansions >= 1,
        x * expansions <= usize::MAX,
        y * expansions <= usize::MAX,
    ensures
        r.0 == expand(cols@, x as int, expansions as int),
        r.1 == expand(rows@, y as int, expansions as int),
{
    let mut nx = x;
    let mut ny = y;
    proof {
        vstd::arithmetic::mul::lemma_mul_basics(expansions - 1);
    }
    let mut k: usize = 0;
    while k < x
        invariant
            k <= x <= cols@.len(),
            expansions >= 1,
            x * expansions <= usize::MAX,
            nx == x + empty_before(cols@, k as int) * (expansions - 1),
        decreases x - k,
    {
        proof {
            lemma_empty_before_bound(cols@, k + 1);
            let b = empty_before(cols@, k + 1) as int;
            let a = empty_before(cols@, k as int) as int;
            assert(b == a + if cols@[k as int] { 0int } else { 1int });
            assert((a + 1) * (expansions - 1) == a * (expansions - 1) + (expansions - 1))
                by (nonlinear_arith);
            assert(x + b * (expansions - 1) <= x * expansions) by (nonlinear_arith)
                requires
                    b <= x,
                    expansions >= 1,
            ;
        }
        if !cols[k] {
            nx = nx + (expansions - 1);
        }
        k = k + 1;
    }
    let mut k: usize = 0;
    while k < y
        invariant
            k <= y <= rows@.len(),
            expansions >= 1,
            y * expansions <= usize::MAX,
            ny == y + empty_before(rows@, k as int) * (expansions - 1),
            nx == expand(cols@, x as int, expansions as int),
        decreases y - k,
    {
        proof {
            lemma_empty_before_bound(rows@, k + 1);
            let b = empty_before(rows@, k + 1) as int;
            let a = empty_before(rows@, k as int) as int;
            assert(b == a + if rows@[k as int] { 0int } else { 1int });
            assert((a + 1) * (expansions - 1) == a * (expansions - 1) + (expansions - 1))
                by (nonlinear_arith);
            assert(y + b * (expansions - 1) <= y * expansions) by (nonlinear_arith)
                requires
                    b <= y,
                    expansions >= 1,
            ;
        }
        if !rows[k] {
            ny = ny + (expansions - 1);
        }
        k = k + 1;
    }
    (nx, ny)
}

/// A bound on a coordinate bounds its scaled value.
proof fn lemma_scaled(v: int, bound: int, e: int)
    requires
        0 <= v <= bound,
        e >= 1,
    ensures
        v * e <= bound * e,
        v * e * 2 <= bound * e * 2,
{
    assert(v * e <= bound * e) by (nonlinear_arith)
        requires
            0 <= v <= bound,
            e >= 1,
    ;
}

/// The coordinates of the galaxies, as a sequence of pairs.
pub open spec fn coordinates(v: Seq<Position>) -> Seq<(int, int)> {
    v.map_values(|p: Position| (p.x as int, p.y as int))
}

/// Which rows of the grid hold a galaxy.
fn galaxy_rows_of(grid: &ByteGridView) -> (r: Vec<bool>)
    requires
        grid.wf(),
        grid.rectangular(),
    ensures
        r@ == row_flags(grid.bytes(), grid.spec_rows(), grid.spec_columns()),
{
    let mut out: Vec<bool> = Vec::new();
    let rows = grid.rows();
    let columns = grid.columns();
    let ghost s = grid.bytes();
    let ghost c = grid.spec_columns();
    let mut y: usize = 0;
    while y < rows
        invariant
            grid.wf(),
            grid.rectangular(),
            s == grid.bytes(),
            c == grid.spec_columns(),
            rows == grid.spec_rows(),
            columns == grid.spec_columns(),
            y <= rows,
            out@ == row_flags(s, rows as nat, c).subrange(0, y as int),
        decreases rows - y,
    {
        let mut found = false;
        let mut x: usize = 0;
        while x < columns
            invariant
                grid.wf(),
                grid.rectangular(),
                s == grid.bytes(),
                c == grid.spec_columns(),
                rows == grid.spec_rows(),
                columns == grid.spec_columns(),
                y < rows,
                x <= columns,
                found == exists|x2: int| 0 <= x2 < x && cell_at(s, c, y as int, x2) == GALAXY,
            decreases columns - x,
        {
            let b = grid.get(y, x);
            if b == GALAXY {
                found = true;
            }
            proof {
                assert(b == cell_at(s, c, y as int, x as int));
                if b == GALAXY {
                    assert(exists|x2: int| 0 <= x2 < x + 1 && cell_at(s, c, y as int, x2) == GALAXY);
                }
            }
            x = x + 1;
        }
        out.push(found);
        proof {
            assert(out@ =~= row_flags(s, rows as nat, c).subrange(0, y + 1));
        }
        y = y + 1;
    }
    proof {
        assert(out@ =~= row_flags(s, rows as nat, c));
    }
    out
}

/// Which columns of the grid hold a galaxy.
fn galaxy_columns_of(grid: &ByteGridView) -> (r: Vec<bool>)
    requires
        grid.wf(),
        grid.rectangular(),
    ensures
        r@ == column_flags(grid.bytes(), grid.spec_rows(), grid.spec_columns()),
{
    let mut out: Vec<bool> = Vec::new();
    let rows = grid.rows();
    let columns = grid.columns();
    let ghost s = grid.bytes();
    let ghost c = grid.spec_columns();
    let mut x: usize = 0;
    while x < columns
        invariant
            grid.wf(),
            grid.rectangular(),
            s == grid.bytes(),
            c == grid.spec_columns(),
            rows == grid.spec_rows(),
            columns == grid.spec_columns(),
            x <= columns,
            out@ == column_flags(s, rows as nat, c).subrange(0, x as int),
        decreases columns - x,
    {
        let mut found = false;
        let mut y: usize = 0;
        while y < rows
            invariant
                grid.wf(),
                grid.rectangular(),
                s == grid.bytes(),
                c == grid.spec_columns(),
                rows == grid.spec_rows(),
                columns == grid.spec_columns(),
                x < columns,
                y <= rows,
                found == exists|y2: int| 0 <= y2 < y && cell_at(s, c, y2, x as int) == GALAXY,
            decreases rows - y,
        {
            let b = grid.get(y, x);
            if b == GALAXY {
                found = true;
            }
            proof {
                assert(b == cell_at(s, c, y as int, x as int));
                if b == GALAXY {
                    assert(exists|y2: int| 0 <= y2 < y + 1 && cell_at(s, c, y2, x as int) == GALAXY);
                }
            }
            y = y + 1;
        }
        out.push(found);
        proof {
            assert(out@ =~= column_flags(s, rows as nat, c).subrange(0, x + 1));
        }
        x = x + 1;
    }
    proof {
        assert(out@ =~= column_flags(s, rows as nat, c));
    }
    out
}

/// The galaxies of the grid in row-major order.
fn galaxies_of(grid: &ByteGridView) -> (r: Vec<Position>)
    requires
        grid.wf(),
        grid.rectangular(),
    ensures
        coordinates(r@) == galaxies(grid.bytes(), grid.spec_rows(), grid.spec_columns()),
{
    let mut out: Vec<Position> = Vec::new();
    let rows = grid.rows();
    let columns = grid.columns();
    let ghost s = grid.bytes();
    let ghost c = grid.spec_columns();
    let mut y: usize = 0;
    while y < rows
        invariant
            grid.wf(),
            grid.rectangular(),
            s == grid.bytes(),
            c == grid.spec_columns(),
            rows == grid.spec_rows(),
            columns == grid.spec_columns(),
            columns >= 1,
            y <= rows,
            coordinates(out@) == galaxies_in(s, c, y * c),
        decreases rows - y,
    {
        let mut x: usize = 0;
        while x < columns
            invariant
                grid.wf(),
                grid.rectangular(),
                s == grid.bytes(),
                c == grid.spec_columns(),
                rows == grid.spec_rows(),
                columns == grid.spec_columns(),
                columns >= 1,
                y < rows,
                x <= columns,
                coordinates(out@) == galaxies_in(s, c, y * c + x),
            decreases columns - x,
        {
            let b = grid.get(y, x);
            proof {
                lemma_fundamental_div_mod_converse(y * c + x, c as int, y as int, x as int);
            }
            if b == GALAXY {
                out.push(Position { x, y });
            }
            proof {
                assert(coordinates(out@) =~= galaxies_in(s, c, y * c + x + 1));
            }
            x = x + 1;
        }
        proof {
            assert(y * c + c == (y + 1) * c) by (nonlinear_arith);
        }
        y = y + 1;
    }
    out
}

/// The sum over all pairs of galaxies of the number of steps between them,
/// once every empty row and column counts `expansions` times.
fn solve(input: &str, expansions: usize) -> (r: i64)
    requires
        solvable(input.spec_bytes(), expansions as int),
    ensures
        forall|rows: nat, columns: nat|
            is_grid(input.spec_bytes(), rows, columns) ==> r == total_distance(
                input.spec_bytes(),
                rows,
                columns,
                expansions as int,
            ),
{
    let ghost s = input.spec_bytes();
    let ghost e = expansions as int;
    let ghost (gr, gc) = choose|rows: nat, columns: nat|
        rows >= 2 && is_grid(s, rows, columns) && fits(s, rows, columns, e);
    proof {
        law_rectangular_accepted(s, gr, gc);
    }
    let grid = match ByteGridView::parse(input) {
        Ok(g) => g,
        Err(_) => {
            return 0;
        },
    };
    proof {
        law_dimensions(grid, gr, gc);
        assert forall|rows: nat, columns: nat| is_grid(s, rows, columns) implies rows == gr
            && columns == gc by {
            law_dimensions(grid, rows, columns);
        }
    }
    let galaxy_rows = galaxy_rows_of(&grid);
    let galaxy_cols = galaxy_columns_of(&grid);
    let found = galaxies_of(&grid);
    let ghost gs = galaxies(s, gr, gc);
    proof {
        lemma_galaxies_in_range(s, gc, (gr * gc) as int, gr);
        assert(coordinates(found@).len() == found@.len());
    }
    let n = found.len();
    let mut steps: i64 = 0;
    let mut i: usize = 0;
    while i < n
        invariant
            n == found@.len() == gs.len(),
            coordinates(found@) == gs,
            gs == galaxies(s, gr, gc),
            forall|k: int| 0 <= k < gs.len() ==> 0 <= (#[trigger] gs[k]).0 < gc && 0 <= gs[k].1 < gr,
            galaxy_rows@ == row_flags(s, gr, gc),
            galaxy_cols@ == column_flags(s, gr, gc),
            galaxy_rows@.len() == gr,
            galaxy_cols@.len() == gc,
            fits(s, gr, gc, e),
            e == expansions,
            i <= n,
            steps == distances_before(s, gr, gc, e, i as int),
        decreases n - i,
    {
        let a = found[i];
        proof {
            assert(gs[i as int] == (a.x as int, a.y as int));
            lemma_scaled(a.x as int, (gr + gc) as int, e);
            lemma_scaled(a.y as int, (gr + gc) as int, e);
        }
        let (tx, ty) = normalize_coords(galaxy_cols.as_slice(), galaxy_rows.as_slice(), a.x, a.y, expansions);
        let mut j: usize = i;
        while j < n
            invariant
                n == found@.len() == gs.len(),
                coordinates(found@) == gs,
                gs == galaxies(s, gr, gc),
            gs == galaxies(s, gr, gc),
                forall|k: int| 0 <= k < gs.len() ==> 0 <= (#[trigger] gs[k]).0 < gc && 0 <= gs[k].1 < gr,
                galaxy_rows@ == row_flags(s, gr, gc),
                galaxy_cols@ == column_flags(s, gr, gc),
                galaxy_rows@.len() == gr,
                galaxy_cols@.len() == gc,
                fits(s, gr, gc, e),
                e == expansions,
                i < n,
                i <= j <= n,
                tx == expand(galaxy_cols@, gs[i as int].0, e),
                ty == expand(galaxy_rows@, gs[i as int].1, e),
                steps == distances_before(s, gr, gc, e, i as int) + distances_from(s, gr, gc, e, i as int, j as int),
            decreases n - j,
        {
            let b = found[j];
            proof {
                assert(gs[j as int] == (b.x as int, b.y as int));
                lemma_scaled(b.x as int, (gr + gc) as int, e);
                lemma_scaled(b.y as int, (gr + gc) as int, e);
            }
            let (ox, oy) = normalize_coords(galaxy_cols.as_slice(), galaxy_rows.as_slice(), b.x, b.y, expansions);
            proof {
                lemma_expand_bound(galaxy_cols@, gs[i as int].0, e);
                lemma_expand_bound(galaxy_cols@, gs[j as int].0, e);
                lemma_expand_bound(galaxy_rows@, gs[i as int].1, e);
                lemma_expand_bound(galaxy_rows@, gs[j as int].1, e);
                lemma_scaled(gs[i as int].1, gr as int, e);
                lemma_scaled(gs[j as int].1, gr as int, e);
                lemma_scaled(gs[i as int].0, gc as int, e);
                lemma_scaled(gs[j as int].0, gc as int, e);
                assert(gr * e * 2 + gc * e * 2 == (gr + gc) * e * 2) by (nonlinear_arith);
                assert(0 <= gc * e) by (nonlinear_arith)
                    requires
                        e >= 1,
                ;
            }
            let xdist = if tx > ox { tx - ox } else { ox - tx };
            let ydist = if ty > oy { ty - oy } else { oy - ty };
            let d = if xdist >= ydist {
                (ydist * 2) + xdist - ydist
            } else {
                (xdist * 2) + ydist - xdist
            };
            proof {
                assert(d == distance(s, gr, gc, e, gs[i as int], gs[j as int]));
                assert(distances_from(s, gr, gc, e, i as int, j + 1) == distances_from(s, gr, gc, e, i as int, j as int) + d);
                assert(distances_before(s, gr, gc, e, i + 1) == distances_before(s, gr, gc, e, i as int) + distances_from(s, gr, gc, e, i as int, n as int));
                lemma_distances_from_grow(s, gr, gc, e, i as int, j + 1, n as int);
                lemma_distances_before_grow(s, gr, gc, e, i + 1, n as int);
                lemma_distances_before_grow(s, gr, gc, e, 0, i as int);
                lemma_distances_from_grow(s, gr, gc, e, i as int, j as int, j as int);
            }
            steps = steps + d as i64;
            j = j + 1;
        }
        i = i + 1;
    }
    steps
}

/// The sum of the distances between every pair of galaxies, each empty row
/// and column counting twice.
pub fn part1(input: &str) -> (r: i64)
    requires
        solvable(input.spec_bytes(), 2),
    ensures
        forall|rows: nat, columns: nat|
            is_grid(input.spec_bytes(), rows, columns) ==> r == total_distance(
                input.spec_bytes(),
                rows,
                columns,
                2,
            ),
{
    solve(input, 2)
}

/// The sum of the distances between every pair of galaxies, each empty row
/// and column counting a million times.
pub fn part2(input: &str) -> (r: i64)
    requires
        solvable(input.spec_bytes(), 1_000_000),
    ensures
        forall|rows: nat, columns: nat|
            is_grid(input.spec_bytes(), rows, columns) ==> r == total_distance(
                input.spec_bytes(),
                rows,
                columns,
                1_000_000,
            ),
{
    solve(input, 1_000_000)
}

} // verus!
