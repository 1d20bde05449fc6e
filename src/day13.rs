//! Patterns of ash and rock: their lines of reflection, exact or with one
//! smudge.

use crate::grid::is_grid;
use crate::grid::law_dimensions;
use crate::grid::law_rectangular_accepted;
use crate::grid::ByteGridView;
use crate::text::pair_pieces;
use crate::text::split_on_pair;
use crate::text::views;
use crate::text::NEWLINE;
use vstd::prelude::*;
use vstd::string::StringSliceAdditionalSpecFns;

verus! {

/// The dimensions of a rectangular grid buffer.
pub open spec fn shape(s: Seq<u8>) -> (nat, nat) {
    choose|d: (nat, nat)| is_grid(s, d.0, d.1)
}

/// The patterns of the input: the blocks between blank lines.
pub open spec fn patterns(s: Seq<u8>) -> Seq<Seq<u8>> {
    pair_pieces(s, NEWLINE, NEWLINE)
}

/// The byte at row `y`, column `x` of a grid buffer with `columns` bytes per
/// row.
pub open spec fn cell_at(s: Seq<u8>, columns: nat, y: int, x: int) -> u8 {
    s[y * (columns + 1) + x]
}

/// The two rows, or the two columns, compared at step `k` when looking for a
/// line of reflection `m` lines from the start (`from_start`) or from the
/// end of `n` lines.
pub open spec fn mirrored_pair(n: int, from_start: bool, m: int, k: int) -> (int, int) {
    if from_start {
        (k, 2 * m - 1 - k)
    } else {
        (n - 1 - k, n - 2 * m + k)
    }
}

/// The number of columns in which rows `a` and `b` differ, among the first
/// `n`.
pub open spec fn row_diff(s: Seq<u8>, columns: nat, a: int, b: int, n: int) -> nat
    decreases n,
{
    if n <= 0 {
        0
    } else {
        row_diff(s, columns, a, b, n - 1) + if cell_at(s, columns, a, n - 1) != cell_at(s, columns, b, n - 1) {
            1nat
        } else {
            0nat
        }
    }
}

/// The number of rows in which columns `a` and `b` differ, among the first
/// `n`.
pub open spec fn column_diff(s: Seq<u8>, columns: nat, a: int, b: int, n: int) -> nat
    decreases n,
{
    if n <= 0 {
        0
    } else {
        column_diff(s, columns, a, b, n - 1) + if cell_at(s, columns, n - 1, a) != cell_at(s, columns, n - 1, b) {
            1nat
        } else {
            0nat
        }
    }
}

/// The differences between the mirrored lines of the first `k` steps, for
/// rows (`by_rows`) or columns.
pub open spec fn mismatches(s: Seq<u8>, rows: nat, columns: nat, by_rows: bool, from_start: bool, m: int, k: int) -> nat
    decreases k,
{
    if k <= 0 {
        0
    } else {
        mismatches(s, rows, columns, by_rows, from_start, m, k - 1) + if by_rows {
            let p = mirrored_pair(rows as int, from_start, m, k - 1);
            row_diff(s, columns, p.0, p.1, columns as int)
        } else {
            let p = mirrored_pair(columns as int, from_start, m, k - 1);
            column_diff(s, columns, p.0, p.1, rows as int)
        }
    }
}

/// The lines mirror each other exactly about a line `m` lines from the
/// start or the end, for as many lines as lie on the shorter side.
pub open spec fn reflects(s: Seq<u8>, rows: nat, columns: nat, by_rows: bool, from_start: bool, m: int) -> bool {
    mismatches(s, rows, columns, by_rows, from_start, m, m) == 0
}

/// The lines mirror each other about such a line but for exactly one cell.
pub open spec fn smudged(s: Seq<u8>, rows: nat, columns: nat, by_rows: bool, from_start: bool, m: int) -> bool {
    mismatches(s, rows, columns, by_rows, from_start, m, m) == 1
}

/// The largest `m` from 1 through `n` about which the lines reflect
/// exactly, or 0.
pub open spec fn widest(s: Seq<u8>, rows: nat, columns: nat, by_rows: bool, from_start: bool, n: int) -> int
    decreases n,
{
    if n < 1 {
        0
    } else if reflects(s, rows, columns, by_rows, from_start, n) {
        n
    } else {
        widest(s, rows, columns, by_rows, from_start, n - 1)
    }
}

/// The score of a line of reflection `m` lines from the start or the end:
/// the lines before it, counting rows a hundred times.
pub open spec fn line_score(rows: nat, columns: nat, by_rows: bool, from_start: bool, m: int) -> int {
    let n = if by_rows { rows as int } else { columns as int };
    let before = if from_start { m } else { n - m };
    if by_rows { 100 * before } else { before }
}

/// The score of the widest exact reflection found from one side, or 0.
pub open spec fn side_score(s: Seq<u8>, rows: nat, columns: nat, by_rows: bool, from_start: bool) -> int {
    let n = if by_rows { rows as int } else { columns as int };
    let m = widest(s, rows, columns, by_rows, from_start, n / 2);
    if m >= 1 { line_score(rows, columns, by_rows, from_start, m) } else { 0 }
}

/// The score of a pattern: for each of the four sides, the widest exact
/// reflection found from that side.
pub open spec fn pattern_score(s: Seq<u8>) -> int {
    let (rows, columns) = shape(s);
    side_score(s, rows, columns, true, true) + side_score(s, rows, columns, true, false) + side_score(
        s,
        rows,
        columns,
        false,
        true,
    ) + side_score(s, rows, columns, false, false)
}

/// The scores of the reflections with one smudge found from one side, for
/// `m` from 1 through `n`.
pub open spec fn smudged_side_score(s: Seq<u8>, rows: nat, columns: nat, by_rows: bool, from_start: bool, n: int) -> int
    decreases n,
{
    if n < 1 {
        0
    } else {
        smudged_side_score(s, rows, columns, by_rows, from_start, n - 1) + if smudged(
            s,
            rows,
            columns,
            by_rows,
            from_start,
            n,
        ) {
            line_score(rows, columns, by_rows, from_start, n)
        } else {
            0
        }
    }
}

/// The score of a pattern with one smudge: every reflection with one
/// smudge, found from each of the four sides.
pub open spec fn smudged_pattern_score(s: Seq<u8>) -> int {
    let (r, c) = shape(s);
    smudged_side_score(s, r, c, true, true, (r / 2) as int) + smudged_side_score(s, r, c, true, false, (r / 2) as int)
        + smudged_side_score(s, r, c, false, true, (c / 2) as int) + smudged_side_score(
        s,
        r,
        c,
        false,
        false,
        (c / 2) as int,
    )
}

/// The sum of the exact scores of the patterns.
pub open spec fn sum_of_scores(ps: Seq<Seq<u8>>) -> int
    decreases ps.len(),
{
    if ps.len() == 0 {
        0
    } else {
        sum_of_scores(ps.drop_last()) + pattern_score(ps.last())
    }
}

/// The sum of the smudged scores of the patterns.
pub open spec fn sum_of_smudged_scores(ps: Seq<Seq<u8>>) -> int
    decreases ps.len(),
{
    if ps.len() == 0 {
        0
    } else {
        sum_of_smudged_scores(ps.drop_last()) + smudged_pattern_score(ps.last())
    }
}

/// A rectangular grid of two or more rows, small enough for its scores to
/// fit in an `i64`.
pub open spec fn pattern_ok(p: Seq<u8>) -> bool {
    exists|r: nat, c: nat| r >= 2 && is_grid(p, r, c) && 100 * (r + c) * (r + c) <= i64::MAX
}

/// Every pattern is well formed.
pub open spec fn all_patterns_ok(ps: Seq<Seq<u8>>) -> bool {
    forall|k: int| 0 <= k < ps.len() ==> pattern_ok(#[trigger] ps[k])
}

/// Scores from one side, and their sums, stay small and are never negative.
proof fn lemma_smudged_side_bounds(s: Seq<u8>, rows: nat, columns: nat, by_rows: bool, from_start: bool, a: int, n: int)
    requires
        0 <= a <= n <= (if by_rows { rows as int } else { columns as int }) / 2,
    ensures
        0 <= smudged_side_score(s, rows, columns, by_rows, from_start, a) <= smudged_side_score(
            s,
            rows,
            columns,
            by_rows,
            from_start,
            n,
        ),
        smudged_side_score(s, rows, columns, by_rows, from_start, n) <= 100 * (rows + columns) * n,
    decreases n,
{
    if n >= 1 {
        if a < n {
            lemma_smudged_side_bounds(s, rows, columns, by_rows, from_start, a, n - 1);
        } else {
            lemma_smudged_side_bounds(s, rows, columns, by_rows, from_start, n - 1, n - 1);
        }
        assert(100 * (rows + columns) * (n - 1) + 100 * (rows + columns) == 100 * (rows + columns) * n)
            by (nonlinear_arith);
    }
}

/// Mismatch counts only grow with the steps taken.
proof fn lemma_mismatches_grow(s: Seq<u8>, rows: nat, columns: nat, by_rows: bool, from_start: bool, m: int, j: int, k: int)
    requires
        0 <= j <= k,
    ensures
        mismatches(s, rows, columns, by_rows, from_start, m, j) <= mismatches(s, rows, columns, by_rows, from_start, m, k),
    decreases k,
{
    if j < k {
        lemma_mismatches_grow(s, rows, columns, by_rows, from_start, m, j, k - 1);
    }
}

/// The number of cells in which two rows, or two columns, differ.
fn line_mismatch(g: &ByteGridView, by_rows: bool, a: usize, b: usize) -> (r: usize)
    requires
        g.wf(),
        g.rectangular(),
        by_rows ==> a < g.spec_rows() && b < g.spec_rows(),
        !by_rows ==> a < g.spec_columns() && b < g.spec_columns(),
    ensures
        by_rows ==> r == row_diff(g.bytes(), g.spec_columns(), a as int, b as int, g.spec_columns() as int),
        !by_rows ==> r == column_diff(g.bytes(), g.spec_columns(), a as int, b as int, g.spec_rows() as int),
{
    let n = if by_rows { g.columns() } else { g.rows() };
    let mut count: usize = 0;
    let mut i: usize = 0;
    while i < n
        invariant
            g.wf(),
            g.rectangular(),
            by_rows ==> a < g.spec_rows() && b < g.spec_rows() && n == g.spec_columns(),
            !by_rows ==> a < g.spec_columns() && b < g.spec_columns() && n == g.spec_rows(),
            i <= n,
            count <= i,
            by_rows ==> count == row_diff(g.bytes(), g.spec_columns(), a as int, b as int, i as int),
            !by_rows ==> count == column_diff(g.bytes(), g.spec_columns(), a as int, b as int, i as int),
        decreases n - i,
    {
        let differ = if by_rows {
            g.get(a, i) != g.get(b, i)
        } else {
            g.get(i, a) != g.get(i, b)
        };
        if differ {
            count = count + 1;
        }
        i = i + 1;
    }
    count
}

/// Whether the lines mirror each other exactly about a line `m` lines from
/// the start or the end.
fn reflects_about(g: &ByteGridView, by_rows: bool, from_start: bool, m: usize) -> (r: bool)
    requires
        g.wf(),
        g.rectangular(),
        1 <= m <= (if by_rows { g.spec_rows() } else { g.spec_columns() }) / 2,
    ensures
        r == reflects(g.bytes(), g.spec_rows(), g.spec_columns(), by_rows, from_start, m as int),
{
    let n = if by_rows { g.rows() } else { g.columns() };
    let mut k: usize = 0;
    while k < m
        invariant
            g.wf(),
            g.rectangular(),
            n == (if by_rows { g.spec_rows() } else { g.spec_columns() }),
            1 <= m <= n / 2,
            k <= m,
            mismatches(g.bytes(), g.spec_rows(), g.spec_columns(), by_rows, from_start, m as int, k as int) == 0,
        decreases m - k,
    {
        let (a, b) = if from_start { (k, 2 * m - 1 - k) } else { (n - 1 - k, n - 2 * m + k) };
        let d = line_mismatch(g, by_rows, a, b);
        if d != 0 {
            proof {
                lemma_mismatches_grow(g.bytes(), g.spec_rows(), g.spec_columns(), by_rows, from_start, m as int, k + 1, m as int);
            }
            return false;
        }
        k = k + 1;
    }
    true
}

/// Whether the lines mirror each other about a line `m` lines from the
/// start or the end but for exactly one cell.
fn winnow(g: &ByteGridView, by_rows: bool, from_start: bool, m: usize) -> (r: bool)
    requires
        g.wf(),
        g.rectangular(),
        1 <= m <= (if by_rows { g.spec_rows() } else { g.spec_columns() }) / 2,
    ensures
        r == smudged(g.bytes(), g.spec_rows(), g.spec_columns(), by_rows, from_start, m as int),
{
    let ghost s = g.bytes();
    let n = if by_rows { g.rows() } else { g.columns() };
    let mut mirrored = true;
    let mut used_smudge = false;
    let mut k: usize = 0;
    while k < m && mirrored
        invariant
            g.wf(),
            g.rectangular(),
            s == g.bytes(),
            n == (if by_rows { g.spec_rows() } else { g.spec_columns() }),
            1 <= m <= n / 2,
            k <= m,
            mirrored ==> mismatches(s, g.spec_rows(), g.spec_columns(), by_rows, from_start, m as int, k as int) <= 1,
            mirrored ==> used_smudge == (mismatches(s, g.spec_rows(), g.spec_columns(), by_rows, from_start, m as int, k as int) == 1),
            !mirrored ==> mismatches(s, g.spec_rows(), g.spec_columns(), by_rows, from_start, m as int, m as int) >= 2,
        decreases m - k,
    {
        let (a, b) = if from_start { (k, 2 * m - 1 - k) } else { (n - 1 - k, n - 2 * m + k) };
        let wrong_ones = line_mismatch(g, by_rows, a, b);
        if wrong_ones == 0 {
        } else if wrong_ones == 1 && !used_smudge {
            used_smudge = true;
        } else {
            mirrored = false;
            proof {
                lemma_mismatches_grow(s, g.spec_rows(), g.spec_columns(), by_rows, from_start, m as int, k + 1, m as int);
            }
        }
        k = k + 1;
    }
    mirrored && used_smudge
}

/// The widest reflection lies within the range searched.
proof fn lemma_widest_range(s: Seq<u8>, rows: nat, columns: nat, by_rows: bool, from_start: bool, n: int)
    ensures
        0 <= widest(s, rows, columns, by_rows, from_start, n) <= if n < 0 { 0 } else { n },
    decreases n,
{
    if n >= 1 {
        lemma_widest_range(s, rows, columns, by_rows, from_start, n - 1);
    }
}

/// The score of the widest exact reflection found from one side.
fn side(g: &ByteGridView, by_rows: bool, from_start: bool) -> (r: i64)
    requires
        g.wf(),
        g.rectangular(),
        100 * (g.spec_rows() + g.spec_columns()) * (g.spec_rows() + g.spec_columns()) <= i64::MAX,
    ensures
        r == side_score(g.bytes(), g.spec_rows(), g.spec_columns(), by_rows, from_start),
        0 <= r <= if by_rows { 100 * g.spec_rows() as int } else { g.spec_columns() as int },
{
    let ghost s = g.bytes();
    let ghost (gr, gc) = (g.spec_rows(), g.spec_columns());
    let n = if by_rows { g.rows() } else { g.columns() };
    proof {
        assert(gr + gc <= 100 * (gr + gc) * (gr + gc)) by (nonlinear_arith)
            requires
                gr + gc >= 1,
        ;
        assert(100 * (gr + gc) <= 100 * (gr + gc) * (gr + gc)) by (nonlinear_arith)
            requires
                gr + gc >= 1,
        ;
    }
    let mut mirror = n / 2;
    while mirror >= 1
        invariant
            g.wf(),
            g.rectangular(),
            s == g.bytes(),
            gr == g.spec_rows(),
            gc == g.spec_columns(),
            n == (if by_rows { gr } else { gc }),
            100 * (gr + gc) <= i64::MAX,
            mirror <= n / 2,
            widest(s, gr, gc, by_rows, from_start, (n / 2) as int) == widest(s, gr, gc, by_rows, from_start, mirror as int),
        decreases mirror,
    {
        if reflects_about(g, by_rows, from_start, mirror) {
            let before = if from_start { mirror } else { n - mirror };
            if by_rows {
                return 100 * before as i64;
            } else {
                return before as i64;
            }
        }
        mirror = mirror - 1;
    }
    0
}

/// The score of the reflections with one smudge found from one side.
fn smudged_side(g: &ByteGridView, by_rows: bool, from_start: bool) -> (r: i64)
    requires
        g.wf(),
        g.rectangular(),
        100 * (g.spec_rows() + g.spec_columns()) * (g.spec_rows() + g.spec_columns()) <= i64::MAX,
    ensures
        r == smudged_side_score(
            g.bytes(),
            g.spec_rows(),
            g.spec_columns(),
            by_rows,
            from_start,
            (if by_rows { g.spec_rows() } else { g.spec_columns() }) as int / 2,
        ),
{
    let ghost s = g.bytes();
    let ghost (gr, gc) = (g.spec_rows(), g.spec_columns());
    let n = if by_rows { g.rows() } else { g.columns() };
    let ghost top = (n / 2) as int;
    proof {
        lemma_smudged_side_bounds(s, gr, gc, by_rows, from_start, 0, top);
        assert(100 * (gr + gc) * top <= 100 * (gr + gc) * (gr + gc)) by (nonlinear_arith)
            requires
                0 <= top <= gr + gc,
        ;
        assert(100 * (gr + gc) <= 100 * (gr + gc) * (gr + gc)) by (nonlinear_arith)
            requires
                gr + gc >= 1,
        ;
    }
    let mut total: i64 = 0;
    let mut mirror = n / 2;
    while mirror >= 1
        invariant
            g.wf(),
            g.rectangular(),
            s == g.bytes(),
            gr == g.spec_rows(),
            gc == g.spec_columns(),
            n == (if by_rows { gr } else { gc }),
            top == n / 2,
            100 * (gr + gc) <= i64::MAX,
            smudged_side_score(s, gr, gc, by_rows, from_start, top) <= i64::MAX,
            mirror <= n / 2,
            total == smudged_side_score(s, gr, gc, by_rows, from_start, top) - smudged_side_score(
                s,
                gr,
                gc,
                by_rows,
                from_start,
                mirror as int,
            ),
        decreases mirror,
    {
        proof {
            lemma_smudged_side_bounds(s, gr, gc, by_rows, from_start, mirror - 1, top);
            lemma_smudged_side_bounds(s, gr, gc, by_rows, from_start, mirror - 1, mirror as int);
        }
        if winnow(g, by_rows, from_start, mirror) {
            let before = if from_start { mirror } else { n - mirror };
            if by_rows {
                total = total + 100 * before as i64;
            } else {
                total = total + before as i64;
            }
        }
        mirror = mirror - 1;
    }
    total
}

/// The exact score of a pattern.
fn score(p: &[u8]) -> (r: i64)
    requires
        pattern_ok(p@),
    ensures
        r == pattern_score(p@),
        r >= 0,
{
    let ghost (gr, gc) = choose|r: nat, c: nat| r >= 2 && is_grid(p@, r, c) && 100 * (r + c) * (r + c) <= i64::MAX;
    proof {
        law_rectangular_accepted(p@, gr, gc);
    }
    let grid = match ByteGridView::from_bytes(p) {
        Ok(g) => g,
        Err(_) => {
            return 0;
        },
    };
    proof {
        law_dimensions(grid, gr, gc);
        let d = shape(p@);
        law_dimensions(grid, d.0, d.1);
        assert(200 * (gr + gc) <= 100 * (gr + gc) * (gr + gc)) by (nonlinear_arith)
            requires
                gr + gc >= 2,
        ;
    }
    let top = side(&grid, true, true);
    let bottom = side(&grid, true, false);
    let left = side(&grid, false, true);
    let right = side(&grid, false, false);
    top + bottom + left + right
}

/// The score of a pattern with one smudge.
fn smudged_score(p: &[u8]) -> (r: i64)
    requires
        pattern_ok(p@),
    ensures
        r == smudged_pattern_score(p@),
        r >= 0,
{
    let ghost (gr, gc) = choose|r: nat, c: nat| r >= 2 && is_grid(p@, r, c) && 100 * (r + c) * (r + c) <= i64::MAX;
    proof {
        law_rectangular_accepted(p@, gr, gc);
    }
    let grid = match ByteGridView::from_bytes(p) {
        Ok(g) => g,
        Err(_) => {
            return 0;
        },
    };
    let ghost s = p@;
    proof {
        law_dimensions(grid, gr, gc);
        let d = shape(p@);
        law_dimensions(grid, d.0, d.1);
        let hr = (gr / 2) as int;
        let hc = (gc / 2) as int;
        lemma_smudged_side_bounds(s, gr, gc, true, true, 0, hr);
        lemma_smudged_side_bounds(s, gr, gc, true, false, 0, hr);
        lemma_smudged_side_bounds(s, gr, gc, false, true, 0, hc);
        lemma_smudged_side_bounds(s, gr, gc, false, false, 0, hc);
        assert(100 * (gr + gc) * hr + 100 * (gr + gc) * hr + 100 * (gr + gc) * hc + 100 * (gr + gc) * hc
            <= 100 * (gr + gc) * (gr + gc)) by (nonlinear_arith)
            requires
                2 * hr <= gr,
                2 * hc <= gc,
                hr >= 0,
                hc >= 0,
        ;
    }
    let top = smudged_side(&grid, true, true);
    let bottom = smudged_side(&grid, true, false);
    let left = smudged_side(&grid, false, true);
    let right = smudged_side(&grid, false, false);
    top + bottom + left + right
}

/// The sum over the patterns of `input`, separated by blank lines, of the
/// rows above each exact reflection times 100 and the columns left of it.
pub fn part1(input: &str) -> (r: i64)
    requires
        all_patterns_ok(patterns(input.spec_bytes())),
        forall|k: int|
            0 <= k <= patterns(input.spec_bytes()).len() ==> #[trigger] sum_of_scores(
                patterns(input.spec_bytes()).subrange(0, k),
            ) <= i64::MAX,
    ensures
        r == sum_of_scores(patterns(input.spec_bytes())),
{
    let ps = split_on_pair(input.as_bytes(), NEWLINE, NEWLINE);
    let ghost all = patterns(input.spec_bytes());
    proof {
        assert(views(ps@).len() == ps@.len());
    }
    let mut sum: i64 = 0;
    let mut i: usize = 0;
    while i < ps.len()
        invariant
            i <= ps@.len(),
            views(ps@) == all,
            all_patterns_ok(all),
            forall|k: int| 0 <= k <= all.len() ==> #[trigger] sum_of_scores(all.subrange(0, k)) <= i64::MAX,
            sum == sum_of_scores(all.subrange(0, i as int)),
            sum >= 0,
        decreases ps@.len() - i,
    {
        proof {
            assert(all[i as int] == ps@[i as int]@);
            assert(pattern_ok(all[i as int]));
        }
        let v = score(ps[i].as_slice());
        proof {
            assert(all.subrange(0, i + 1).drop_last() =~= all.subrange(0, i as int));
            assert(sum_of_scores(all.subrange(0, i + 1)) <= i64::MAX);
        }
        sum = sum + v;
        i = i + 1;
    }
    proof {
        assert(all.subrange(0, all.len() as int) =~= all);
    }
    sum
}

/// The sum over the patterns of `input`, separated by blank lines, of the
/// scores of every reflection that holds but for exactly one cell.
pub fn part2(input: &str) -> (r: i64)
    requires
        all_patterns_ok(patterns(input.spec_bytes())),
        forall|k: int|
            0 <= k <= patterns(input.spec_bytes()).len() ==> #[trigger] sum_of_smudged_scores(
                patterns(input.spec_bytes()).subrange(0, k),
            ) <= i64::MAX,
    ensures
        r == sum_of_smudged_scores(patterns(input.spec_bytes())),
{
    let ps = split_on_pair(input.as_bytes(), NEWLINE, NEWLINE);
    let ghost all = patterns(input.spec_bytes());
    proof {
        assert(views(ps@).len() == ps@.len());
    }
    let mut sum: i64 = 0;
    let mut i: usize = 0;
    while i < ps.len()
        invariant
            i <= ps@.len(),
            views(ps@) == all,
            all_patterns_ok(all),
            forall|k: int| 0 <= k <= all.len() ==> #[trigger] sum_of_smudged_scores(all.subrange(0, k)) <= i64::MAX,
            sum == sum_of_smudged_scores(all.subrange(0, i as int)),
            sum >= 0,
        decreases ps@.len() - i,
    {
        proof {
            assert(all[i as int] == ps@[i as int]@);
            assert(pattern_ok(all[i as int]));
        }
        let v = smudged_score(ps[i].as_slice());
        proof {
            assert(all.subrange(0, i + 1).drop_last() =~= all.subrange(0, i as int));
            assert(sum_of_smudged_scores(all.subrange(0, i + 1)) <= i64::MAX);
        }
        sum = sum + v;
        i = i + 1;
    }
    proof {
        assert(all.subrange(0, all.len() as int) =~= all);
    }
    sum
}

} // verus!
