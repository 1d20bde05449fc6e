//! Engine schematics: the numbers next to a symbol, and the gears between
//! exactly two numbers.

use crate::grid::is_grid;
use crate::grid::law_dimensions;
use crate::grid::law_rectangular_accepted;
use crate::grid::ByteGridView;
use crate::grid::NEWLINE;
use crate::text::all_digits;
use crate::text::decimal;
use crate::text::is_digit;
use crate::text::MoreItertools;
use vstd::arithmetic::div_mod::lemma_fundamental_div_mod;
use vstd::arithmetic::div_mod::lemma_fundamental_div_mod_converse;
use vstd::prelude::*;
use vstd::slice::slice_subrange;
use vstd::string::is_ascii;
use vstd::string::StringSliceAdditionalSpecFns;

verus! {

/// The byte of an empty cell.
pub const DOT: u8 = 46;

/// The maximal runs of digits of `s`, as offsets `(start, end)`, in order.
pub open spec fn runs_of(s: Seq<u8>) -> Seq<(int, int)>
    decreases s.len(),
{
    if s.len() == 0 {
        Seq::empty()
    } else {
        let r = runs_of(s.drop_last());
        let n = s.len() as int;
        if !is_digit(s.last()) {
            r
        } else if n >= 2 && is_digit(s[n - 2]) {
            r.update(r.len() - 1, (r.last().0, n))
        } else {
            r.push((n - 1, n))
        }
    }
}

/// Relies on regex::Regex::new and regex::Regex::find_iter: the leftmost-first,
/// non-overlapping matches of the pattern `\d+`, as byte offsets in order; on
/// ASCII text `\d` is an ASCII digit, so these are the maximal runs of digits.
#[verifier::external_body]
fn digit_runs(pattern: &str, input: &str) -> (r: Vec<(usize, usize)>)
    requires
        pattern@ == r"\d+"@,
        is_ascii(input),
    ensures
        r@.map_values(|p: (usize, usize)| (p.0 as int, p.1 as int)) == runs_of(input.spec_bytes()),
{
    let digits = regex::Regex::new(pattern).unwrap();
    digits.find_iter(input).map(|m| (m.start(), m.end())).collect()
}

/// Every run is a non-empty span of digits; a run that ends before the end
/// of the text is followed by a byte that is not a digit.
proof fn lemma_runs(s: Seq<u8>)
    ensures
        forall|k: int|
            0 <= k < runs_of(s).len() ==> {
                let (a, b) = #[trigger] runs_of(s)[k];
                &&& 0 <= a < b <= s.len()
                &&& forall|t: int| a <= t < b ==> is_digit(s[t])
            },
    decreases s.len(),
{
    if s.len() > 0 {
        lemma_runs(s.drop_last());
        let r = runs_of(s.drop_last());
        let q = runs_of(s);
        let n = s.len() as int;
        assert forall|k: int| 0 <= k < q.len() implies {
            let (a, b) = #[trigger] q[k];
            &&& 0 <= a < b <= s.len()
            &&& forall|t: int| a <= t < b ==> is_digit(s[t])
        } by {
            assert(forall|t: int| 0 <= t < n - 1 ==> s.drop_last()[t] == s[t]);
            if !is_digit(s.last()) {
                assert(q[k] == r[k]);
            } else if n >= 2 && is_digit(s[n - 2]) {
                lemma_runs_end(s.drop_last());
                if k < r.len() - 1 {
                    assert(q[k] == r[k]);
                } else {
                    let (a, b) = r[k];
                    assert(b == n - 1);
                    assert(q[k] == (a, n));
                }
            } else {
                if k < r.len() {
                    assert(q[k] == r[k]);
                } else {
                    assert(q[k] == (n - 1, n));
                }
            }
        }
    }
}

/// When the text ends in a digit, its last run ends at the end.
proof fn lemma_runs_end(s: Seq<u8>)
    requires
        s.len() > 0,
        is_digit(s.last()),
    ensures
        runs_of(s).len() > 0,
        runs_of(s).last().1 == s.len(),
    decreases s.len(),
{
    let n = s.len() as int;
    if n >= 2 && is_digit(s[n - 2]) {
        lemma_runs_end(s.drop_last());
    }
}

/// A run of digits in a grid lies within one row.
proof fn lemma_run_in_row(s: Seq<u8>, rows: nat, columns: nat, a: int, b: int)
    requires
        is_grid(s, rows, columns),
        0 <= a < b <= s.len(),
        forall|t: int| a <= t < b ==> is_digit(s[t]),
    ensures
        a / ((columns + 1) as int) < rows,
        a % ((columns + 1) as int) + (b - a) <= columns,
{
    let d = (columns + 1) as int;
    let q = a / d;
    let r = a % d;
    lemma_fundamental_div_mod(a, d);
    vstd::arithmetic::div_mod::lemma_mod_pos_bound(a, d);
    assert(d * q == q * d) by (nonlinear_arith);
    assert(is_digit(s[a]));
    assert(r != columns);
    let e = q * d + columns;
    if r + (b - a) > columns {
        assert(a <= e < b);
        lemma_fundamental_div_mod_converse(e, d, q, columns as int);
        assert(s[e] == NEWLINE);
    }
    assert(s.len() + 1 == rows * d);
    if q >= rows {
        assert(q * d >= rows * d) by (nonlinear_arith)
            requires
                q >= rows,
                d >= 1,
        ;
    }
}

/// A byte that is neither a digit nor an empty cell.
pub open spec fn is_symbol(c: u8) -> bool {
    !is_digit(c) && c != DOT
}

/// Some byte among `cells` is a symbol.
pub open spec fn any_symbol(cells: Seq<u8>) -> bool {
    exists|k: int| 0 <= k < cells.len() && is_symbol(cells[k])
}

/// The bytes around the number in run `run` of a grid.
pub open spec fn bytes_around(g: ByteGridView, run: (int, int)) -> Seq<u8> {
    let d = g.spec_columns() + 1;
    let row = run.0 / d as int;
    let col = run.0 % d as int;
    g.perimeter(row, col, col + run.1 - run.0).map_values(|e: (u8, usize, usize)| e.0)
}

/// The value of run `run` if a symbol is next to it, else 0.
pub open spec fn part_value(g: ByteGridView, run: (int, int)) -> int {
    if any_symbol(bytes_around(g, run)) {
        decimal(g.bytes().subrange(run.0, run.1))
    } else {
        0
    }
}

/// The sum of the values of the first `n` runs.
pub open spec fn sum_of_parts(g: ByteGridView, runs: Seq<(int, int)>, n: int) -> int
    decreases n,
{
    if n <= 0 {
        0
    } else {
        sum_of_parts(g, runs, n - 1) + part_value(g, runs[n - 1])
    }
}

/// An ASCII grid of two or more rows whose numbers, and the sums of those
/// next to a symbol, fit in an `i32`.
pub open spec fn schematic_ok(s: Seq<u8>) -> bool {
    &&& exists|rows: nat, columns: nat| rows >= 2 && is_grid(s, rows, columns)
    &&& forall|k: int| 0 <= k < runs_of(s).len() ==> decimal(s.subrange(#[trigger] runs_of(s)[k].0, runs_of(s)[k].1)) <= i32::MAX
}

/// Whether a symbol is among `cells`.
fn has_symbol(cells: &Vec<u8>) -> (r: bool)
    ensures
        r == any_symbol(cells@),
{
    let mut i: usize = 0;
    while i < cells.len()
        invariant
            i <= cells@.len(),
            forall|k: int| 0 <= k < i ==> !is_symbol(cells@[k]),
        decreases cells@.len() - i,
    {
        let c = cells[i];
        if !(48 <= c && c <= 57) && c != DOT {
            return true;
        }
        i = i + 1;
    }
    false
}

/// The sum of the numbers of the schematic `input` that have a symbol next
/// to them, diagonals included.
pub fn part1(input: &str) -> (r: i32)
    requires
        is_ascii(input),
        schematic_ok(input.spec_bytes()),
        forall|g: ByteGridView, n: int|
            g.wf() && g.bytes() == input.spec_bytes() && 0 <= n <= runs_of(input.spec_bytes()).len()
                ==> #[trigger] sum_of_parts(g, runs_of(input.spec_bytes()), n) <= i32::MAX,
    ensures
        forall|g: ByteGridView|
            g.wf() && g.bytes() == input.spec_bytes() ==> r == sum_of_parts(
                g,
                runs_of(input.spec_bytes()),
                runs_of(input.spec_bytes()).len() as int,
            ),
{
    let ghost s = input.spec_bytes();
    let ghost (gr, gc) = choose|rows: nat, columns: nat| rows >= 2 && is_grid(s, rows, columns);
    proof {
        law_rectangular_accepted(s, gr, gc);
        lemma_runs(s);
    }
    let grid = match ByteGridView::parse(input) {
        Ok(g) => g,
        Err(_) => {
            return 0;
        },
    };
    proof {
        law_dimensions(grid, gr, gc);
    }
    let bytes = input.as_bytes();
    let runs = digit_runs(r"\d+", input);
    let ghost rs = runs_of(s);
    proof {
        assert(runs@.map_values(|p: (usize, usize)| (p.0 as int, p.1 as int)).len() == runs@.len());
    }
    let mut sum: i32 = 0;
    let mut i: usize = 0;
    while i < runs.len()
        invariant
            grid.wf(),
            grid.rectangular(),
            grid.bytes() == s,
            bytes@ == s,
            gr == grid.spec_rows(),
            gc == grid.spec_columns(),
            is_grid(s, gr, gc),
            rs == runs_of(s),
            schematic_ok(s),
            runs@.map_values(|p: (usize, usize)| (p.0 as int, p.1 as int)) == rs,
            i <= runs@.len(),
            forall|k: int|
                0 <= k < rs.len() ==> {
                    let (a, b) = #[trigger] rs[k];
                    &&& 0 <= a < b <= s.len()
                    &&& forall|t: int| a <= t < b ==> is_digit(s[t])
                },
            forall|g: ByteGridView, n: int|
                g.wf() && g.bytes() == s && 0 <= n <= rs.len() ==> #[trigger] sum_of_parts(g, rs, n) <= i32::MAX,
            sum == sum_of_parts(grid, rs, i as int),
            sum >= 0,
        decreases runs@.len() - i,
    {
        let (a, b) = runs[i];
        proof {
            assert(rs[i as int] == (a as int, b as int));
            lemma_run_in_row(s, gr, gc, a as int, b as int);
        }
        let row = grid.norm_to_row(a);
        let col = grid.norm_to_col(a);
        let around = grid.multi_column_neighbors(row, col, col + (b - a));
        let ghost span = s.subrange(a as int, b as int);
        proof {
            assert(all_digits(span));
            crate::text::lemma_decimal_prefix(span, 0, span.len() as int);
            assert(span.subrange(0, span.len() as int) =~= span);
            assert(decimal(span) <= i32::MAX);
        }
        let value: i32 = if has_symbol(&around) {
            let digits = slice_subrange(bytes, a, b);
            digits.parse_int() as i32
        } else {
            0
        };
        proof {
            assert(around@ == bytes_around(grid, rs[i as int]));
            assert(value == part_value(grid, rs[i as int]));
            assert(sum_of_parts(grid, rs, i + 1) <= i32::MAX);
        }
        sum = sum + value;
        i = i + 1;
    }
    proof {
        assert forall|g: ByteGridView| g.wf() && g.bytes() == s implies sum == sum_of_parts(g, rs, rs.len() as int) by {
            law_dimensions(g, gr, gc);
            lemma_same_view(g, grid);
        }
    }
    sum
}

/// Two views of the same buffer agree in every spec function.
proof fn lemma_same_view(g: ByteGridView, h: ByteGridView)
    requires
        g.wf(),
        h.wf(),
        g.bytes() == h.bytes(),
        g.spec_rows() == h.spec_rows(),
        g.spec_columns() == h.spec_columns(),
    ensures
        forall|runs: Seq<(int, int)>, n: int| #[trigger] sum_of_parts(g, runs, n) == sum_of_parts(h, runs, n),
{
    assert forall|runs: Seq<(int, int)>, n: int| #[trigger] sum_of_parts(g, runs, n) == sum_of_parts(h, runs, n) by {
        lemma_same_sum(g, h, runs, n);
    }
}

proof fn lemma_same_sum(g: ByteGridView, h: ByteGridView, runs: Seq<(int, int)>, n: int)
    requires
        g.bytes() == h.bytes(),
        g.spec_rows() == h.spec_rows(),
        g.spec_columns() == h.spec_columns(),
    ensures
        sum_of_parts(g, runs, n) == sum_of_parts(h, runs, n),
    decreases n,
{
    if n > 0 {
        lemma_same_sum(g, h, runs, n - 1);
        let run = runs[n - 1];
        let d = g.spec_columns() + 1;
        let row = run.0 / d as int;
        let col = run.0 % d as int;
        assert(g.perimeter(row, col, col + run.1 - run.0) =~= h.perimeter(row, col, col + run.1 - run.0));
        assert(bytes_around(g, run) =~= bytes_around(h, run));
    }
}

/// The byte of a gear candidate.
pub const STAR: u8 = 42;

/// The cells around the number in run `run` of a grid, with coordinates.
pub open spec fn cells_around(g: ByteGridView, run: (int, int)) -> Seq<(u8, usize, usize)> {
    let d = g.spec_columns() + 1;
    let row = run.0 / d as int;
    let col = run.0 % d as int;
    g.perimeter(row, col, col + run.1 - run.0)
}

/// How many of the first `k` cells are a star at row `y`, column `x`.
pub open spec fn star_hits(cells: Seq<(u8, usize, usize)>, y: int, x: int, k: int) -> nat
    decreases k,
{
    if k <= 0 {
        0
    } else {
        star_hits(cells, y, x, k - 1) + if cells[k - 1].0 == STAR && cells[k - 1].1 == y && cells[k - 1].2 == x {
            1nat
        } else {
            0nat
        }
    }
}

/// `v`, `k` times.
pub open spec fn repeat(v: int, k: nat) -> Seq<int> {
    Seq::new(k, |i: int| v)
}

/// The numbers, among the first `n` runs, that have a star at row `y`,
/// column `x` around them, once for each time the star is listed.
pub open spec fn adjacent(g: ByteGridView, runs: Seq<(int, int)>, n: int, y: int, x: int) -> Seq<int>
    decreases n,
{
    if n <= 0 {
        Seq::empty()
    } else {
        let run = runs[n - 1];
        let cells = cells_around(g, run);
        adjacent(g, runs, n - 1, y, x) + repeat(
            decimal(g.bytes().subrange(run.0, run.1)),
            star_hits(cells, y, x, cells.len() as int),
        )
    }
}

/// The gear ratio at offset `p`: the product of the two numbers around the
/// star there, or 0 unless there are exactly two.
pub open spec fn gear_value(g: ByteGridView, runs: Seq<(int, int)>, p: int) -> int {
    let d = (g.spec_columns() + 1) as int;
    let a = adjacent(g, runs, runs.len() as int, p / d, p % d);
    if a.len() == 2 {
        a[0] * a[1]
    } else {
        0
    }
}

/// The gear ratio at offset `p`, if there is one, fits in an `i32`.
pub open spec fn ratio_fits(g: ByteGridView, runs: Seq<(int, int)>, p: int) -> bool {
    let d = (g.spec_columns() + 1) as int;
    let a = adjacent(g, runs, runs.len() as int, p / d, p % d);
    a.len() == 2 ==> i32::MIN <= a[0] * a[1] <= i32::MAX
}

/// The sum of the gear ratios at the first `n` offsets.
pub open spec fn sum_of_gears(g: ByteGridView, runs: Seq<(int, int)>, n: int) -> int
    decreases n,
{
    if n <= 0 {
        0
    } else {
        sum_of_gears(g, runs, n - 1) + gear_value(g, runs, n - 1)
    }
}

/// The values of a vector of numbers.
pub open spec fn numbers_of(v: Seq<i32>) -> Seq<int> {
    v.map_values(|x: i32| x as int)
}

/// The sum of the gear ratios of the schematic `input`: for each star with
/// exactly two numbers around it, the product of the two.
pub fn part2(input: &str) -> (r: i32)
    requires
        is_ascii(input),
        schematic_ok(input.spec_bytes()),
        forall|g: ByteGridView, p: int|
            g.wf() && g.bytes() == input.spec_bytes() && 0 <= p < input.spec_bytes().len() ==> #[trigger] ratio_fits(
                g,
                runs_of(input.spec_bytes()),
                p,
            ),
        forall|g: ByteGridView, n: int|
            g.wf() && g.bytes() == input.spec_bytes() && 0 <= n <= input.spec_bytes().len() ==> i32::MIN
                <= #[trigger] sum_of_gears(g, runs_of(input.spec_bytes()), n) <= i32::MAX,
    ensures
        forall|g: ByteGridView|
            g.wf() && g.bytes() == input.spec_bytes() ==> r == sum_of_gears(
                g,
                runs_of(input.spec_bytes()),
                input.spec_bytes().len() as int,
            ),
{
    let ghost s = input.spec_bytes();
    let ghost (gr, gc) = choose|rows: nat, columns: nat| rows >= 2 && is_grid(s, rows, columns);
    proof {
        law_rectangular_accepted(s, gr, gc);
        lemma_runs(s);
    }
    let grid = match ByteGridView::parse(input) {
        Ok(g) => g,
        Err(_) => {
            return 0;
        },
    };
    proof {
        law_dimensions(grid, gr, gc);
    }
    let bytes = input.as_bytes();
    let n = bytes.len();
    let d = grid.columns() + 1;
    let runs = digit_runs(r"\d+", input);
    let ghost rs = runs_of(s);
    let ghost nr = rs.len() as int;
    proof {
        assert(runs@.map_values(|p: (usize, usize)| (p.0 as int, p.1 as int)).len() == runs@.len());
    }
    let mut lists: Vec<Vec<i32>> = Vec::new();
    let mut p: usize = 0;
    while p < n
        invariant
            p <= n,
            n == s.len(),
            lists@.len() == p,
            forall|q: int| 0 <= q < p ==> (#[trigger] lists@[q])@.len() == 0,
        decreases n - p,
    {
        lists.push(Vec::new());
        p = p + 1;
    }
    proof {
        assert forall|q: int| 0 <= q < n implies numbers_of((#[trigger] lists@[q])@) == adjacent(grid, rs, 0, q / (d as int), q % (d as int)) by {
            assert(numbers_of(lists@[q]@) =~= Seq::empty());
        }
    }
    let mut i: usize = 0;
    while i < runs.len()
        invariant
            grid.wf(),
            grid.rectangular(),
            grid.bytes() == s,
            bytes@ == s,
            n == s.len(),
            gr == grid.spec_rows(),
            gc == grid.spec_columns(),
            d == gc + 1,
            is_grid(s, gr, gc),
            rs == runs_of(s),
            nr == rs.len(),
            schematic_ok(s),
            runs@.map_values(|p: (usize, usize)| (p.0 as int, p.1 as int)) == rs,
            i <= runs@.len(),
            forall|k: int|
                0 <= k < rs.len() ==> {
                    let (a, b) = #[trigger] rs[k];
                    &&& 0 <= a < b <= s.len()
                    &&& forall|t: int| a <= t < b ==> is_digit(s[t])
                },
            lists@.len() == n,
            forall|q: int|
                0 <= q < n ==> numbers_of((#[trigger] lists@[q])@) == adjacent(grid, rs, i as int, q / (d as int), q % (d as int)),
        decreases runs@.len() - i,
    {
        let (a, b) = runs[i];
        proof {
            assert(rs[i as int] == (a as int, b as int));
            lemma_run_in_row(s, gr, gc, a as int, b as int);
        }
        let ghost span = s.subrange(a as int, b as int);
        proof {
            assert(all_digits(span));
            crate::text::lemma_decimal_prefix(span, 0, span.len() as int);
            assert(span.subrange(0, span.len() as int) =~= span);
            assert(decimal(span) <= i32::MAX);
        }
        let num = slice_subrange(bytes, a, b).parse_int() as i32;
        let row = grid.norm_to_row(a);
        let col = grid.norm_to_col(a);
        let around = grid.multi_column_neighbors_with_coordinates(row, col, col + (b - a));
        let ghost cells = cells_around(grid, rs[i as int]);
        proof {
            assert(around@ == cells);
        }
        proof {
            assert forall|t: int| 0 <= t < cells.len() implies (#[trigger] cells[t]).1 < gr && cells[t].2 < gc by {
                lemma_perimeter_in_grid(grid, row as int, col as int, col + (b - a), t);
            }
        }
        note_stars(&grid, &mut lists, &around, num);
        proof {
            assert forall|q: int| 0 <= q < n implies numbers_of((#[trigger] lists@[q])@) == adjacent(grid, rs, i + 1, q / (d as int), q % (d as int)) by {
                assert(g_bytes_span(grid, rs[i as int]) == span);
                assert(numbers_of(lists@[q]@) =~= adjacent(grid, rs, i + 1, q / (d as int), q % (d as int)));
            }
        }
        i = i + 1;
    }
    let mut sum: i32 = 0;
    let mut p: usize = 0;
    while p < n
        invariant
            grid.wf(),
            grid.bytes() == s,
            gc == grid.spec_columns(),
            d == gc + 1,
            n == s.len(),
            rs == runs_of(s),
            nr == rs.len(),
            p <= n,
            lists@.len() == n,
            forall|q: int|
                0 <= q < n ==> numbers_of((#[trigger] lists@[q])@) == adjacent(grid, rs, nr, q / (d as int), q % (d as int)),
            forall|g: ByteGridView, q: int|
                g.wf() && g.bytes() == s && 0 <= q < s.len() ==> #[trigger] ratio_fits(g, rs, q),
            forall|g: ByteGridView, m: int|
                g.wf() && g.bytes() == s && 0 <= m <= s.len() ==> i32::MIN <= #[trigger] sum_of_gears(g, rs, m) <= i32::MAX,
            sum == sum_of_gears(grid, rs, p as int),
        decreases n - p,
    {
        proof {
            assert(numbers_of(lists@[p as int]@).len() == lists@[p as int]@.len());
        }
        if lists[p].len() == 2 {
            let v1 = lists[p][0];
            let v2 = lists[p][1];
            proof {
                assert(numbers_of(lists@[p as int]@)[0] == v1 && numbers_of(lists@[p as int]@)[1] == v2);
                assert(ratio_fits(grid, rs, p as int));
                assert(i32::MIN <= v1 * v2 <= i32::MAX);
                assert(i32::MIN <= sum_of_gears(grid, rs, p + 1) <= i32::MAX);
            }
            sum = sum + v1 * v2;
        }
        p = p + 1;
    }
    proof {
        assert forall|g: ByteGridView| g.wf() && g.bytes() == s implies sum == sum_of_gears(g, rs, s.len() as int) by {
            law_dimensions(g, gr, gc);
            lemma_same_gears(g, grid, rs, s.len() as int);
        }
    }
    sum
}

/// Adds `num` to the list of each star cell in `around`, once for each
/// time the cell is listed.
fn note_stars(grid: &ByteGridView, lists: &mut Vec<Vec<i32>>, around: &Vec<(u8, usize, usize)>, num: i32)
    requires
        grid.wf(),
        old(lists)@.len() == grid.bytes().len(),
        forall|t: int|
            0 <= t < around@.len() ==> (#[trigger] around@[t]).1 < grid.spec_rows() && around@[t].2 < grid.spec_columns(),
        is_grid(grid.bytes(), grid.spec_rows(), grid.spec_columns()),
    ensures
        final(lists)@.len() == old(lists)@.len(),
        forall|q: int|
            0 <= q < old(lists)@.len() ==> numbers_of((#[trigger] final(lists)@[q])@) == numbers_of(old(lists)@[q]@)
                + repeat(
                num as int,
                star_hits(
                    around@,
                    q / (grid.spec_columns() + 1) as int,
                    q % (grid.spec_columns() + 1) as int,
                    around@.len() as int,
                ),
            ),
{
    let ghost start = lists@;
    let ghost cells = around@;
    let ghost gr = grid.spec_rows();
    let ghost gc = grid.spec_columns();
    let n = lists.len();
    let d = grid.columns() + 1;
    let mut k: usize = 0;
    while k < around.len()
        invariant
            grid.wf(),
            gr == grid.spec_rows(),
            gc == grid.spec_columns(),
            d == gc + 1,
            n == start.len(),
            n == grid.bytes().len(),
            n + 1 == gr * (gc + 1),
            gc >= 1,
            around@ == cells,
            forall|t: int| 0 <= t < cells.len() ==> (#[trigger] cells[t]).1 < gr && cells[t].2 < gc,
            k <= around@.len(),
            lists@.len() == n,
            forall|q: int|
                0 <= q < n ==> numbers_of((#[trigger] lists@[q])@) == numbers_of(start[q]@) + repeat(
                    num as int,
                    star_hits(cells, q / (d as int), q % (d as int), k as int),
                ),
        decreases around@.len() - k,
    {
        let (c, y, x) = around[k];
        if c == STAR {
            proof {
                crate::grid::lemma_row_in_bounds(gr, gc, y as nat);
            }
            let f = y * d + x;
            let ghost before = lists@;
            let ghost old_list = lists@[f as int]@;
            lists[f].push(num);
            proof {
                lemma_fundamental_div_mod_converse(f as int, d as int, y as int, x as int);
                assert forall|q: int| 0 <= q < n implies numbers_of((#[trigger] lists@[q])@) == numbers_of(start[q]@)
                    + repeat(num as int, star_hits(cells, q / (d as int), q % (d as int), k + 1)) by {
                    let qy = q / (d as int);
                    let qx = q % (d as int);
                    if q == f {
                        assert(numbers_of(lists@[q]@) =~= numbers_of(old_list).push(num as int));
                        assert(repeat(num as int, star_hits(cells, qy, qx, k + 1)) =~= repeat(
                            num as int,
                            star_hits(cells, qy, qx, k as int),
                        ).push(num as int));
                        assert(numbers_of(lists@[q]@) =~= numbers_of(start[q]@) + repeat(num as int, star_hits(cells, qy, qx, k + 1)));
                    } else {
                        assert(lists@[q] == before[q]);
                        lemma_fundamental_div_mod(q, d as int);
                        assert((d as int) * qy == qy * (d as int)) by (nonlinear_arith);
                        assert(!(qy == y && qx == x));
                    }
                }
            }
        } else {
            proof {
                assert(cells[k as int].0 != STAR);
                assert forall|q: int| 0 <= q < n implies numbers_of((#[trigger] lists@[q])@) == numbers_of(start[q]@)
                    + repeat(num as int, star_hits(cells, q / (d as int), q % (d as int), k + 1)) by {
                    assert(star_hits(cells, q / (d as int), q % (d as int), k + 1) == star_hits(
                        cells,
                        q / (d as int),
                        q % (d as int),
                        k as int,
                    ));
                }
            }
        }
        k = k + 1;
    }
}

/// The cells around a span lie in the grid.
proof fn lemma_perimeter_in_grid(g: ByteGridView, row: int, col_from: int, col_to: int, t: int)
    requires
        g.wf(),
        0 <= row < g.spec_rows(),
        0 <= col_from < col_to <= g.spec_columns(),
        0 <= t < g.perimeter(row, col_from, col_to).len(),
    ensures
        g.perimeter(row, col_from, col_to)[t].1 < g.spec_rows(),
        g.perimeter(row, col_from, col_to)[t].2 < g.spec_columns(),
{
    let lo = g.span_lo(col_from);
    let hi = g.span_hi(col_to);
    let a = if row > 0 { g.segment(row - 1, lo, hi) } else { Seq::empty() };
    let b = if row + 1 != g.spec_rows() { g.segment(row + 1, lo, hi) } else { Seq::empty() };
    let l = if col_from > 0 { seq![g.entry(row, col_from - 1)] } else { Seq::empty() };
    let r = if col_to != g.spec_columns() { seq![g.entry(row, col_to)] } else { Seq::empty() };
    let per = g.perimeter(row, col_from, col_to);
    assert(per == a + b + l + r);
    if t < a.len() {
        assert(per[t] == a[t]);
    } else if t < a.len() + b.len() {
        assert(per[t] == b[t - a.len()]);
    } else if t < a.len() + b.len() + l.len() {
        assert(per[t] == l[t - a.len() - b.len()]);
    } else {
        assert(per[t] == r[t - a.len() - b.len() - l.len()]);
    }
}

/// The digits of run `run`.
pub open spec fn g_bytes_span(g: ByteGridView, run: (int, int)) -> Seq<u8> {
    g.bytes().subrange(run.0, run.1)
}

/// Two views of the same buffer sum the same gear ratios.
proof fn lemma_same_gears(g: ByteGridView, h: ByteGridView, runs: Seq<(int, int)>, n: int)
    requires
        g.bytes() == h.bytes(),
        g.spec_rows() == h.spec_rows(),
        g.spec_columns() == h.spec_columns(),
    ensures
        sum_of_gears(g, runs, n) == sum_of_gears(h, runs, n),
    decreases n,
{
    if n > 0 {
        lemma_same_gears(g, h, runs, n - 1);
        let d = (g.spec_columns() + 1) as int;
        lemma_same_adjacent(g, h, runs, runs.len() as int, (n - 1) / d, (n - 1) % d);
    }
}

/// Two views of the same buffer list the same numbers around a cell.
proof fn lemma_same_adjacent(g: ByteGridView, h: ByteGridView, runs: Seq<(int, int)>, n: int, y: int, x: int)
    requires
        g.bytes() == h.bytes(),
        g.spec_rows() == h.spec_rows(),
        g.spec_columns() == h.spec_columns(),
    ensures
        adjacent(g, runs, n, y, x) == adjacent(h, runs, n, y, x),
    decreases n,
{
    if n > 0 {
        lemma_same_adjacent(g, h, runs, n - 1, y, x);
        let run = runs[n - 1];
        let d = g.spec_columns() + 1;
        let row = run.0 / d as int;
        let col = run.0 % d as int;
        assert(g.perimeter(row, col, col + run.1 - run.0) =~= h.perimeter(row, col, col + run.1 - run.0));
    }
}

} // verus!
